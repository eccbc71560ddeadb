//! An ontology: a directed, typed, multi-relational graph of named concepts,
//! built by compiling structured declarations into vertices and relation
//! arrows, then queried for taxonomic relationships.

use vstd::prelude::*;

pub mod codec;
pub mod compiler;
pub mod ontology;
pub mod relation;

verus! {

pub use crate::compiler::Clause;
pub use crate::compiler::ClauseView;
pub use crate::compiler::Declaration;
pub use crate::compiler::DeclarationView;
pub use crate::compiler::compile_declaration;
pub use crate::compiler::compile_declarations;
pub use crate::ontology::Arrow;
pub use crate::ontology::ArrowView;
pub use crate::ontology::Ontology;
pub use crate::ontology::OntologyError;
pub use crate::ontology::OntologyView;
pub use crate::ontology::Vertex;
pub use crate::ontology::VertexView;
pub use crate::relation::Atom;
pub use crate::relation::AtomKind;
pub use crate::relation::Constraint;
pub use crate::relation::AtomView;
pub use crate::relation::ConstraintView;

} // verus!
