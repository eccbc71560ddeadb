//! Relation values carried by arrows, and their kind-only classification.

use vstd::prelude::*;

verus! {

/// One named parameter of a specialized-subset relation, together with the
/// ordered list of permitted value labels.
pub struct Constraint {
    pub parameter: String,
    pub values: Vec<String>,
}

/// Mathematical model of a `Constraint`.
pub struct ConstraintView {
    pub parameter: Seq<char>,
    pub values: Seq<Seq<char>>,
}

impl View for Constraint {
    type V = ConstraintView;

    open spec fn view(&self) -> ConstraintView {
        ConstraintView {
            parameter: self.parameter@,
            values: self.values@.map_values(|s: String| s@),
        }
    }
}

/// A relation value: the typed payload of an arrow. `IsSpecializedSubsetOf`
/// refines plain subsumption with an insertion-ordered mapping from parameter
/// name to permitted value labels; the other kinds carry no payload.
pub enum Atom {
    IsHyponymOf,
    IsSpecializedSubsetOf(Vec<Constraint>),
    IsMeronymOf,
    IsTokenOf,
}

/// Mathematical model of an `Atom`.
pub enum AtomView {
    IsHyponymOf,
    IsSpecializedSubsetOf(Seq<ConstraintView>),
    IsMeronymOf,
    IsTokenOf,
}

impl View for Atom {
    type V = AtomView;

    open spec fn view(&self) -> AtomView {
        match self {
            Atom::IsHyponymOf => AtomView::IsHyponymOf,
            Atom::IsSpecializedSubsetOf(cs) => AtomView::IsSpecializedSubsetOf(
                cs@.map_values(|c: Constraint| c@),
            ),
            Atom::IsMeronymOf => AtomView::IsMeronymOf,
            Atom::IsTokenOf => AtomView::IsTokenOf,
        }
    }
}

/// The kind of a relation value, independent of any payload.
#[derive(PartialEq, Eq, Structural, Clone, Copy, Debug)]
pub enum AtomKind {
    IsHyponymOf,
    IsSpecializedSubsetOf,
    IsMeronymOf,
    IsTokenOf,
}

/// Kind of a relation model, independent of any payload.
pub open spec fn spec_kind_of(a: AtomView) -> AtomKind {
    match a {
        AtomView::IsHyponymOf => AtomKind::IsHyponymOf,
        AtomView::IsSpecializedSubsetOf(_) => AtomKind::IsSpecializedSubsetOf,
        AtomView::IsMeronymOf => AtomKind::IsMeronymOf,
        AtomView::IsTokenOf => AtomKind::IsTokenOf,
    }
}

/// A relation counts as subsumption when it is a plain or a specialized
/// "is-a": these are grouped together by the hypernym and hyponym queries.
pub open spec fn spec_is_subsumption(a: AtomView) -> bool {
    match a {
        AtomView::IsHyponymOf => true,
        AtomView::IsSpecializedSubsetOf(_) => true,
        AtomView::IsMeronymOf => false,
        AtomView::IsTokenOf => false,
    }
}

impl Atom {
    /// The kind-only projection of this relation value.
    pub fn kind(&self) -> (k: AtomKind)
        ensures
            k == spec_kind_of(self@),
    {
        match self {
            Atom::IsHyponymOf => AtomKind::IsHyponymOf,
            Atom::IsSpecializedSubsetOf(_) => AtomKind::IsSpecializedSubsetOf,
            Atom::IsMeronymOf => AtomKind::IsMeronymOf,
            Atom::IsTokenOf => AtomKind::IsTokenOf,
        }
    }

    /// Whether this relation is classified as subsumption.
    pub fn is_subsumption(&self) -> (r: bool)
        ensures
            r == spec_is_subsumption(self@),
    {
        match self {
            Atom::IsHyponymOf => true,
            Atom::IsSpecializedSubsetOf(_) => true,
            Atom::IsMeronymOf => false,
            Atom::IsTokenOf => false,
        }
    }
}

impl Clone for Constraint {
    /// A cloned constraint has the same model as the original.
    fn clone(&self) -> (r: Self)
        ensures
            r@ == self@,
    {
        let mut values: Vec<String> = Vec::new();
        let mut i: usize = 0;
        while i < self.values.len()
            invariant
                i <= self.values.len(),
                values@.len() == i,
                forall|j: int| 0 <= j < i ==> values@[j]@ == self.values@[j]@,
            decreases self.values.len() - i,
        {
            values.push(self.values[i].clone());
            i = i + 1;
        }
        proof {
            assert(values@.map_values(|s: String| s@) =~= self.values@.map_values(
                |s: String| s@,
            ));
        }
        Constraint { parameter: self.parameter.clone(), values }
    }
}

pub(crate) fn clone_constraints(cs: &Vec<Constraint>) -> (r: Vec<Constraint>)
    ensures
        r@.map_values(|c: Constraint| c@) == cs@.map_values(|c: Constraint| c@),
{
    let mut copies: Vec<Constraint> = Vec::new();
    let mut i: usize = 0;
    while i < cs.len()
        invariant
            i <= cs.len(),
            copies@.len() == i,
            forall|j: int| 0 <= j < i ==> copies@[j]@ == cs@[j]@,
        decreases cs.len() - i,
    {
        copies.push(cs[i].clone());
        i = i + 1;
    }
    proof {
        assert(copies@.map_values(|c: Constraint| c@) =~= cs@.map_values(|c: Constraint| c@));
    }
    copies
}

impl Clone for Atom {
    /// A cloned relation value has the same model as the original.
    fn clone(&self) -> (r: Self)
        ensures
            r@ == self@,
    {
        match self {
            Atom::IsHyponymOf => Atom::IsHyponymOf,
            Atom::IsSpecializedSubsetOf(cs) => Atom::IsSpecializedSubsetOf(clone_constraints(cs)),
            Atom::IsMeronymOf => Atom::IsMeronymOf,
            Atom::IsTokenOf => Atom::IsTokenOf,
        }
    }
}

} // verus!
