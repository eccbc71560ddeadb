//! The ontology graph: vertices keyed by label, an append-only arrow log,
//! and index-based adjacency bookkeeping with derived relation views.

use vstd::prelude::*;

use indexmap::IndexMap;

use crate::relation::{Atom, AtomView, spec_is_subsumption};

verus! {

#[verifier::external_type_specification]
#[verifier::external_body]
#[verifier::reject_recursive_types(K)]
#[verifier::reject_recursive_types(V)]
#[verifier::reject_recursive_types(S)]
pub struct ExIndexMap<K, V, S>(IndexMap<K, V, S>);

/// The key-value pairs held by a label index, in insertion order.
pub uninterp spec fn imap_entries(m: IndexMap<String, usize>) -> Seq<(Seq<char>, usize)>;

/// Relies on indexmap's `IndexMap::new`: a newly created map holds no entries.
#[verifier::external_body]
fn imap_new() -> (r: IndexMap<String, usize>)
    ensures
        imap_entries(r) == Seq::<(Seq<char>, usize)>::empty(),
{
    IndexMap::new()
}

/// Relies on indexmap's `IndexMap::get`: returns the value stored for the
/// key when an equivalent key is present, and `None` otherwise.
#[verifier::external_body]
fn imap_get(m: &IndexMap<String, usize>, key: &String) -> (r: Option<usize>)
    ensures
        match r {
            Some(v) => exists|k: int|
                0 <= k < imap_entries(*m).len() && imap_entries(*m)[k] == (key@, v),
            None => forall|k: int|
                0 <= k < imap_entries(*m).len() ==> (#[trigger] imap_entries(*m)[k]).0 != key@,
        },
{
    m.get(key).copied()
}

/// Relies on indexmap's `IndexMap::insert`: a key that no entry holds yet is
/// appended together with its value, last in insertion order.
#[verifier::external_body]
fn imap_insert(m: &mut IndexMap<String, usize>, key: String, value: usize)
    requires
        forall|k: int|
            0 <= k < imap_entries(*old(m)).len() ==> (#[trigger] imap_entries(
                *old(m),
            )[k]).0 != key@,
    ensures
        imap_entries(*final(m)) == imap_entries(*old(m)).push((key@, value)),
{
    m.insert(key, value);
}

/// Relies on rand's `random_range`: a uniformly distributed value drawn from
/// the given range, which must not be empty.
#[verifier::external_body]
fn random_below(bound: usize) -> (r: usize)
    requires
        bound > 0,
    ensures
        r < bound,
{
    rand::random_range(0..bound)
}

/// A recoverable failure of a graph mutation, query, or declaration.
#[derive(Debug, Clone, Copy, PartialEq, Eq, Structural)]
pub enum OntologyError {
    /// `add_arrow` named a source or target label with no vertex.
    UnknownVertexReference,
    /// An adjacency query named a label with no vertex.
    UnknownVertexLabel,
    /// A random vertex was requested from a graph with no vertices.
    EmptyGraph,
    /// A declaration clause violated its shape contract.
    MalformedDeclaration,
}

/// A named node's adjacency bookkeeping: positions into the arrow log of the
/// arrows targeting it, sourced at it, and self-looping on it.
pub struct Vertex {
    ingress_indices: Vec<usize>,
    egress_indices: Vec<usize>,
    regress_indices: Vec<usize>,
}

/// Mathematical model of a `Vertex`.
pub struct VertexView {
    pub ingress: Seq<usize>,
    pub egress: Seq<usize>,
    pub regress: Seq<usize>,
}

impl View for Vertex {
    type V = VertexView;

    closed spec fn view(&self) -> VertexView {
        VertexView {
            ingress: self.ingress_indices@,
            egress: self.egress_indices@,
            regress: self.regress_indices@,
        }
    }
}

/// The model of a vertex with no adjacent arrows.
pub open spec fn empty_vertex() -> VertexView {
    VertexView { ingress: Seq::empty(), egress: Seq::empty(), regress: Seq::empty() }
}

/// An immutable directed edge: a relation value, a source label and a target
/// label, stored only in the graph's append-only arrow log.
pub struct Arrow {
    data: Atom,
    source_index: String,
    target_index: String,
}

/// Mathematical model of an `Arrow`.
pub struct ArrowView {
    pub data: AtomView,
    pub source: Seq<char>,
    pub target: Seq<char>,
}

impl View for Arrow {
    type V = ArrowView;

    closed spec fn view(&self) -> ArrowView {
        ArrowView { data: self.data@, source: self.source_index@, target: self.target_index@ }
    }
}

impl Arrow {
    fn new(data: Atom, source_index: String, target_index: String) -> (a: Arrow)
        ensures
            a@ == (ArrowView { data: data@, source: source_index@, target: target_index@ }),
    {
        Arrow { data, source_index, target_index }
    }

    /// The relation value this arrow carries.
    pub fn data(&self) -> (r: &Atom)
        ensures
            r@ == self@.data,
    {
        &self.data
    }

    /// The label of the vertex this arrow is sourced at.
    pub fn source_index(&self) -> (r: &str)
        ensures
            r@ == self@.source,
    {
        self.source_index.as_str()
    }

    /// The label of the vertex this arrow targets.
    pub fn target_index(&self) -> (r: &str)
        ensures
            r@ == self@.target,
    {
        self.target_index.as_str()
    }
}

impl Clone for Arrow {
    /// A cloned arrow has the same model as the original.
    fn clone(&self) -> (r: Self)
        ensures
            r@ == self@,
    {
        Arrow {
            data: self.data.clone(),
            source_index: self.source_index.clone(),
            target_index: self.target_index.clone(),
        }
    }
}

/// Positions of the arrows in `arrows` that target `label` from a different
/// vertex, in arrow-log order.
pub open spec fn ingress_of(arrows: Seq<ArrowView>, label: Seq<char>) -> Seq<usize>
    decreases arrows.len(),
{
    if arrows.len() == 0 {
        Seq::empty()
    } else {
        let prefix = ingress_of(arrows.drop_last(), label);
        let a = arrows.last();
        if a.target == label && a.source != label {
            prefix.push((arrows.len() - 1) as usize)
        } else {
            prefix
        }
    }
}

/// Positions of the arrows in `arrows` sourced at `label` that target a
/// different vertex, in arrow-log order.
pub open spec fn egress_of(arrows: Seq<ArrowView>, label: Seq<char>) -> Seq<usize>
    decreases arrows.len(),
{
    if arrows.len() == 0 {
        Seq::empty()
    } else {
        let prefix = egress_of(arrows.drop_last(), label);
        let a = arrows.last();
        if a.source == label && a.target != label {
            prefix.push((arrows.len() - 1) as usize)
        } else {
            prefix
        }
    }
}

/// Positions of the self-loop arrows of `label` in `arrows`, in arrow-log
/// order.
pub open spec fn regress_of(arrows: Seq<ArrowView>, label: Seq<char>) -> Seq<usize>
    decreases arrows.len(),
{
    if arrows.len() == 0 {
        Seq::empty()
    } else {
        let prefix = regress_of(arrows.drop_last(), label);
        let a = arrows.last();
        if a.source == label && a.target == label {
            prefix.push((arrows.len() - 1) as usize)
        } else {
            prefix
        }
    }
}

/// The adjacency bookkeeping that the arrow log determines for `label`.
pub open spec fn vertex_of(arrows: Seq<ArrowView>, label: Seq<char>) -> VertexView {
    VertexView {
        ingress: ingress_of(arrows, label),
        egress: egress_of(arrows, label),
        regress: regress_of(arrows, label),
    }
}

/// Mathematical model of an `Ontology`: the labels in insertion order, the
/// per-label adjacency bookkeeping, and the arrow log.
#[verifier::ext_equal]
pub struct OntologyView {
    pub labels: Seq<Seq<char>>,
    pub vertices: Seq<VertexView>,
    pub arrows: Seq<ArrowView>,
}

/// The graph whose vertices are `labels` and whose arrow log is `arrows`,
/// with the adjacency bookkeeping the log determines.
pub open spec fn graph_of(labels: Seq<Seq<char>>, arrows: Seq<ArrowView>) -> OntologyView {
    OntologyView {
        labels,
        vertices: Seq::new(labels.len(), |i: int| vertex_of(arrows, labels[i])),
        arrows,
    }
}

/// No label occurs twice.
pub open spec fn distinct_labels(labels: Seq<Seq<char>>) -> bool {
    forall|i: int, j: int| 0 <= i < j < labels.len() ==> labels[i] != labels[j]
}

/// Every arrow's source and target label has a vertex.
pub open spec fn arrows_grounded(labels: Seq<Seq<char>>, arrows: Seq<ArrowView>) -> bool {
    forall|k: int|
        0 <= k < arrows.len() ==> labels.contains((#[trigger] arrows[k]).source)
            && labels.contains(arrows[k].target)
}

/// The graph invariant: labels are unique, every arrow is grounded in
/// existing vertices, and each vertex's index lists are exactly the ones the
/// arrow log determines for its label.
pub open spec fn inv(v: OntologyView) -> bool {
    &&& v.vertices.len() == v.labels.len()
    &&& distinct_labels(v.labels)
    &&& arrows_grounded(v.labels, v.arrows)
    &&& forall|i: int|
        0 <= i < v.labels.len() ==> #[trigger] v.vertices[i] == vertex_of(v.arrows, v.labels[i])
}

/// An insertion-ordered mapping from label to vertex, plus the append-only
/// arrow log. The label index accelerates lookup; the label list carries the
/// insertion order.
pub struct Ontology {
    index: IndexMap<String, usize>,
    labels: Vec<String>,
    vertices: Vec<Vertex>,
    arrows: Vec<Arrow>,
}

impl View for Ontology {
    type V = OntologyView;

    closed spec fn view(&self) -> OntologyView {
        OntologyView {
            labels: self.labels@.map_values(|s: String| s@),
            vertices: self.vertices@.map_values(|v: Vertex| v@),
            arrows: self.arrows@.map_values(|a: Arrow| a@),
        }
    }
}

impl Vertex {
    fn new() -> (v: Vertex)
        ensures
            v@ == empty_vertex(),
    {
        Vertex {
            ingress_indices: Vec::new(),
            egress_indices: Vec::new(),
            regress_indices: Vec::new(),
        }
    }
}

impl Ontology {
    /// The graph invariant, together with the bookkeeping that ties the
    /// label index to the label list.
    pub closed spec fn wf(&self) -> bool {
        &&& inv(self@)
        &&& imap_entries(self.index) == Seq::new(
            self.labels@.len(),
            |i: int| (self.labels@[i]@, i as usize),
        )
    }

    /// A new, empty graph.
    pub fn new() -> (g: Ontology)
        ensures
            g.wf(),
            g@ == graph_of(Seq::empty(), Seq::empty()),
    {
        let g = Ontology {
            index: imap_new(),
            labels: Vec::new(),
            vertices: Vec::new(),
            arrows: Vec::new(),
        };
        proof {
            assert(g@.labels =~= Seq::<Seq<char>>::empty());
            assert(g@.vertices =~= Seq::<VertexView>::empty());
            assert(g@.arrows =~= Seq::<ArrowView>::empty());
            assert(g@ =~= graph_of(Seq::empty(), Seq::empty()));
            assert(imap_entries(g.index) =~= Seq::new(
                g.labels@.len(),
                |i: int| (g.labels@[i]@, i as usize),
            ));
        }
        g
    }

    /// The position of the vertex with this label, if one exists.
    fn find(&self, label: &String) -> (r: Option<usize>)
        requires
            self.wf(),
        ensures
            match r {
                Some(i) => (i as int) < self@.labels.len() && self@.labels[i as int] == label@,
                None => !self@.labels.contains(label@),
            },
    {
        let n = self.labels.len();
        let r = imap_get(&self.index, label);
        proof {
            let entries = imap_entries(self.index);
            match r {
                Some(v) => {
                    let k = choose|k: int|
                        0 <= k < entries.len() && entries[k] == (label@, v);
                    assert(entries[k] == (self.labels@[k]@, k as usize));
                },
                None => {
                    assert forall|i: int| 0 <= i < self@.labels.len() implies self@.labels[i]
                        != label@ by {
                        assert(entries[i].0 != label@);
                    }
                    assert(!self@.labels.contains(label@));
                },
            }
        }
        r
    }
}

proof fn lemma_push_preserves_contains(s: Seq<Seq<char>>, x: Seq<char>, y: Seq<char>)
    requires
        s.contains(x),
    ensures
        s.push(y).contains(x),
{
    let i = choose|i: int| 0 <= i < s.len() && s[i] == x;
    assert(s.push(y)[i] == x);
}

/// A label that no arrow names has no adjacent arrows.
proof fn lemma_unreferenced_label_empty(arrows: Seq<ArrowView>, label: Seq<char>)
    requires
        forall|k: int|
            0 <= k < arrows.len() ==> (#[trigger] arrows[k]).source != label && arrows[k].target
                != label,
    ensures
        vertex_of(arrows, label) == empty_vertex(),
    decreases arrows.len(),
{
    if arrows.len() > 0 {
        let prefix = arrows.drop_last();
        assert forall|k: int|
            0 <= k < prefix.len() implies (#[trigger] prefix[k]).source != label
            && prefix[k].target != label by {
            assert(prefix[k] == arrows[k]);
        }
        lemma_unreferenced_label_empty(prefix, label);
    }
}

/// How one appended arrow changes the adjacency bookkeeping of each label.
proof fn lemma_adjacency_push(arrows: Seq<ArrowView>, a: ArrowView, label: Seq<char>)
    ensures
        ingress_of(arrows.push(a), label) == if a.target == label && a.source != label {
            ingress_of(arrows, label).push(arrows.len() as usize)
        } else {
            ingress_of(arrows, label)
        },
        egress_of(arrows.push(a), label) == if a.source == label && a.target != label {
            egress_of(arrows, label).push(arrows.len() as usize)
        } else {
            egress_of(arrows, label)
        },
        regress_of(arrows.push(a), label) == if a.source == label && a.target == label {
            regress_of(arrows, label).push(arrows.len() as usize)
        } else {
            regress_of(arrows, label)
        },
{
    assert(arrows.push(a).drop_last() =~= arrows);
    assert(arrows.push(a).last() == a);
}

impl Ontology {
    /// Idempotent insertion: a vertex is created for the label unless one
    /// already exists, in which case nothing changes.
    pub fn add_vertex(&mut self, vertex_label: String)
        requires
            old(self).wf(),
        ensures
            final(self).wf(),
            old(self)@.labels.contains(vertex_label@) ==> final(self)@ == old(self)@,
            !old(self)@.labels.contains(vertex_label@) ==> final(self)@ == graph_of(
                old(self)@.labels.push(vertex_label@),
                old(self)@.arrows,
            ),
    {
        match self.find(&vertex_label) {
            Some(_) => {
                proof {
                    assert(old(self)@.labels.contains(vertex_label@));
                }
            },
            None => {
                let idx = self.labels.len();
                proof {
                    assert forall|k: int|
                        0 <= k < imap_entries(self.index).len() implies (#[trigger] imap_entries(
                        self.index,
                    )[k]).0 != vertex_label@ by {
                        assert(imap_entries(self.index)[k].0 == self@.labels[k]);
                        assert(self@.labels[k] != vertex_label@);
                    }
                }
                imap_insert(&mut self.index, vertex_label.clone(), idx);
                self.labels.push(vertex_label);
                self.vertices.push(Vertex::new());
                proof {
                    let old_v = old(self)@;
                    let new_v = graph_of(old_v.labels.push(vertex_label@), old_v.arrows);
                    assert(self@.labels =~= old_v.labels.push(vertex_label@));
                    assert forall|k: int|
                        0 <= k < old_v.arrows.len() implies (#[trigger] old_v.arrows[k]).source
                        != vertex_label@ && old_v.arrows[k].target != vertex_label@ by {
                        if old_v.arrows[k].source == vertex_label@ {
                            assert(old_v.labels.contains(vertex_label@));
                        }
                        if old_v.arrows[k].target == vertex_label@ {
                            assert(old_v.labels.contains(vertex_label@));
                        }
                    }
                    lemma_unreferenced_label_empty(old_v.arrows, vertex_label@);
                    assert forall|i: int| 0 <= i < self@.vertices.len() implies self@.vertices[i]
                        == new_v.vertices[i] by {
                        if i < old_v.labels.len() {
                            assert(self@.vertices[i] == old_v.vertices[i]);
                            assert(new_v.vertices[i] == vertex_of(old_v.arrows, old_v.labels[i]));
                        } else {
                            assert(self@.vertices[i] == empty_vertex());
                        }
                    }
                    assert(self@.vertices =~= new_v.vertices);
                    assert(self@.arrows =~= old_v.arrows);
                    assert(self@ =~= new_v);
                    assert forall|k: int|
                        0 <= k < self@.arrows.len() implies self@.labels.contains(
                        (#[trigger] self@.arrows[k]).source,
                    ) && self@.labels.contains(self@.arrows[k].target) by {
                        lemma_push_preserves_contains(
                            old_v.labels,
                            old_v.arrows[k].source,
                            vertex_label@,
                        );
                        lemma_push_preserves_contains(
                            old_v.labels,
                            old_v.arrows[k].target,
                            vertex_label@,
                        );
                    }
                    assert(imap_entries(self.index) =~= Seq::new(
                        self.labels@.len(),
                        |i: int| (self.labels@[i]@, i as usize),
                    ));
                }
            },
        }
    }

    /// Appends one arrow to the log and records its position per the
    /// self-loop rule, or fails without mutation when either label has no
    /// vertex.
    pub fn add_arrow(&mut self, arrow_data: Atom, source_label: &String, target_label: &String)
        -> (r: Result<(), OntologyError>)
        requires
            old(self).wf(),
        ensures
            final(self).wf(),
            r is Ok <==> old(self)@.labels.contains(source_label@) && old(self)@.labels.contains(
                target_label@,
            ),
            r is Ok ==> final(self)@ == graph_of(
                old(self)@.labels,
                old(self)@.arrows.push(
                    ArrowView { data: arrow_data@, source: source_label@, target: target_label@ },
                ),
            ),
            r is Err ==> final(self)@ == old(self)@ && r == Err::<(), OntologyError>(
                OntologyError::UnknownVertexReference,
            ),
    {
        let si_opt = self.find(source_label);
        let ti_opt = self.find(target_label);
        let (si, ti) = match (si_opt, ti_opt) {
            (Some(si), Some(ti)) => (si, ti),
            _ => {
                return Err(OntologyError::UnknownVertexReference);
            },
        };
        proof {
            assert(old(self)@.labels.contains(source_label@));
            assert(old(self)@.labels.contains(target_label@));
        }
        let ghost aw = ArrowView { data: arrow_data@, source: source_label@, target: target_label@ };
        let ghost old_v = old(self)@;
        let arrow_index = self.arrows.len();
        self.arrows.push(Arrow::new(arrow_data, source_label.clone(), target_label.clone()));
        if si == ti {
            self.vertices[si].regress_indices.push(arrow_index);
        } else {
            self.vertices[si].egress_indices.push(arrow_index);
            self.vertices[ti].ingress_indices.push(arrow_index);
        }
        proof {
            let new_arrows = old_v.arrows.push(aw);
            let new_v = graph_of(old_v.labels, new_arrows);
            assert(self@.arrows =~= new_arrows);
            assert(self@.labels =~= old_v.labels);
            assert forall|i: int| 0 <= i < self@.vertices.len() implies self@.vertices[i]
                == new_v.vertices[i] by {
                lemma_adjacency_push(old_v.arrows, aw, old_v.labels[i]);
                if i == si && i == ti {
                    assert(self@.vertices[i] == (VertexView {
                        ingress: old_v.vertices[i].ingress,
                        egress: old_v.vertices[i].egress,
                        regress: old_v.vertices[i].regress.push(arrow_index),
                    }));
                } else if i == si {
                    assert(old_v.labels[i] != target_label@);
                    assert(self@.vertices[i] == (VertexView {
                        ingress: old_v.vertices[i].ingress,
                        egress: old_v.vertices[i].egress.push(arrow_index),
                        regress: old_v.vertices[i].regress,
                    }));
                } else if i == ti {
                    assert(old_v.labels[i] != source_label@);
                    assert(self@.vertices[i] == (VertexView {
                        ingress: old_v.vertices[i].ingress.push(arrow_index),
                        egress: old_v.vertices[i].egress,
                        regress: old_v.vertices[i].regress,
                    }));
                } else {
                    assert(old_v.labels[i] != source_label@);
                    assert(old_v.labels[i] != target_label@);
                    assert(self@.vertices[i] == old_v.vertices[i]);
                }
            }
            assert(self@.vertices =~= new_v.vertices);
            assert(self@ =~= new_v);
            assert forall|k: int|
                0 <= k < self@.arrows.len() implies self@.labels.contains(
                (#[trigger] self@.arrows[k]).source,
            ) && self@.labels.contains(self@.arrows[k].target) by {
                if k < old_v.arrows.len() {
                    assert(self@.arrows[k] == old_v.arrows[k]);
                } else {
                    assert(self@.arrows[k] == aw);
                }
            }
            assert(imap_entries(self.index) =~= Seq::new(
                self.labels@.len(),
                |i: int| (self.labels@[i]@, i as usize),
            ));
        }
        Ok(())
    }
}

fn copy_indices(v: &Vec<usize>) -> (r: Vec<usize>)
    ensures
        r@ == v@,
{
    let mut r: Vec<usize> = Vec::new();
    let mut i: usize = 0;
    while i < v.len()
        invariant
            i <= v@.len(),
            r@ == v@.take(i as int),
        decreases v@.len() - i,
    {
        r.push(v[i]);
        i = i + 1;
        proof {
            assert(r@ =~= v@.take(i as int));
        }
    }
    proof {
        assert(r@ =~= v@);
    }
    r
}

fn append_indices(dst: &mut Vec<usize>, src: &Vec<usize>)
    ensures
        final(dst)@ == old(dst)@ + src@,
{
    let mut i: usize = 0;
    while i < src.len()
        invariant
            i <= src@.len(),
            dst@ == old(dst)@ + src@.take(i as int),
        decreases src@.len() - i,
    {
        dst.push(src[i]);
        i = i + 1;
        proof {
            assert(dst@ =~= old(dst)@ + src@.take(i as int));
        }
    }
    proof {
        assert(dst@ =~= old(dst)@ + src@);
    }
}

impl Vertex {
    /// Positions of the arrows targeting this vertex from a different
    /// vertex, in arrow-log order.
    pub fn ingress_indices(&self) -> (r: Vec<usize>)
        ensures
            r@ == self@.ingress,
    {
        copy_indices(&self.ingress_indices)
    }

    /// Positions of the arrows sourced here that target a different vertex.
    pub fn egress_indices(&self) -> (r: Vec<usize>)
        ensures
            r@ == self@.egress,
    {
        copy_indices(&self.egress_indices)
    }

    /// Positions of this vertex's self-loop arrows.
    pub fn regress_indices(&self) -> (r: Vec<usize>)
        ensures
            r@ == self@.regress,
    {
        copy_indices(&self.regress_indices)
    }

    /// Egress positions followed by self-loop positions.
    pub fn weak_egress_indices(&self) -> (r: Vec<usize>)
        ensures
            r@ == self@.egress + self@.regress,
    {
        let mut r = copy_indices(&self.egress_indices);
        append_indices(&mut r, &self.regress_indices);
        r
    }

    /// Ingress positions followed by self-loop positions.
    pub fn weak_ingress_indices(&self) -> (r: Vec<usize>)
        ensures
            r@ == self@.ingress + self@.regress,
    {
        let mut r = copy_indices(&self.ingress_indices);
        append_indices(&mut r, &self.regress_indices);
        r
    }

    /// Ingress positions followed by egress positions; self-loops excluded.
    pub fn transgress_indices(&self) -> (r: Vec<usize>)
        ensures
            r@ == self@.ingress + self@.egress,
    {
        let mut r = copy_indices(&self.ingress_indices);
        append_indices(&mut r, &self.egress_indices);
        r
    }

    /// All adjacent arrow positions: ingress, then egress, then self-loops.
    pub fn arrow_indices(&self) -> (r: Vec<usize>)
        ensures
            r@ == self@.ingress + self@.egress + self@.regress,
    {
        let mut r = copy_indices(&self.ingress_indices);
        append_indices(&mut r, &self.egress_indices);
        append_indices(&mut r, &self.regress_indices);
        r
    }
}

impl Clone for Vertex {
    /// A cloned vertex has the same model as the original.
    fn clone(&self) -> (r: Self)
        ensures
            r@ == self@,
    {
        Vertex {
            ingress_indices: copy_indices(&self.ingress_indices),
            egress_indices: copy_indices(&self.egress_indices),
            regress_indices: copy_indices(&self.regress_indices),
        }
    }
}

/// The arrow values stored at the given positions of the log, in position
/// order.
pub open spec fn resolve(arrows: Seq<ArrowView>, indices: Seq<usize>) -> Seq<ArrowView> {
    indices.map_values(|j: usize| arrows[j as int])
}

/// Every recorded adjacency position refers into the arrow log.
proof fn lemma_adjacency_bounds(arrows: Seq<ArrowView>, label: Seq<char>)
    requires
        arrows.len() <= usize::MAX,
    ensures
        forall|j: int|
            0 <= j < ingress_of(arrows, label).len() ==> (#[trigger] ingress_of(arrows, label)[j]
                as int) < arrows.len(),
        forall|j: int|
            0 <= j < egress_of(arrows, label).len() ==> (#[trigger] egress_of(arrows, label)[j]
                as int) < arrows.len(),
        forall|j: int|
            0 <= j < regress_of(arrows, label).len() ==> (#[trigger] regress_of(arrows, label)[j]
                as int) < arrows.len(),
    decreases arrows.len(),
{
    if arrows.len() > 0 {
        let prefix = arrows.drop_last();
        lemma_adjacency_bounds(prefix, label);
        let pi = ingress_of(prefix, label);
        let pe = egress_of(prefix, label);
        let pr = regress_of(prefix, label);
        assert forall|j: int|
            0 <= j < ingress_of(arrows, label).len() implies (#[trigger] ingress_of(
            arrows,
            label,
        )[j] as int) < arrows.len() by {
            if j < pi.len() {
                assert(ingress_of(arrows, label)[j] == pi[j]);
            } else {
                assert(ingress_of(arrows, label)[j] == (arrows.len() - 1) as usize);
            }
        }
        assert forall|j: int|
            0 <= j < egress_of(arrows, label).len() implies (#[trigger] egress_of(
            arrows,
            label,
        )[j] as int) < arrows.len() by {
            if j < pe.len() {
                assert(egress_of(arrows, label)[j] == pe[j]);
            } else {
                assert(egress_of(arrows, label)[j] == (arrows.len() - 1) as usize);
            }
        }
        assert forall|j: int|
            0 <= j < regress_of(arrows, label).len() implies (#[trigger] regress_of(
            arrows,
            label,
        )[j] as int) < arrows.len() by {
            if j < pr.len() {
                assert(regress_of(arrows, label)[j] == pr[j]);
            } else {
                assert(regress_of(arrows, label)[j] == (arrows.len() - 1) as usize);
            }
        }
    }
}

proof fn lemma_bounds_concat(a: Seq<usize>, b: Seq<usize>, n: int)
    requires
        forall|j: int| 0 <= j < a.len() ==> (#[trigger] a[j] as int) < n,
        forall|j: int| 0 <= j < b.len() ==> (#[trigger] b[j] as int) < n,
    ensures
        forall|j: int| 0 <= j < (a + b).len() ==> (#[trigger] (a + b)[j] as int) < n,
{
    assert forall|j: int| 0 <= j < (a + b).len() implies ((a + b)[j] as int) < n by {
        if j < a.len() {
            assert((a + b)[j] == a[j]);
        } else {
            assert((a + b)[j] == b[j - a.len()]);
        }
    }
}

impl Ontology {
    fn resolve_indices(&self, indices: &Vec<usize>) -> (out: Vec<Arrow>)
        requires
            forall|j: int|
                0 <= j < indices@.len() ==> (#[trigger] indices@[j] as int) < self@.arrows.len(),
        ensures
            out@.map_values(|a: Arrow| a@) == resolve(self@.arrows, indices@),
    {
        let mut out: Vec<Arrow> = Vec::new();
        let mut i: usize = 0;
        while i < indices.len()
            invariant
                i <= indices@.len(),
                out@.len() == i,
                forall|j: int|
                    0 <= j < indices@.len() ==> (#[trigger] indices@[j] as int)
                        < self@.arrows.len(),
                forall|j: int| 0 <= j < i ==> (#[trigger] out@[j])@ == self@.arrows[indices@[j] as int],
            decreases indices@.len() - i,
        {
            let idx = indices[i];
            out.push(self.arrows[idx].clone());
            i = i + 1;
        }
        proof {
            assert(out@.map_values(|a: Arrow| a@) =~= resolve(self@.arrows, indices@));
        }
        out
    }

    /// The vertex recorded for this label, or a vertex with no adjacent
    /// arrows when the label is absent.
    pub fn vertex(&self, label: String) -> (r: Vertex)
        requires
            self.wf(),
        ensures
            self@.labels.contains(label@) ==> r@ == vertex_of(self@.arrows, label@),
            !self@.labels.contains(label@) ==> r@ == empty_vertex(),
    {
        match self.find(&label) {
            Some(i) => {
                proof {
                    assert(self@.labels.contains(label@));
                    assert(self@.vertices[i as int] == self.vertices@[i as int]@);
                    assert(self@.vertices[i as int] == vertex_of(self@.arrows, label@));
                }
                self.vertices[i].clone()
            },
            None => Vertex::new(),
        }
    }

    /// The relation value of the arrow at this position of the log, if the
    /// position is in range.
    pub fn arrow_data(&self, arrow_index: usize) -> (r: Option<&Atom>)
        ensures
            match r {
                Some(a) => (arrow_index as int) < self@.arrows.len() && a@
                    == self@.arrows[arrow_index as int].data,
                None => (arrow_index as int) >= self@.arrows.len(),
            },
    {
        if arrow_index < self.arrows.len() {
            Some(self.arrows[arrow_index].data())
        } else {
            None
        }
    }

    /// All vertex labels, in insertion order.
    pub fn vertex_labels(&self) -> (r: Vec<String>)
        ensures
            r@.map_values(|s: String| s@) == self@.labels,
    {
        let mut r: Vec<String> = Vec::new();
        let mut i: usize = 0;
        while i < self.labels.len()
            invariant
                i <= self.labels@.len(),
                r@.len() == i,
                forall|j: int| 0 <= j < i ==> (#[trigger] r@[j])@ == self.labels@[j]@,
            decreases self.labels@.len() - i,
        {
            r.push(self.labels[i].clone());
            i = i + 1;
        }
        proof {
            assert(r@.map_values(|s: String| s@) =~= self@.labels);
        }
        r
    }

    /// How many arrows the log holds.
    pub fn arrow_count(&self) -> (n: usize)
        ensures
            n == self@.arrows.len(),
    {
        self.arrows.len()
    }

    /// One label chosen uniformly at random among the existing vertices;
    /// fails on a graph with no vertices.
    pub fn choose_vertex_name(&self) -> (r: Result<String, OntologyError>)
        ensures
            self@.labels.len() == 0 ==> r == Err::<String, OntologyError>(
                OntologyError::EmptyGraph,
            ),
            self@.labels.len() > 0 ==> (r matches Ok(l) && self@.labels.contains(l@)),
    {
        if self.labels.len() == 0 {
            Err(OntologyError::EmptyGraph)
        } else {
            let i = random_below(self.labels.len());
            let l = self.labels[i].clone();
            proof {
                assert(self@.labels[i as int] == l@);
            }
            Ok(l)
        }
    }

    /// The arrows targeting this vertex from a different vertex, in
    /// insertion order; fails when the label has no vertex.
    pub fn ingresses(&self, vertex_label: &String) -> (r: Result<Vec<Arrow>, OntologyError>)
        requires
            self.wf(),
        ensures
            match r {
                Ok(out) => self@.labels.contains(vertex_label@) && out@.map_values(|a: Arrow| a@)
                    == resolve(self@.arrows, ingress_of(self@.arrows, vertex_label@)),
                Err(e) => !self@.labels.contains(vertex_label@) && e
                    == OntologyError::UnknownVertexLabel,
            },
    {
        let n = self.arrows.len();
        match self.find(vertex_label) {
            None => Err(OntologyError::UnknownVertexLabel),
            Some(i) => {
                proof {
                    assert(self@.labels.contains(vertex_label@));
                    assert(self@.vertices[i as int] == self.vertices@[i as int]@);
                    assert(self@.vertices[i as int] == vertex_of(self@.arrows, vertex_label@));
                    lemma_adjacency_bounds(self@.arrows, vertex_label@);
                }
                let idxs = self.vertices[i].ingress_indices();
                Ok(self.resolve_indices(&idxs))
            },
        }
    }

    /// The arrows sourced here that target a different vertex, in insertion
    /// order; fails when the label has no vertex.
    pub fn egresses(&self, vertex_label: &String) -> (r: Result<Vec<Arrow>, OntologyError>)
        requires
            self.wf(),
        ensures
            match r {
                Ok(out) => self@.labels.contains(vertex_label@) && out@.map_values(|a: Arrow| a@)
                    == resolve(self@.arrows, egress_of(self@.arrows, vertex_label@)),
                Err(e) => !self@.labels.contains(vertex_label@) && e
                    == OntologyError::UnknownVertexLabel,
            },
    {
        let n = self.arrows.len();
        match self.find(vertex_label) {
            None => Err(OntologyError::UnknownVertexLabel),
            Some(i) => {
                proof {
                    assert(self@.labels.contains(vertex_label@));
                    assert(self@.vertices[i as int] == self.vertices@[i as int]@);
                    assert(self@.vertices[i as int] == vertex_of(self@.arrows, vertex_label@));
                    lemma_adjacency_bounds(self@.arrows, vertex_label@);
                }
                let idxs = self.vertices[i].egress_indices();
                Ok(self.resolve_indices(&idxs))
            },
        }
    }

    /// This vertex's self-loop arrows, in insertion order; fails when the
    /// label has no vertex.
    pub fn regresses(&self, vertex_label: &String) -> (r: Result<Vec<Arrow>, OntologyError>)
        requires
            self.wf(),
        ensures
            match r {
                Ok(out) => self@.labels.contains(vertex_label@) && out@.map_values(|a: Arrow| a@)
                    == resolve(self@.arrows, regress_of(self@.arrows, vertex_label@)),
                Err(e) => !self@.labels.contains(vertex_label@) && e
                    == OntologyError::UnknownVertexLabel,
            },
    {
        let n = self.arrows.len();
        match self.find(vertex_label) {
            None => Err(OntologyError::UnknownVertexLabel),
            Some(i) => {
                proof {
                    assert(self@.labels.contains(vertex_label@));
                    assert(self@.vertices[i as int] == self.vertices@[i as int]@);
                    assert(self@.vertices[i as int] == vertex_of(self@.arrows, vertex_label@));
                    lemma_adjacency_bounds(self@.arrows, vertex_label@);
                }
                let idxs = self.vertices[i].regress_indices();
                Ok(self.resolve_indices(&idxs))
            },
        }
    }

    /// Ingress arrows followed by self-loop arrows; fails when the label has
    /// no vertex.
    pub fn weak_ingresses(&self, vertex_label: &String) -> (r: Result<Vec<Arrow>, OntologyError>)
        requires
            self.wf(),
        ensures
            match r {
                Ok(out) => self@.labels.contains(vertex_label@) && out@.map_values(|a: Arrow| a@)
                    == resolve(
                    self@.arrows,
                    ingress_of(self@.arrows, vertex_label@) + regress_of(
                        self@.arrows,
                        vertex_label@,
                    ),
                ),
                Err(e) => !self@.labels.contains(vertex_label@) && e
                    == OntologyError::UnknownVertexLabel,
            },
    {
        let n = self.arrows.len();
        match self.find(vertex_label) {
            None => Err(OntologyError::UnknownVertexLabel),
            Some(i) => {
                proof {
                    assert(self@.labels.contains(vertex_label@));
                    assert(self@.vertices[i as int] == self.vertices@[i as int]@);
                    assert(self@.vertices[i as int] == vertex_of(self@.arrows, vertex_label@));
                    lemma_adjacency_bounds(self@.arrows, vertex_label@);
                    lemma_bounds_concat(
                        ingress_of(self@.arrows, vertex_label@),
                        regress_of(self@.arrows, vertex_label@),
                        self@.arrows.len() as int,
                    );
                }
                let idxs = self.vertices[i].weak_ingress_indices();
                Ok(self.resolve_indices(&idxs))
            },
        }
    }

    /// Egress arrows followed by self-loop arrows; fails when the label has
    /// no vertex.
    pub fn weak_egresses(&self, vertex_label: &String) -> (r: Result<Vec<Arrow>, OntologyError>)
        requires
            self.wf(),
        ensures
            match r {
                Ok(out) => self@.labels.contains(vertex_label@) && out@.map_values(|a: Arrow| a@)
                    == resolve(
                    self@.arrows,
                    egress_of(self@.arrows, vertex_label@) + regress_of(
                        self@.arrows,
                        vertex_label@,
                    ),
                ),
                Err(e) => !self@.labels.contains(vertex_label@) && e
                    == OntologyError::UnknownVertexLabel,
            },
    {
        let n = self.arrows.len();
        match self.find(vertex_label) {
            None => Err(OntologyError::UnknownVertexLabel),
            Some(i) => {
                proof {
                    assert(self@.labels.contains(vertex_label@));
                    assert(self@.vertices[i as int] == self.vertices@[i as int]@);
                    assert(self@.vertices[i as int] == vertex_of(self@.arrows, vertex_label@));
                    lemma_adjacency_bounds(self@.arrows, vertex_label@);
                    lemma_bounds_concat(
                        egress_of(self@.arrows, vertex_label@),
                        regress_of(self@.arrows, vertex_label@),
                        self@.arrows.len() as int,
                    );
                }
                let idxs = self.vertices[i].weak_egress_indices();
                Ok(self.resolve_indices(&idxs))
            },
        }
    }

    /// Ingress arrows followed by egress arrows, self-loops excluded; fails
    /// when the label has no vertex.
    pub fn transgresses(&self, vertex_label: &String) -> (r: Result<Vec<Arrow>, OntologyError>)
        requires
            self.wf(),
        ensures
            match r {
                Ok(out) => self@.labels.contains(vertex_label@) && out@.map_values(|a: Arrow| a@)
                    == resolve(
                    self@.arrows,
                    ingress_of(self@.arrows, vertex_label@) + egress_of(
                        self@.arrows,
                        vertex_label@,
                    ),
                ),
                Err(e) => !self@.labels.contains(vertex_label@) && e
                    == OntologyError::UnknownVertexLabel,
            },
    {
        let n = self.arrows.len();
        match self.find(vertex_label) {
            None => Err(OntologyError::UnknownVertexLabel),
            Some(i) => {
                proof {
                    assert(self@.labels.contains(vertex_label@));
                    assert(self@.vertices[i as int] == self.vertices@[i as int]@);
                    assert(self@.vertices[i as int] == vertex_of(self@.arrows, vertex_label@));
                    lemma_adjacency_bounds(self@.arrows, vertex_label@);
                    lemma_bounds_concat(
                        ingress_of(self@.arrows, vertex_label@),
                        egress_of(self@.arrows, vertex_label@),
                        self@.arrows.len() as int,
                    );
                }
                let idxs = self.vertices[i].transgress_indices();
                Ok(self.resolve_indices(&idxs))
            },
        }
    }

    /// All arrows adjacent to this vertex: ingress, then egress, then
    /// self-loops; fails when the label has no vertex.
    pub fn arrows(&self, vertex_label: &String) -> (r: Result<Vec<Arrow>, OntologyError>)
        requires
            self.wf(),
        ensures
            match r {
                Ok(out) => self@.labels.contains(vertex_label@) && out@.map_values(|a: Arrow| a@)
                    == resolve(
                    self@.arrows,
                    ingress_of(self@.arrows, vertex_label@) + egress_of(
                        self@.arrows,
                        vertex_label@,
                    ) + regress_of(self@.arrows, vertex_label@),
                ),
                Err(e) => !self@.labels.contains(vertex_label@) && e
                    == OntologyError::UnknownVertexLabel,
            },
    {
        let n = self.arrows.len();
        match self.find(vertex_label) {
            None => Err(OntologyError::UnknownVertexLabel),
            Some(i) => {
                proof {
                    assert(self@.labels.contains(vertex_label@));
                    assert(self@.vertices[i as int] == self.vertices@[i as int]@);
                    assert(self@.vertices[i as int] == vertex_of(self@.arrows, vertex_label@));
                    lemma_adjacency_bounds(self@.arrows, vertex_label@);
                    lemma_bounds_concat(
                        ingress_of(self@.arrows, vertex_label@),
                        egress_of(self@.arrows, vertex_label@),
                        self@.arrows.len() as int,
                    );
                    lemma_bounds_concat(
                        ingress_of(self@.arrows, vertex_label@) + egress_of(
                            self@.arrows,
                            vertex_label@,
                        ),
                        regress_of(self@.arrows, vertex_label@),
                        self@.arrows.len() as int,
                    );
                }
                let idxs = self.vertices[i].arrow_indices();
                Ok(self.resolve_indices(&idxs))
            },
        }
    }
}

/// The target labels of the subsumption arrows among `arrows`, in order.
pub open spec fn subsumption_targets(arrows: Seq<ArrowView>) -> Seq<Seq<char>>
    decreases arrows.len(),
{
    if arrows.len() == 0 {
        Seq::empty()
    } else {
        let prefix = subsumption_targets(arrows.drop_last());
        if spec_is_subsumption(arrows.last().data) {
            prefix.push(arrows.last().target)
        } else {
            prefix
        }
    }
}

/// The source labels of the subsumption arrows among `arrows`, in order.
pub open spec fn subsumption_sources(arrows: Seq<ArrowView>) -> Seq<Seq<char>>
    decreases arrows.len(),
{
    if arrows.len() == 0 {
        Seq::empty()
    } else {
        let prefix = subsumption_sources(arrows.drop_last());
        if spec_is_subsumption(arrows.last().data) {
            prefix.push(arrows.last().source)
        } else {
            prefix
        }
    }
}

/// What `hypernyms` returns for a label: the targets of its subsumption
/// egress arrows, in arrow insertion order, duplicates kept.
pub open spec fn hypernyms_of(v: OntologyView, label: Seq<char>) -> Seq<Seq<char>> {
    subsumption_targets(resolve(v.arrows, egress_of(v.arrows, label)))
}

/// What `hyponyms` returns for a label: the sources of its subsumption
/// ingress arrows, in arrow insertion order, duplicates kept.
pub open spec fn hyponyms_of(v: OntologyView, label: Seq<char>) -> Seq<Seq<char>> {
    subsumption_sources(resolve(v.arrows, ingress_of(v.arrows, label)))
}

fn subsumption_targets_exec(arrows: &Vec<Arrow>) -> (out: Vec<String>)
    ensures
        out@.map_values(|s: String| s@) == subsumption_targets(
            arrows@.map_values(|a: Arrow| a@),
        ),
{
    let ghost full = arrows@.map_values(|a: Arrow| a@);
    let mut out: Vec<String> = Vec::new();
    let mut i: usize = 0;
    while i < arrows.len()
        invariant
            i <= arrows@.len(),
            full == arrows@.map_values(|a: Arrow| a@),
            out@.map_values(|s: String| s@) == subsumption_targets(full.take(i as int)),
        decreases arrows@.len() - i,
    {
        if arrows[i].data.is_subsumption() {
            out.push(arrows[i].target_index.clone());
        }
        i = i + 1;
        proof {
            assert(full.take(i as int).drop_last() =~= full.take(i as int - 1));
            assert(full.take(i as int).last() == full[i as int - 1]);
            assert(out@.map_values(|s: String| s@) =~= subsumption_targets(full.take(i as int)));
        }
    }
    proof {
        assert(full.take(arrows@.len() as int) =~= full);
    }
    out
}

fn subsumption_sources_exec(arrows: &Vec<Arrow>) -> (out: Vec<String>)
    ensures
        out@.map_values(|s: String| s@) == subsumption_sources(
            arrows@.map_values(|a: Arrow| a@),
        ),
{
    let ghost full = arrows@.map_values(|a: Arrow| a@);
    let mut out: Vec<String> = Vec::new();
    let mut i: usize = 0;
    while i < arrows.len()
        invariant
            i <= arrows@.len(),
            full == arrows@.map_values(|a: Arrow| a@),
            out@.map_values(|s: String| s@) == subsumption_sources(full.take(i as int)),
        decreases arrows@.len() - i,
    {
        if arrows[i].data.is_subsumption() {
            out.push(arrows[i].source_index.clone());
        }
        i = i + 1;
        proof {
            assert(full.take(i as int).drop_last() =~= full.take(i as int - 1));
            assert(full.take(i as int).last() == full[i as int - 1]);
            assert(out@.map_values(|s: String| s@) =~= subsumption_sources(full.take(i as int)));
        }
    }
    proof {
        assert(full.take(arrows@.len() as int) =~= full);
    }
    out
}

impl Ontology {
    /// The target labels of this vertex's subsumption egress arrows, in
    /// insertion order, duplicates kept; fails when the label has no vertex.
    pub fn hypernyms(&self, vertex_label: &String) -> (r: Result<Vec<String>, OntologyError>)
        requires
            self.wf(),
        ensures
            match r {
                Ok(out) => self@.labels.contains(vertex_label@) && out@.map_values(
                    |s: String| s@,
                ) == hypernyms_of(self@, vertex_label@),
                Err(e) => !self@.labels.contains(vertex_label@) && e
                    == OntologyError::UnknownVertexLabel,
            },
    {
        match self.egresses(vertex_label) {
            Ok(es) => Ok(subsumption_targets_exec(&es)),
            Err(e) => Err(e),
        }
    }

    /// The source labels of this vertex's subsumption ingress arrows, in
    /// insertion order, duplicates kept; fails when the label has no vertex.
    pub fn hyponyms(&self, vertex_label: &String) -> (r: Result<Vec<String>, OntologyError>)
        requires
            self.wf(),
        ensures
            match r {
                Ok(out) => self@.labels.contains(vertex_label@) && out@.map_values(
                    |s: String| s@,
                ) == hyponyms_of(self@, vertex_label@),
                Err(e) => !self@.labels.contains(vertex_label@) && e
                    == OntologyError::UnknownVertexLabel,
            },
    {
        match self.ingresses(vertex_label) {
            Ok(es) => Ok(subsumption_sources_exec(&es)),
            Err(e) => Err(e),
        }
    }
}

/// A view that satisfies the invariant is exactly the graph its labels and
/// arrow log determine.
pub proof fn lemma_inv_graph(v: OntologyView)
    requires
        inv(v),
    ensures
        v == graph_of(v.labels, v.arrows),
{
    assert(v.vertices =~= graph_of(v.labels, v.arrows).vertices);
    assert(v =~= graph_of(v.labels, v.arrows));
}

/// A well-formed graph satisfies the invariant and is exactly the graph its
/// labels and arrow log determine.
pub proof fn lemma_wf_graph(g: &Ontology)
    requires
        g.wf(),
    ensures
        inv(g@),
        g@ == graph_of(g@.labels, g@.arrows),
{
    lemma_inv_graph(g@);
}

impl Ontology {
    /// Whether a vertex exists for this label.
    pub fn has_vertex(&self, label: &String) -> (r: bool)
        requires
            self.wf(),
        ensures
            r == self@.labels.contains(label@),
    {
        match self.find(label) {
            Some(i) => {
                proof {
                    assert(self@.labels.contains(label@));
                }
                true
            },
            None => false,
        }
    }

    pub(crate) fn label_list(&self) -> (r: &Vec<String>)
        ensures
            r@.map_values(|s: String| s@) == self@.labels,
    {
        &self.labels
    }

    pub(crate) fn arrow_log(&self) -> (r: &Vec<Arrow>)
        ensures
            r@.map_values(|a: Arrow| a@) == self@.arrows,
    {
        &self.arrows
    }
}

/// Self-loop isolation: an arrow whose source equals its target is recorded
/// in that vertex's self-loop list alone; no ingress or egress list of any
/// vertex changes, and no self-loop list of any other vertex changes.
pub proof fn lemma_self_loop_isolation(arrows: Seq<ArrowView>, a: ArrowView, label: Seq<char>)
    requires
        a.source == a.target,
    ensures
        regress_of(arrows.push(a), a.source) == regress_of(arrows, a.source).push(
            arrows.len() as usize,
        ),
        ingress_of(arrows.push(a), label) == ingress_of(arrows, label),
        egress_of(arrows.push(a), label) == egress_of(arrows, label),
        label != a.source ==> regress_of(arrows.push(a), label) == regress_of(arrows, label),
{
    lemma_adjacency_push(arrows, a, label);
    lemma_adjacency_push(arrows, a, a.source);
}

proof fn lemma_seq_push_contains(s: Seq<usize>, x: usize, y: usize)
    requires
        s.contains(x),
    ensures
        s.push(y).contains(x),
{
    let i = choose|i: int| 0 <= i < s.len() && s[i] == x;
    assert(s.push(y)[i] == x);
}

proof fn lemma_egress_of_complete(arrows: Seq<ArrowView>, label: Seq<char>, k: int)
    requires
        arrows.len() <= usize::MAX,
        0 <= k < arrows.len(),
        arrows[k].source == label,
        arrows[k].target != label,
    ensures
        egress_of(arrows, label).contains(k as usize),
    decreases arrows.len(),
{
    if k == arrows.len() - 1 {
        let e = egress_of(arrows, label);
        assert(e.last() == k as usize);
        assert(e.contains(k as usize));
    } else {
        let prefix = arrows.drop_last();
        assert(prefix[k] == arrows[k]);
        lemma_egress_of_complete(prefix, label, k);
        if arrows.last().source == label && arrows.last().target != label {
            lemma_seq_push_contains(
                egress_of(prefix, label),
                k as usize,
                (arrows.len() - 1) as usize,
            );
        }
    }
}

proof fn lemma_ingress_of_complete(arrows: Seq<ArrowView>, label: Seq<char>, k: int)
    requires
        arrows.len() <= usize::MAX,
        0 <= k < arrows.len(),
        arrows[k].target == label,
        arrows[k].source != label,
    ensures
        ingress_of(arrows, label).contains(k as usize),
    decreases arrows.len(),
{
    if k == arrows.len() - 1 {
        let e = ingress_of(arrows, label);
        assert(e.last() == k as usize);
        assert(e.contains(k as usize));
    } else {
        let prefix = arrows.drop_last();
        assert(prefix[k] == arrows[k]);
        lemma_ingress_of_complete(prefix, label, k);
        if arrows.last().target == label && arrows.last().source != label {
            lemma_seq_push_contains(
                ingress_of(prefix, label),
                k as usize,
                (arrows.len() - 1) as usize,
            );
        }
    }
}

proof fn lemma_label_push_contains(s: Seq<Seq<char>>, x: Seq<char>, y: Seq<char>)
    requires
        s.contains(x),
    ensures
        s.push(y).contains(x),
{
    let i = choose|i: int| 0 <= i < s.len() && s[i] == x;
    assert(s.push(y)[i] == x);
}

proof fn lemma_subsumption_targets_contains(arrows: Seq<ArrowView>, j: int)
    requires
        0 <= j < arrows.len(),
        spec_is_subsumption(arrows[j].data),
    ensures
        subsumption_targets(arrows).contains(arrows[j].target),
    decreases arrows.len(),
{
    if j == arrows.len() - 1 {
        let t = subsumption_targets(arrows);
        assert(t.last() == arrows[j].target);
        assert(t.contains(arrows[j].target));
    } else {
        let prefix = arrows.drop_last();
        assert(prefix[j] == arrows[j]);
        lemma_subsumption_targets_contains(prefix, j);
        if spec_is_subsumption(arrows.last().data) {
            lemma_label_push_contains(
                subsumption_targets(prefix),
                arrows[j].target,
                arrows.last().target,
            );
        }
    }
}

proof fn lemma_subsumption_sources_contains(arrows: Seq<ArrowView>, j: int)
    requires
        0 <= j < arrows.len(),
        spec_is_subsumption(arrows[j].data),
    ensures
        subsumption_sources(arrows).contains(arrows[j].source),
    decreases arrows.len(),
{
    if j == arrows.len() - 1 {
        let t = subsumption_sources(arrows);
        assert(t.last() == arrows[j].source);
        assert(t.contains(arrows[j].source));
    } else {
        let prefix = arrows.drop_last();
        assert(prefix[j] == arrows[j]);
        lemma_subsumption_sources_contains(prefix, j);
        if spec_is_subsumption(arrows.last().data) {
            lemma_label_push_contains(
                subsumption_sources(prefix),
                arrows[j].source,
                arrows.last().source,
            );
        }
    }
}

/// Hypernym/hyponym complementarity: for every subsumption arrow between two
/// distinct vertices, the target's label appears among the source's
/// hypernyms and the source's label among the target's hyponyms.
pub proof fn lemma_hypernym_hyponym_complementarity(v: OntologyView, k: int)
    requires
        inv(v),
        v.arrows.len() <= usize::MAX,
        0 <= k < v.arrows.len(),
        spec_is_subsumption(v.arrows[k].data),
        v.arrows[k].source != v.arrows[k].target,
    ensures
        hypernyms_of(v, v.arrows[k].source).contains(v.arrows[k].target),
        hyponyms_of(v, v.arrows[k].target).contains(v.arrows[k].source),
{
    let s = v.arrows[k].source;
    let t = v.arrows[k].target;
    lemma_egress_of_complete(v.arrows, s, k);
    lemma_adjacency_bounds(v.arrows, s);
    let e = egress_of(v.arrows, s);
    let j = choose|j: int| 0 <= j < e.len() && e[j] == k as usize;
    let resolved = resolve(v.arrows, e);
    assert(resolved[j] == v.arrows[k]);
    lemma_subsumption_targets_contains(resolved, j);
    lemma_ingress_of_complete(v.arrows, t, k);
    lemma_adjacency_bounds(v.arrows, t);
    let e2 = ingress_of(v.arrows, t);
    let j2 = choose|j2: int| 0 <= j2 < e2.len() && e2[j2] == k as usize;
    let resolved2 = resolve(v.arrows, e2);
    assert(resolved2[j2] == v.arrows[k]);
    lemma_subsumption_sources_contains(resolved2, j2);
}

} // verus!
