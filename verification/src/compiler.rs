//! The declaration compiler: consumes structured declarations and drives the
//! graph mutation, generating one arrow per pair of the cross product of a
//! declaration's concepts with each clause's tags.

use vstd::prelude::*;

use crate::ontology::{graph_of, lemma_wf_graph, Ontology, OntologyError, OntologyView, ArrowView};
use crate::relation::{clone_constraints, Atom, AtomView, Constraint, ConstraintView};

verus! {

/// One clause of a declaration: the related tags, and the relation they are
/// reached by. A specialization clause may carry a constraint mapping, in
/// which case its relation is refined from plain subsumption.
pub enum Clause {
    Subsumption(Vec<String>),
    Composition(Vec<String>),
    Instantiation(Vec<String>),
    Specialization(Vec<String>, Option<Vec<Constraint>>),
}

/// Mathematical model of a `Clause`.
pub enum ClauseView {
    Subsumption(Seq<Seq<char>>),
    Composition(Seq<Seq<char>>),
    Instantiation(Seq<Seq<char>>),
    Specialization(Seq<Seq<char>>, Option<Seq<ConstraintView>>),
}

impl View for Clause {
    type V = ClauseView;

    open spec fn view(&self) -> ClauseView {
        match self {
            Clause::Subsumption(ts) => ClauseView::Subsumption(
                ts@.map_values(|s: String| s@),
            ),
            Clause::Composition(ts) => ClauseView::Composition(
                ts@.map_values(|s: String| s@),
            ),
            Clause::Instantiation(ts) => ClauseView::Instantiation(
                ts@.map_values(|s: String| s@),
            ),
            Clause::Specialization(ts, cs) => ClauseView::Specialization(
                ts@.map_values(|s: String| s@),
                match cs {
                    None => None,
                    Some(m) => Some(m@.map_values(|c: Constraint| c@)),
                },
            ),
        }
    }
}

/// One declaration: a nonempty ordered set of concept tags, and the clauses
/// relating them to other tags.
pub struct Declaration {
    pub concepts: Vec<String>,
    pub clauses: Vec<Clause>,
}

/// Mathematical model of a `Declaration`.
pub struct DeclarationView {
    pub concepts: Seq<Seq<char>>,
    pub clauses: Seq<ClauseView>,
}

impl View for Declaration {
    type V = DeclarationView;

    open spec fn view(&self) -> DeclarationView {
        DeclarationView {
            concepts: self.concepts@.map_values(|s: String| s@),
            clauses: self.clauses@.map_values(|c: Clause| c@),
        }
    }
}

/// The tags a clause refers to.
pub open spec fn clause_tags(c: ClauseView) -> Seq<Seq<char>> {
    match c {
        ClauseView::Subsumption(ts) => ts,
        ClauseView::Composition(ts) => ts,
        ClauseView::Instantiation(ts) => ts,
        ClauseView::Specialization(ts, _) => ts,
    }
}

/// The relation value every arrow of a clause carries.
pub open spec fn clause_atom(c: ClauseView) -> AtomView {
    match c {
        ClauseView::Subsumption(_) => AtomView::IsHyponymOf,
        ClauseView::Composition(_) => AtomView::IsMeronymOf,
        ClauseView::Instantiation(_) => AtomView::IsTokenOf,
        ClauseView::Specialization(_, None) => AtomView::IsHyponymOf,
        ClauseView::Specialization(_, Some(cs)) => AtomView::IsSpecializedSubsetOf(cs),
    }
}

/// A clause's shape contract: it must refer to at least one tag.
pub open spec fn clause_wf(c: ClauseView) -> bool {
    clause_tags(c).len() > 0
}

/// A declaration's shape contract: a nonempty concept set and well-shaped
/// clauses.
pub open spec fn decl_wf(d: DeclarationView) -> bool {
    &&& d.concepts.len() > 0
    &&& forall|j: int| 0 <= j < d.clauses.len() ==> clause_wf(#[trigger] d.clauses[j])
}

/// The arrows one concept contributes for a clause: one per tag, in tag
/// order.
pub open spec fn row_arrows(concept: Seq<char>, tags: Seq<Seq<char>>, data: AtomView) -> Seq<
    ArrowView,
> {
    tags.map_values(|t: Seq<char>| ArrowView { data, source: concept, target: t })
}

/// The cross-product arrows of a clause: concepts outer, tags inner.
pub open spec fn cross_arrows(
    concepts: Seq<Seq<char>>,
    tags: Seq<Seq<char>>,
    data: AtomView,
) -> Seq<ArrowView>
    decreases concepts.len(),
{
    if concepts.len() == 0 {
        Seq::empty()
    } else {
        cross_arrows(concepts.drop_last(), tags, data) + row_arrows(concepts.last(), tags, data)
    }
}

/// All arrows a declaration generates, clause by clause in declared order.
pub open spec fn decl_arrows(d: DeclarationView) -> Seq<ArrowView>
    decreases d.clauses.len(),
{
    if d.clauses.len() == 0 {
        Seq::empty()
    } else {
        decl_arrows(DeclarationView { concepts: d.concepts, clauses: d.clauses.drop_last() })
            + cross_arrows(
            d.concepts,
            clause_tags(d.clauses.last()),
            clause_atom(d.clauses.last()),
        )
    }
}

/// A label list after ensuring one label has a vertex.
pub open spec fn insert_label(labels: Seq<Seq<char>>, l: Seq<char>) -> Seq<Seq<char>> {
    if labels.contains(l) {
        labels
    } else {
        labels.push(l)
    }
}

/// A label list after ensuring each given label has a vertex, in order.
pub open spec fn insert_labels(labels: Seq<Seq<char>>, ls: Seq<Seq<char>>) -> Seq<Seq<char>>
    decreases ls.len(),
{
    if ls.len() == 0 {
        labels
    } else {
        insert_label(insert_labels(labels, ls.drop_last()), ls.last())
    }
}

/// The label list a declaration leaves behind: concepts first, then each
/// clause's tags, in declared order, each label only on first appearance.
pub open spec fn decl_labels(labels: Seq<Seq<char>>, d: DeclarationView) -> Seq<Seq<char>>
    decreases d.clauses.len(),
{
    if d.clauses.len() == 0 {
        insert_labels(labels, d.concepts)
    } else {
        insert_labels(
            decl_labels(
                labels,
                DeclarationView { concepts: d.concepts, clauses: d.clauses.drop_last() },
            ),
            clause_tags(d.clauses.last()),
        )
    }
}

impl Clause {
    /// The tags this clause refers to.
    pub fn tags(&self) -> (r: &Vec<String>)
        ensures
            r@.map_values(|s: String| s@) == clause_tags(self@),
    {
        match self {
            Clause::Subsumption(ts) => ts,
            Clause::Composition(ts) => ts,
            Clause::Instantiation(ts) => ts,
            Clause::Specialization(ts, _) => ts,
        }
    }

    /// The relation value every arrow of this clause carries.
    pub fn atom(&self) -> (r: Atom)
        ensures
            r@ == clause_atom(self@),
    {
        match self {
            Clause::Subsumption(_) => Atom::IsHyponymOf,
            Clause::Composition(_) => Atom::IsMeronymOf,
            Clause::Instantiation(_) => Atom::IsTokenOf,
            Clause::Specialization(_, None) => Atom::IsHyponymOf,
            Clause::Specialization(_, Some(cs)) => Atom::IsSpecializedSubsetOf(
                clone_constraints(cs),
            ),
        }
    }
}

proof fn lemma_push_contains(s: Seq<Seq<char>>, x: Seq<char>, y: Seq<char>)
    requires
        s.contains(x),
    ensures
        s.push(y).contains(x),
{
    let i = choose|i: int| 0 <= i < s.len() && s[i] == x;
    assert(s.push(y)[i] == x);
}

proof fn lemma_insert_label_preserves(labels: Seq<Seq<char>>, l: Seq<char>, x: Seq<char>)
    requires
        labels.contains(x),
    ensures
        insert_label(labels, l).contains(x),
{
    if !labels.contains(l) {
        lemma_push_contains(labels, x, l);
    }
}

proof fn lemma_insert_labels_preserves(labels: Seq<Seq<char>>, ls: Seq<Seq<char>>, x: Seq<char>)
    requires
        labels.contains(x),
    ensures
        insert_labels(labels, ls).contains(x),
    decreases ls.len(),
{
    if ls.len() > 0 {
        lemma_insert_labels_preserves(labels, ls.drop_last(), x);
        lemma_insert_label_preserves(insert_labels(labels, ls.drop_last()), ls.last(), x);
    }
}

proof fn lemma_insert_label_inserts(labels: Seq<Seq<char>>, l: Seq<char>)
    ensures
        insert_label(labels, l).contains(l),
{
    if !labels.contains(l) {
        assert(labels.push(l)[labels.len() as int] == l);
    }
}

proof fn lemma_insert_labels_contains(labels: Seq<Seq<char>>, ls: Seq<Seq<char>>, k: int)
    requires
        0 <= k < ls.len(),
    ensures
        insert_labels(labels, ls).contains(ls[k]),
    decreases ls.len(),
{
    if k == ls.len() - 1 {
        lemma_insert_label_inserts(insert_labels(labels, ls.drop_last()), ls.last());
    } else {
        assert(ls.drop_last()[k] == ls[k]);
        lemma_insert_labels_contains(labels, ls.drop_last(), k);
        lemma_insert_label_preserves(insert_labels(labels, ls.drop_last()), ls.last(), ls[k]);
    }
}

/// Ensures a vertex exists for every label in the list, in declared order.
fn ensure_vertices(g: &mut Ontology, ls: &Vec<String>)
    requires
        old(g).wf(),
    ensures
        final(g).wf(),
        final(g)@ == graph_of(
            insert_labels(old(g)@.labels, ls@.map_values(|s: String| s@)),
            old(g)@.arrows,
        ),
{
    let ghost lv = ls@.map_values(|s: String| s@);
    proof {
        lemma_wf_graph(old(g));
        assert(insert_labels(old(g)@.labels, lv.take(0)) == old(g)@.labels);
    }
    let mut i: usize = 0;
    while i < ls.len()
        invariant
            g.wf(),
            i <= ls@.len(),
            lv == ls@.map_values(|s: String| s@),
            g@ == graph_of(insert_labels(old(g)@.labels, lv.take(i as int)), old(g)@.arrows),
        decreases ls@.len() - i,
    {
        g.add_vertex(ls[i].clone());
        i = i + 1;
        proof {
            assert(lv.take(i as int).drop_last() =~= lv.take(i as int - 1));
            assert(lv.take(i as int).last() == lv[i as int - 1]);
        }
    }
    proof {
        assert(lv.take(ls@.len() as int) =~= lv);
    }
}

/// Generates the cross-product arrows of one clause: concepts outer, tags
/// inner, every named label already a vertex.
fn cross_connect(g: &mut Ontology, concepts: &Vec<String>, tags: &Vec<String>, atom: &Atom)
    requires
        old(g).wf(),
        forall|k: int|
            0 <= k < concepts@.len() ==> old(g)@.labels.contains((#[trigger] concepts@[k])@),
        forall|k: int| 0 <= k < tags@.len() ==> old(g)@.labels.contains((#[trigger] tags@[k])@),
    ensures
        final(g).wf(),
        final(g)@ == graph_of(
            old(g)@.labels,
            old(g)@.arrows + cross_arrows(
                concepts@.map_values(|s: String| s@),
                tags@.map_values(|s: String| s@),
                atom@,
            ),
        ),
{
    let ghost cv = concepts@.map_values(|s: String| s@);
    let ghost tv = tags@.map_values(|s: String| s@);
    proof {
        lemma_wf_graph(old(g));
        assert(old(g)@.arrows + cross_arrows(cv.take(0), tv, atom@) =~= old(g)@.arrows);
        assert(old(g)@ == graph_of(
            old(g)@.labels,
            old(g)@.arrows + cross_arrows(cv.take(0), tv, atom@),
        ));
    }
    let mut c: usize = 0;
    while c < concepts.len()
        invariant
            g.wf(),
            c <= concepts@.len(),
            cv == concepts@.map_values(|s: String| s@),
            tv == tags@.map_values(|s: String| s@),
            forall|k: int|
                0 <= k < concepts@.len() ==> old(g)@.labels.contains((#[trigger] concepts@[k])@),
            forall|k: int|
                0 <= k < tags@.len() ==> old(g)@.labels.contains((#[trigger] tags@[k])@),
            g@ == graph_of(
                old(g)@.labels,
                old(g)@.arrows + cross_arrows(cv.take(c as int), tv, atom@),
            ),
        decreases concepts@.len() - c,
    {
        let ghost arrows_at_c = g@.arrows;
        let mut t: usize = 0;
        while t < tags.len()
            invariant
                g.wf(),
                t <= tags@.len(),
                c < concepts@.len(),
                cv == concepts@.map_values(|s: String| s@),
                tv == tags@.map_values(|s: String| s@),
                forall|k: int|
                    0 <= k < concepts@.len() ==> old(g)@.labels.contains(
                        (#[trigger] concepts@[k])@,
                    ),
                forall|k: int|
                    0 <= k < tags@.len() ==> old(g)@.labels.contains((#[trigger] tags@[k])@),
                arrows_at_c == old(g)@.arrows + cross_arrows(cv.take(c as int), tv, atom@),
                g@ == graph_of(
                    old(g)@.labels,
                    arrows_at_c + row_arrows(cv[c as int], tv.take(t as int), atom@),
                ),
            decreases tags@.len() - t,
        {
            proof {
                assert(g@.labels.contains(concepts@[c as int]@));
                assert(g@.labels.contains(tags@[t as int]@));
            }
            let res = g.add_arrow(atom.clone(), &concepts[c], &tags[t]);
            if let Err(_) = res {
                // unreachable: both labels were just ensured to have vertices
                proof {
                    assert(false);
                }
                return ;
            }
            t = t + 1;
            proof {
                let aw = ArrowView { data: atom@, source: cv[c as int], target: tv[t as int - 1] };
                assert(row_arrows(cv[c as int], tv.take(t as int), atom@) =~= row_arrows(
                    cv[c as int],
                    tv.take(t as int - 1),
                    atom@,
                ).push(aw));
                assert((arrows_at_c + row_arrows(cv[c as int], tv.take(t as int - 1), atom@)).push(
                    aw,
                ) =~= arrows_at_c + row_arrows(cv[c as int], tv.take(t as int), atom@));
            }
        }
        c = c + 1;
        proof {
            assert(tv.take(tags@.len() as int) =~= tv);
            assert(cv.take(c as int).drop_last() =~= cv.take(c as int - 1));
            assert(cv.take(c as int).last() == cv[c as int - 1]);
            assert(cross_arrows(cv.take(c as int), tv, atom@) == cross_arrows(
                cv.take(c as int - 1),
                tv,
                atom@,
            ) + row_arrows(cv[c as int - 1], tv, atom@));
            assert(old(g)@.arrows + cross_arrows(cv.take(c as int), tv, atom@) =~= (old(g)@.arrows
                + cross_arrows(cv.take(c as int - 1), tv, atom@)) + row_arrows(
                cv[c as int - 1],
                tv,
                atom@,
            ));
        }
    }
    proof {
        assert(cv.take(concepts@.len() as int) =~= cv);
    }
}

impl Declaration {
    /// Whether every clause meets its shape contract and the concept set is
    /// nonempty.
    pub fn well_formed(&self) -> (r: bool)
        ensures
            r == decl_wf(self@),
    {
        if self.concepts.len() == 0 {
            return false;
        }
        let mut j: usize = 0;
        while j < self.clauses.len()
            invariant
                j <= self.clauses@.len(),
                forall|k: int| 0 <= k < j ==> clause_wf(#[trigger] self@.clauses[k]),
            decreases self.clauses@.len() - j,
        {
            if self.clauses[j].tags().len() == 0 {
                proof {
                    assert(!clause_wf(self@.clauses[j as int]));
                }
                return false;
            }
            j = j + 1;
        }
        true
    }
}

/// Compiles one declaration into the graph: a vertex for every concept and
/// every referenced tag, then the cross-product arrows of each clause, with
/// concepts as the outer loop and clause tags as the inner loop. A
/// declaration that violates its shape contract fails without mutation.
pub fn compile_declaration(g: &mut Ontology, d: &Declaration) -> (r: Result<(), OntologyError>)
    requires
        old(g).wf(),
    ensures
        final(g).wf(),
        r is Ok <==> decl_wf(d@),
        r is Ok ==> final(g)@ == graph_of(
            decl_labels(old(g)@.labels, d@),
            old(g)@.arrows + decl_arrows(d@),
        ),
        r is Err ==> final(g)@ == old(g)@ && r == Err::<(), OntologyError>(
            OntologyError::MalformedDeclaration,
        ),
{
    if !d.well_formed() {
        return Err(OntologyError::MalformedDeclaration);
    }
    ensure_vertices(g, &d.concepts);
    proof {
        let d0 = DeclarationView { concepts: d@.concepts, clauses: d@.clauses.take(0) };
        assert(decl_labels(old(g)@.labels, d0) == insert_labels(old(g)@.labels, d@.concepts));
        assert(g@.arrows =~= old(g)@.arrows + decl_arrows(d0));
        assert(g@ =~= graph_of(decl_labels(old(g)@.labels, d0), old(g)@.arrows + decl_arrows(d0)));
    }
    let mut j: usize = 0;
    while j < d.clauses.len()
        invariant
            g.wf(),
            j <= d.clauses@.len(),
            g@ == graph_of(
                decl_labels(
                    old(g)@.labels,
                    DeclarationView { concepts: d@.concepts, clauses: d@.clauses.take(j as int) },
                ),
                old(g)@.arrows + decl_arrows(
                    DeclarationView { concepts: d@.concepts, clauses: d@.clauses.take(j as int) },
                ),
            ),
        decreases d.clauses@.len() - j,
    {
        let ghost dj = DeclarationView {
            concepts: d@.concepts,
            clauses: d@.clauses.take(j as int),
        };
        let ghost labels_j = decl_labels(old(g)@.labels, dj);
        let ghost arrows_j = old(g)@.arrows + decl_arrows(dj);
        let tags = d.clauses[j].tags();
        let atom = d.clauses[j].atom();
        let ghost tv = tags@.map_values(|s: String| s@);
        ensure_vertices(g, tags);
        proof {
            let dj1 = DeclarationView {
                concepts: d@.concepts,
                clauses: d@.clauses.take(j as int + 1),
            };
            assert(d@.clauses.take(j as int + 1).drop_last() =~= d@.clauses.take(j as int));
            assert(d@.clauses.take(j as int + 1).last() == d@.clauses[j as int]);
            assert(tv == clause_tags(d@.clauses[j as int]));
            assert(decl_labels(old(g)@.labels, dj1) == insert_labels(labels_j, tv));
            assert(g@ == graph_of(decl_labels(old(g)@.labels, dj1), arrows_j));
            // every concept and tag now has a vertex
            assert forall|k: int|
                0 <= k < d.concepts@.len() implies g@.labels.contains(
                (#[trigger] d.concepts@[k])@,
            ) by {
                lemma_decl_labels_concepts(old(g)@.labels, dj, k);
                lemma_insert_labels_preserves(labels_j, tv, d@.concepts[k]);
            }
            assert forall|k: int|
                0 <= k < tags@.len() implies g@.labels.contains((#[trigger] tags@[k])@) by {
                lemma_insert_labels_contains(labels_j, tv, k);
            }
        }
        cross_connect(g, &d.concepts, tags, &atom);
        j = j + 1;
        proof {
            let dj1 = DeclarationView {
                concepts: d@.concepts,
                clauses: d@.clauses.take(j as int),
            };
            assert(d@.clauses.take(j as int).drop_last() =~= d@.clauses.take(j as int - 1));
            assert(d@.clauses.take(j as int).last() == d@.clauses[j as int - 1]);
            assert(decl_arrows(dj1) == decl_arrows(dj) + cross_arrows(
                d@.concepts,
                clause_tags(d@.clauses[j as int - 1]),
                clause_atom(d@.clauses[j as int - 1]),
            ));
            assert(atom@ == clause_atom(d@.clauses[j as int - 1]));
            assert((old(g)@.arrows + decl_arrows(dj)) + cross_arrows(
                d@.concepts,
                clause_tags(d@.clauses[j as int - 1]),
                clause_atom(d@.clauses[j as int - 1]),
            ) =~= old(g)@.arrows + decl_arrows(dj1));
        }
    }
    proof {
        assert(d@.clauses.take(d.clauses@.len() as int) =~= d@.clauses);
        let dfull = DeclarationView {
            concepts: d@.concepts,
            clauses: d@.clauses.take(d.clauses@.len() as int),
        };
        assert(dfull =~= d@);
    }
    Ok(())
}

/// Every concept of a declaration has a vertex once its labels are ensured.
proof fn lemma_decl_labels_concepts(labels: Seq<Seq<char>>, d: DeclarationView, k: int)
    requires
        0 <= k < d.concepts.len(),
    ensures
        decl_labels(labels, d).contains(d.concepts[k]),
    decreases d.clauses.len(),
{
    if d.clauses.len() == 0 {
        lemma_insert_labels_contains(labels, d.concepts, k);
    } else {
        let dropped = DeclarationView { concepts: d.concepts, clauses: d.clauses.drop_last() };
        lemma_decl_labels_concepts(labels, dropped, k);
        lemma_insert_labels_preserves(
            decl_labels(labels, dropped),
            clause_tags(d.clauses.last()),
            d.concepts[k],
        );
    }
}

/// The graph a sequence of declarations produces: each well-shaped
/// declaration applied in order, malformed ones skipped.
pub open spec fn apply_decl(v: OntologyView, d: DeclarationView) -> OntologyView {
    if decl_wf(d) {
        graph_of(decl_labels(v.labels, d), v.arrows + decl_arrows(d))
    } else {
        v
    }
}

/// Folds `apply_decl` over a sequence of declarations.
pub open spec fn apply_decls(v: OntologyView, ds: Seq<DeclarationView>) -> OntologyView
    decreases ds.len(),
{
    if ds.len() == 0 {
        v
    } else {
        apply_decl(apply_decls(v, ds.drop_last()), ds.last())
    }
}

/// Compiles a sequence of declarations, skipping malformed ones, and reports
/// the outcome of each so a caller can choose to stop or continue.
pub fn compile_declarations(g: &mut Ontology, decls: &Vec<Declaration>) -> (outcomes: Vec<
    Result<(), OntologyError>,
>)
    requires
        old(g).wf(),
    ensures
        final(g).wf(),
        outcomes@.len() == decls@.len(),
        forall|i: int|
            0 <= i < decls@.len() ==> ((#[trigger] outcomes@[i]) is Ok <==> decl_wf(
                decls@[i]@,
            )),
        forall|i: int|
            0 <= i < decls@.len() ==> !decl_wf(decls@[i]@) ==> #[trigger] outcomes@[i] == Err::<
                (),
                OntologyError,
            >(OntologyError::MalformedDeclaration),
        final(g)@ == apply_decls(old(g)@, decls@.map_values(|d: Declaration| d@)),
{
    let ghost dv = decls@.map_values(|d: Declaration| d@);
    let mut outcomes: Vec<Result<(), OntologyError>> = Vec::new();
    let mut i: usize = 0;
    while i < decls.len()
        invariant
            g.wf(),
            i <= decls@.len(),
            dv == decls@.map_values(|d: Declaration| d@),
            outcomes@.len() == i,
            forall|k: int|
                0 <= k < i ==> ((#[trigger] outcomes@[k]) is Ok <==> decl_wf(decls@[k]@)),
            forall|k: int|
                0 <= k < i ==> !decl_wf(decls@[k]@) ==> #[trigger] outcomes@[k] == Err::<
                    (),
                    OntologyError,
                >(OntologyError::MalformedDeclaration),
            g@ == apply_decls(old(g)@, dv.take(i as int)),
        decreases decls@.len() - i,
    {
        let r = compile_declaration(g, &decls[i]);
        outcomes.push(r);
        i = i + 1;
        proof {
            assert(dv.take(i as int).drop_last() =~= dv.take(i as int - 1));
            assert(dv.take(i as int).last() == dv[i as int - 1]);
        }
    }
    proof {
        assert(dv.take(decls@.len() as int) =~= dv);
    }
    outcomes
}

} // verus!
