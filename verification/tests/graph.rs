use ontologica::{Atom, AtomKind, Ontology, OntologyError};

fn s(x: &str) -> String {
    x.to_string()
}

#[test]
fn empty_graph_signaling() {
    let g = Ontology::new();
    assert!(g.vertex_labels().is_empty());
    assert_eq!(g.choose_vertex_name(), Err(OntologyError::EmptyGraph));
}

#[test]
fn idempotent_vertex_insertion() {
    let mut g = Ontology::new();
    g.add_vertex(s("animal"));
    g.add_vertex(s("dog"));
    g.add_arrow(Atom::IsHyponymOf, &s("dog"), &s("animal"))
        .unwrap();
    g.add_vertex(s("dog"));
    assert_eq!(g.vertex_labels(), vec![s("animal"), s("dog")]);
    let v = g.vertex(s("dog"));
    assert_eq!(v.egress_indices(), vec![0]);
    assert_eq!(g.arrow_count(), 1);
}

#[test]
fn choose_vertex_name_returns_existing_label() {
    let mut g = Ontology::new();
    g.add_vertex(s("only"));
    assert_eq!(g.choose_vertex_name(), Ok(s("only")));
    g.add_vertex(s("other"));
    let picked = g.choose_vertex_name().unwrap();
    assert!(picked == s("only") || picked == s("other"));
}

#[test]
fn self_loop_isolation() {
    let mut g = Ontology::new();
    g.add_vertex(s("A"));
    g.add_arrow(Atom::IsHyponymOf, &s("A"), &s("A")).unwrap();
    let v = g.vertex(s("A"));
    assert_eq!(v.regress_indices(), vec![0]);
    assert_eq!(v.ingress_indices(), Vec::<usize>::new());
    assert_eq!(v.egress_indices(), Vec::<usize>::new());
    assert_eq!(v.weak_egress_indices(), vec![0]);
    assert_eq!(v.weak_ingress_indices(), vec![0]);
    assert_eq!(v.transgress_indices(), Vec::<usize>::new());
    assert_eq!(v.arrow_indices(), vec![0]);
    assert_eq!(g.regresses(&s("A")).unwrap().len(), 1);
    assert_eq!(g.egresses(&s("A")).unwrap().len(), 0);
    assert_eq!(g.ingresses(&s("A")).unwrap().len(), 0);
    assert_eq!(g.weak_egresses(&s("A")).unwrap().len(), 1);
    assert_eq!(g.weak_ingresses(&s("A")).unwrap().len(), 1);
    assert_eq!(g.transgresses(&s("A")).unwrap().len(), 0);
}

#[test]
fn referential_integrity_on_failure() {
    let mut g = Ontology::new();
    g.add_vertex(s("known"));
    let before_labels = g.vertex_labels();
    let before_count = g.arrow_count();
    let before_vertex = g.vertex(s("known"));
    let r = g.add_arrow(Atom::IsHyponymOf, &s("known"), &s("unknown"));
    assert_eq!(r, Err(OntologyError::UnknownVertexReference));
    let r2 = g.add_arrow(Atom::IsMeronymOf, &s("unknown"), &s("known"));
    assert_eq!(r2, Err(OntologyError::UnknownVertexReference));
    assert_eq!(g.vertex_labels(), before_labels);
    assert_eq!(g.arrow_count(), before_count);
    let after_vertex = g.vertex(s("known"));
    assert_eq!(before_vertex.arrow_indices(), after_vertex.arrow_indices());
}

#[test]
fn unknown_label_query_is_distinguished() {
    let mut g = Ontology::new();
    g.add_vertex(s("present"));
    assert_eq!(g.egresses(&s("present")).unwrap().len(), 0);
    assert!(matches!(
        g.egresses(&s("absent")),
        Err(OntologyError::UnknownVertexLabel)
    ));
    assert!(matches!(
        g.ingresses(&s("absent")),
        Err(OntologyError::UnknownVertexLabel)
    ));
    assert_eq!(
        g.hypernyms(&s("absent")),
        Err(OntologyError::UnknownVertexLabel)
    );
    assert_eq!(
        g.hyponyms(&s("absent")),
        Err(OntologyError::UnknownVertexLabel)
    );
    assert!(matches!(
        g.arrows(&s("absent")),
        Err(OntologyError::UnknownVertexLabel)
    ));
}

#[test]
fn hypernym_hyponym_complementarity() {
    let mut g = Ontology::new();
    g.add_vertex(s("dog"));
    g.add_vertex(s("animal"));
    g.add_vertex(s("pack"));
    g.add_arrow(Atom::IsHyponymOf, &s("dog"), &s("animal"))
        .unwrap();
    g.add_arrow(
        Atom::IsSpecializedSubsetOf(Vec::new()),
        &s("dog"),
        &s("pack"),
    )
    .unwrap();
    g.add_arrow(Atom::IsMeronymOf, &s("dog"), &s("pack")).unwrap();
    assert_eq!(g.hypernyms(&s("dog")).unwrap(), vec![s("animal"), s("pack")]);
    assert_eq!(g.hyponyms(&s("animal")).unwrap(), vec![s("dog")]);
    assert_eq!(g.hyponyms(&s("pack")).unwrap(), vec![s("dog")]);
    // the meronym arrow is not classified as subsumption
    assert_eq!(g.hypernyms(&s("dog")).unwrap().len(), 2);
}

#[test]
fn hypernyms_keep_duplicates_in_order() {
    let mut g = Ontology::new();
    g.add_vertex(s("dog"));
    g.add_vertex(s("animal"));
    g.add_arrow(Atom::IsHyponymOf, &s("dog"), &s("animal"))
        .unwrap();
    g.add_arrow(Atom::IsHyponymOf, &s("dog"), &s("animal"))
        .unwrap();
    assert_eq!(
        g.hypernyms(&s("dog")).unwrap(),
        vec![s("animal"), s("animal")]
    );
}

#[test]
fn arrow_data_and_kind_classification() {
    let mut g = Ontology::new();
    g.add_vertex(s("a"));
    g.add_vertex(s("b"));
    g.add_arrow(Atom::IsTokenOf, &s("a"), &s("b")).unwrap();
    let data = g.arrow_data(0).unwrap();
    assert_eq!(data.kind(), AtomKind::IsTokenOf);
    assert!(!data.is_subsumption());
    assert!(g.arrow_data(1).is_none());
    assert_eq!(Atom::IsHyponymOf.kind(), AtomKind::IsHyponymOf);
    assert!(Atom::IsHyponymOf.is_subsumption());
    assert_eq!(
        Atom::IsSpecializedSubsetOf(Vec::new()).kind(),
        AtomKind::IsSpecializedSubsetOf
    );
    assert!(Atom::IsSpecializedSubsetOf(Vec::new()).is_subsumption());
    assert_eq!(Atom::IsMeronymOf.kind(), AtomKind::IsMeronymOf);
    assert!(!Atom::IsMeronymOf.is_subsumption());
}

#[test]
fn arrow_endpoints_are_kept() {
    let mut g = Ontology::new();
    g.add_vertex(s("wheel"));
    g.add_vertex(s("car"));
    g.add_arrow(Atom::IsMeronymOf, &s("wheel"), &s("car")).unwrap();
    let es = g.egresses(&s("wheel")).unwrap();
    assert_eq!(es.len(), 1);
    assert_eq!(es[0].source_index(), "wheel");
    assert_eq!(es[0].target_index(), "car");
    assert_eq!(es[0].data().kind(), AtomKind::IsMeronymOf);
    let is = g.ingresses(&s("car")).unwrap();
    assert_eq!(is.len(), 1);
    assert_eq!(is[0].source_index(), "wheel");
}

#[test]
fn derived_views_union_order() {
    let mut g = Ontology::new();
    g.add_vertex(s("x"));
    g.add_vertex(s("y"));
    g.add_arrow(Atom::IsHyponymOf, &s("x"), &s("y")).unwrap(); // 0: egress of x
    g.add_arrow(Atom::IsHyponymOf, &s("y"), &s("x")).unwrap(); // 1: ingress of x
    g.add_arrow(Atom::IsHyponymOf, &s("x"), &s("x")).unwrap(); // 2: regress of x
    let v = g.vertex(s("x"));
    assert_eq!(v.ingress_indices(), vec![1]);
    assert_eq!(v.egress_indices(), vec![0]);
    assert_eq!(v.regress_indices(), vec![2]);
    assert_eq!(v.weak_ingress_indices(), vec![1, 2]);
    assert_eq!(v.weak_egress_indices(), vec![0, 2]);
    assert_eq!(v.transgress_indices(), vec![1, 0]);
    assert_eq!(v.arrow_indices(), vec![1, 0, 2]);
}
