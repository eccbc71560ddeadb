use ontologica::{Atom, Constraint, Ontology};

fn s(x: &str) -> String {
    x.to_string()
}

fn assert_same_graph(a: &Ontology, b: &Ontology) {
    let labels = a.vertex_labels();
    assert_eq!(labels, b.vertex_labels());
    assert_eq!(a.arrow_count(), b.arrow_count());
    for l in &labels {
        let va = a.vertex(l.clone());
        let vb = b.vertex(l.clone());
        assert_eq!(va.ingress_indices(), vb.ingress_indices());
        assert_eq!(va.egress_indices(), vb.egress_indices());
        assert_eq!(va.regress_indices(), vb.regress_indices());
        let ea = a.egresses(l).unwrap();
        let eb = b.egresses(l).unwrap();
        assert_eq!(ea.len(), eb.len());
        for (x, y) in ea.iter().zip(eb.iter()) {
            assert_eq!(x.source_index(), y.source_index());
            assert_eq!(x.target_index(), y.target_index());
            assert_eq!(x.data().kind(), y.data().kind());
        }
    }
}

#[test]
fn serialize_empty_graph() {
    let g = Ontology::new();
    assert_eq!(g.serialize(), "0;0;");
}

#[test]
fn serialize_exact_form() {
    let mut g = Ontology::new();
    g.add_vertex(s("A"));
    assert_eq!(g.serialize(), "1;1;A0;");
    g.add_vertex(s("B"));
    g.add_arrow(Atom::IsHyponymOf, &s("A"), &s("B")).unwrap();
    assert_eq!(g.serialize(), "2;1;A1;B1;h1;A1;B");
}

#[test]
fn round_trip_empty() {
    let g = Ontology::new();
    let back = Ontology::deserialize(g.serialize().as_str()).unwrap();
    assert_same_graph(&g, &back);
}

#[test]
fn round_trip_random_construction() {
    let mut g = Ontology::new();
    // a random-looking sequence of valid mutations, with every relation kind,
    // self-loops, duplicate arrows and a constraint payload
    let labels = [
        "alpha", "beta", "gamma", "delta", "epsilon", "zeta", "eta", "theta", "iota", "kappa",
        "lambda", "mu",
    ];
    for l in labels {
        g.add_vertex(s(l));
    }
    g.add_vertex(s(""));
    g.add_arrow(Atom::IsHyponymOf, &s(""), &s("alpha")).unwrap();
    g.add_arrow(Atom::IsHyponymOf, &s("alpha"), &s("beta")).unwrap();
    g.add_arrow(Atom::IsMeronymOf, &s("beta"), &s("gamma")).unwrap();
    g.add_arrow(Atom::IsTokenOf, &s("gamma"), &s("gamma")).unwrap();
    g.add_arrow(Atom::IsHyponymOf, &s("alpha"), &s("beta")).unwrap();
    g.add_arrow(
        Atom::IsSpecializedSubsetOf(vec![
            Constraint {
                parameter: s("habitat"),
                values: vec![s("land"), s("sea;"), s("1;x")],
            },
            Constraint {
                parameter: s(""),
                values: Vec::new(),
            },
        ]),
        &s("mu"),
        &s("alpha"),
    )
    .unwrap();
    g.add_arrow(Atom::IsHyponymOf, &s("kappa"), &s("kappa")).unwrap();
    g.add_arrow(Atom::IsMeronymOf, &s("iota"), &s("alpha")).unwrap();
    let text = g.serialize();
    let back = Ontology::deserialize(text.as_str()).unwrap();
    assert_same_graph(&g, &back);
    // the round trip is reproducible: writing again gives the same text
    assert_eq!(back.serialize(), text);
}

#[test]
fn round_trip_keeps_constraint_payload() {
    let mut g = Ontology::new();
    g.add_vertex(s("p"));
    g.add_vertex(s("q"));
    g.add_arrow(
        Atom::IsSpecializedSubsetOf(vec![Constraint {
            parameter: s("size"),
            values: vec![s("small"), s("large")],
        }]),
        &s("p"),
        &s("q"),
    )
    .unwrap();
    let back = Ontology::deserialize(g.serialize().as_str()).unwrap();
    match back.arrow_data(0).unwrap() {
        Atom::IsSpecializedSubsetOf(cs) => {
            assert_eq!(cs.len(), 1);
            assert_eq!(cs[0].parameter, s("size"));
            assert_eq!(cs[0].values, vec![s("small"), s("large")]);
        },
        _ => panic!("expected a specialized subset relation"),
    }
}

#[test]
fn deserialize_rejects_malformed_input() {
    assert!(Ontology::deserialize("").is_none());
    assert!(Ontology::deserialize("0;").is_none());
    assert!(Ontology::deserialize("0;0;junk").is_none());
    assert!(Ontology::deserialize("x;0;").is_none());
    // a duplicate label
    assert!(Ontology::deserialize("2;1;A1;A0;").is_none());
    // an arrow naming labels with no vertex
    assert!(Ontology::deserialize("0;1;h1;A1;B").is_none());
    // a string shorter than its declared length
    assert!(Ontology::deserialize("1;9;A0;").is_none());
    // well-formed input is accepted
    assert!(Ontology::deserialize("2;1;A1;B1;h1;A1;B").is_some());
}
