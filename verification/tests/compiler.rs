use ontologica::{
    compile_declaration, compile_declarations, Atom, AtomKind, Clause, Constraint, Declaration,
    Ontology, OntologyError,
};

fn s(x: &str) -> String {
    x.to_string()
}

#[test]
fn cross_product_expansion() {
    let mut g = Ontology::new();
    let d = Declaration {
        concepts: vec![s("A"), s("B")],
        clauses: vec![Clause::Subsumption(vec![s("X"), s("Y")])],
    };
    compile_declaration(&mut g, &d).unwrap();
    assert_eq!(g.vertex_labels(), vec![s("A"), s("B"), s("X"), s("Y")]);
    assert_eq!(g.arrow_count(), 4);
    // concepts outer, clause tags inner: (A,X),(A,Y),(B,X),(B,Y)
    assert_eq!(g.vertex(s("A")).egress_indices(), vec![0, 1]);
    assert_eq!(g.vertex(s("B")).egress_indices(), vec![2, 3]);
    assert_eq!(g.vertex(s("X")).ingress_indices(), vec![0, 2]);
    assert_eq!(g.vertex(s("Y")).ingress_indices(), vec![1, 3]);
    assert_eq!(g.hypernyms(&s("A")).unwrap(), vec![s("X"), s("Y")]);
    assert_eq!(g.hypernyms(&s("B")).unwrap(), vec![s("X"), s("Y")]);
    for i in 0..4 {
        assert_eq!(g.arrow_data(i).unwrap().kind(), AtomKind::IsHyponymOf);
    }
}

#[test]
fn clause_kinds_map_to_relations() {
    let mut g = Ontology::new();
    let d = Declaration {
        concepts: vec![s("c")],
        clauses: vec![
            Clause::Subsumption(vec![s("super")]),
            Clause::Composition(vec![s("whole")]),
            Clause::Instantiation(vec![s("type")]),
        ],
    };
    compile_declaration(&mut g, &d).unwrap();
    assert_eq!(g.arrow_count(), 3);
    assert_eq!(g.arrow_data(0).unwrap().kind(), AtomKind::IsHyponymOf);
    assert_eq!(g.arrow_data(1).unwrap().kind(), AtomKind::IsMeronymOf);
    assert_eq!(g.arrow_data(2).unwrap().kind(), AtomKind::IsTokenOf);
    assert_eq!(
        g.vertex_labels(),
        vec![s("c"), s("super"), s("whole"), s("type")]
    );
}

#[test]
fn specialization_without_constraints_is_plain_subsumption() {
    let mut g = Ontology::new();
    let d = Declaration {
        concepts: vec![s("sub")],
        clauses: vec![Clause::Specialization(vec![s("sup")], None)],
    };
    compile_declaration(&mut g, &d).unwrap();
    assert_eq!(g.arrow_data(0).unwrap().kind(), AtomKind::IsHyponymOf);
    assert_eq!(g.hypernyms(&s("sub")).unwrap(), vec![s("sup")]);
}

#[test]
fn specialization_with_constraints_is_refined() {
    let mut g = Ontology::new();
    let constraints = vec![Constraint {
        parameter: s("color"),
        values: vec![s("red"), s("blue")],
    }];
    let d = Declaration {
        concepts: vec![s("p"), s("q")],
        clauses: vec![Clause::Specialization(vec![s("sup")], Some(constraints))],
    };
    compile_declaration(&mut g, &d).unwrap();
    assert_eq!(g.arrow_count(), 2);
    // the constraint mapping is attached identically to every generated arrow
    for i in 0..2 {
        match g.arrow_data(i).unwrap() {
            Atom::IsSpecializedSubsetOf(cs) => {
                assert_eq!(cs.len(), 1);
                assert_eq!(cs[0].parameter, s("color"));
                assert_eq!(cs[0].values, vec![s("red"), s("blue")]);
            },
            _ => panic!("expected a specialized subset relation"),
        }
    }
    assert_eq!(g.hypernyms(&s("p")).unwrap(), vec![s("sup")]);
    assert_eq!(g.hyponyms(&s("sup")).unwrap(), vec![s("p"), s("q")]);
}

#[test]
fn malformed_declaration_fails_without_mutation() {
    let mut g = Ontology::new();
    g.add_vertex(s("kept"));
    let no_concepts = Declaration {
        concepts: Vec::new(),
        clauses: vec![Clause::Subsumption(vec![s("x")])],
    };
    assert_eq!(
        compile_declaration(&mut g, &no_concepts),
        Err(OntologyError::MalformedDeclaration)
    );
    let empty_clause = Declaration {
        concepts: vec![s("c")],
        clauses: vec![Clause::Specialization(Vec::new(), None)],
    };
    assert_eq!(
        compile_declaration(&mut g, &empty_clause),
        Err(OntologyError::MalformedDeclaration)
    );
    assert_eq!(g.vertex_labels(), vec![s("kept")]);
    assert_eq!(g.arrow_count(), 0);
}

#[test]
fn compilation_is_declaration_atomic() {
    let mut g = Ontology::new();
    let decls = vec![
        Declaration {
            concepts: vec![s("dog")],
            clauses: vec![Clause::Subsumption(vec![s("animal")])],
        },
        Declaration {
            concepts: Vec::new(),
            clauses: Vec::new(),
        },
        Declaration {
            concepts: vec![s("cat")],
            clauses: vec![Clause::Subsumption(vec![s("animal")])],
        },
    ];
    let outcomes = compile_declarations(&mut g, &decls);
    assert_eq!(outcomes.len(), 3);
    assert!(outcomes[0].is_ok());
    assert_eq!(outcomes[1], Err(OntologyError::MalformedDeclaration));
    assert!(outcomes[2].is_ok());
    assert_eq!(g.vertex_labels(), vec![s("dog"), s("animal"), s("cat")]);
    assert_eq!(g.hyponyms(&s("animal")).unwrap(), vec![s("dog"), s("cat")]);
}

#[test]
fn declared_self_hypernym_produces_self_loop() {
    let mut g = Ontology::new();
    let d = Declaration {
        concepts: vec![s("A")],
        clauses: vec![Clause::Subsumption(vec![s("A")])],
    };
    compile_declaration(&mut g, &d).unwrap();
    assert_eq!(g.vertex_labels(), vec![s("A")]);
    assert_eq!(g.arrow_count(), 1);
    let v = g.vertex(s("A"));
    assert_eq!(v.regress_indices(), vec![0]);
    assert_eq!(v.egress_indices(), Vec::<usize>::new());
    assert_eq!(v.ingress_indices(), Vec::<usize>::new());
    // self-loops are not egresses, so they do not show among hypernyms
    assert_eq!(g.hypernyms(&s("A")).unwrap(), Vec::<String>::new());
}
