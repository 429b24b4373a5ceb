use fca::error::ContextError;
use fca::implications::Implication;
use fca::{Concept, Context};

fn names(list: &[&str]) -> Vec<String> {
    list.iter().map(|s| s.to_string()).collect()
}

#[test]
fn display() {
    let mut context = Context::new(2, 3);
    context.add_object(None, &names(&["3"])).unwrap();
    context.add_object(None, &[]).unwrap();

    let actual = context.to_string();
    let expected = r#"  | 1 | 2 | 3 
1 |   |   |   
2 |   |   |   
3 |   |   | X 
4 |   |   |   "#;

    assert_eq!(actual, expected);
}

#[test]
fn from_csv() {
    let context = Context::from_csv(
        r#",running,   artificial
                pond,,X
                river, x ,"#,
    )
    .unwrap();

    assert_eq!(
        context.object_has_attribute("pond", "artificial"),
        Some(true),
        "ponds should be artificial {}",
        context.to_string()
    );
    assert_eq!(
        context.intents(&["pond".to_string()]),
        Some(vec!["artificial".to_string()]),
        "ponds should be artificial {}",
        context.to_string()
    );
    assert_eq!(context.object_has_attribute("river", "running"), Some(true));
}

#[test]
#[should_panic(expected = "found record with 3 fields")]
fn from_csv_more_attributes() {
    Context::from_csv(
        r#",running,   artificial,extra
                pond,,X
                river, x ,"#,
    )
    .unwrap();
}

#[test]
#[should_panic(expected = "found record with 3 fields")]
fn from_csv_less_attributes() {
    Context::from_csv(
        r#",running
                pond,,X
                river, x ,"#,
    )
    .unwrap();
}

#[test]
fn add_object_unnamed() {
    let mut input = Context::from_csv(
        r#",running,   artificial,small
                pond,,X,X
                river, x ,,"#,
    )
    .unwrap();
    let expected = Context::from_csv(
        r#",running,   artificial,small
                pond,,X,X
                river, x ,,
                3,X,X,"#,
    )
    .unwrap();

    input
        .add_object(None, &vec!["running".to_string(), "artificial".to_string()])
        .unwrap();

    assert_eq!(input, expected);
}

#[test]
fn add_object_named() {
    let mut input = Context::from_csv(
        r#",running,   artificial,small
                pond,,X,X
                river, x ,,"#,
    )
    .unwrap();
    let expected = Context::from_csv(
        r#",running,   artificial,small
                pond,,X,X
                river, x ,,
                canal,X,X,"#,
    )
    .unwrap();

    input
        .add_object(
            Some("canal".to_string()),
            &vec!["running".to_string(), "artificial".to_string()],
        )
        .unwrap();

    assert_eq!(input, expected);
}

#[test]
fn intents() {
    let context = Context::from_csv(
        r#",running,   artificial,small
                pond,,X,X
                river, x ,,
                canal,X,X,"#,
    )
    .unwrap();

    let actual = context.intents(&["pond".to_string()]);
    let expected = Some(vec!["artificial".to_string(), "small".to_string()]);

    assert_eq!(actual, expected);

    let actual = context.intents(&["canal".to_string(), "river".to_string()]);
    let expected = Some(vec!["running".to_string()]);

    assert_eq!(actual, expected);

    assert_eq!(context.intents(&["missing".to_string()]), None);
    assert_eq!(
        context.intents(&[]),
        Some(vec![
            "running".to_string(),
            "artificial".to_string(),
            "small".to_string()
        ])
    );
}

#[test]
fn extents() {
    let context = Context::from_csv(
        r#",running,   artificial,inland
                pond,,X,X
                river, x ,,X"#,
    )
    .unwrap();

    let actual = context.extents(&["inland".to_string()]);
    let expected = Some(vec!["pond".to_string(), "river".to_string()]);

    assert_eq!(actual, expected);

    let actual = context.extents(&["inland".to_string(), "running".to_string()]);
    let expected = Some(vec!["river".to_string()]);

    assert_eq!(actual, expected);

    assert_eq!(context.extents(&["missing".to_string()]), None);
    assert_eq!(
        context.extents(&[]),
        Some(vec!["pond".to_string(), "river".to_string()])
    );
}

#[test]
fn closure_intents() {
    let context = Context::from_csv(
        r#"      ,running,artificial,small
                pond ,       ,  X       , X
                river, x     ,          ,
                canal, X     ,  X       ,"#,
    )
    .unwrap();

    let actual = context.closure_intents(&["pond".to_string()]);
    let expected = Some(vec!["pond".to_string()]);

    assert_eq!(actual, expected);
}

#[test]
fn closure_extents() {
    let context = Context::from_csv(
        r#",running,   artificial,inland
                pond,,X,X
                river, x ,,X"#,
    )
    .unwrap();

    let actual = context.closure_extents(&["inland".to_string()]);
    let expected = Some(vec!["inland".to_string()]);

    assert_eq!(actual, expected);
}

#[test]
fn concepts() {
    let context = Context::from_csv(
        r#",a,b,c,d,e,f
              1, ,x,x, ,x,x
              2, ,x,x, , , 
              3, , , , , , 
              4, , , , ,x,x
              5, , ,x, ,x,x
              6, ,x, , , , 
              7, , ,x, ,x,x
              8, , ,x,x, ,x
              9, , ,x, ,x,x
             10, ,x,x,x,x,x"#,
    )
    .unwrap();

    let expected = vec![
        Concept {
            intents: Vec::new(),
            extents: vec![
                "1".to_string(),
                "2".to_string(),
                "3".to_string(),
                "4".to_string(),
                "5".to_string(),
                "6".to_string(),
                "7".to_string(),
                "8".to_string(),
                "9".to_string(),
                "10".to_string(),
            ],
        },
        Concept {
            intents: vec!["f".to_string()],
            extents: vec![
                "1".to_string(),
                "4".to_string(),
                "5".to_string(),
                "7".to_string(),
                "8".to_string(),
                "9".to_string(),
                "10".to_string(),
            ],
        },
        Concept {
            intents: vec!["e".to_string(), "f".to_string()],
            extents: vec![
                "1".to_string(),
                "4".to_string(),
                "5".to_string(),
                "7".to_string(),
                "9".to_string(),
                "10".to_string(),
            ],
        },
        Concept {
            intents: vec!["c".to_string()],
            extents: vec![
                "1".to_string(),
                "2".to_string(),
                "5".to_string(),
                "7".to_string(),
                "8".to_string(),
                "9".to_string(),
                "10".to_string(),
            ],
        },
        Concept {
            intents: vec!["c".to_string(), "f".to_string()],
            extents: vec![
                "1".to_string(),
                "5".to_string(),
                "7".to_string(),
                "8".to_string(),
                "9".to_string(),
                "10".to_string(),
            ],
        },
        Concept {
            intents: vec!["c".to_string(), "e".to_string(), "f".to_string()],
            extents: vec![
                "1".to_string(),
                "5".to_string(),
                "7".to_string(),
                "9".to_string(),
                "10".to_string(),
            ],
        },
        Concept {
            intents: vec!["c".to_string(), "d".to_string(), "f".to_string()],
            extents: vec!["8".to_string(), "10".to_string()],
        },
        Concept {
            intents: vec!["b".to_string()],
            extents: vec![
                "1".to_string(),
                "2".to_string(),
                "6".to_string(),
                "10".to_string(),
            ],
        },
        Concept {
            intents: vec!["b".to_string(), "c".to_string()],
            extents: vec!["1".to_string(), "2".to_string(), "10".to_string()],
        },
        Concept {
            intents: vec![
                "b".to_string(),
                "c".to_string(),
                "e".to_string(),
                "f".to_string(),
            ],
            extents: vec!["1".to_string(), "10".to_string()],
        },
        Concept {
            intents: vec![
                "b".to_string(),
                "c".to_string(),
                "d".to_string(),
                "e".to_string(),
                "f".to_string(),
            ],
            extents: vec!["10".to_string()],
        },
        Concept {
            intents: vec![
                "a".to_string(),
                "b".to_string(),
                "c".to_string(),
                "d".to_string(),
                "e".to_string(),
                "f".to_string(),
            ],
            extents: Vec::new(),
        },
    ];

    assert_eq!(context.concepts(), expected);
}

#[test]
fn concepts_triangles() {
    let context = Context::from_csv(
        r#",a,b,c,d,e
              1, ,x, ,x, 
              2, ,x, , ,x
              3, , ,x, , 
              4,x,x,x, , 
              5, , , ,x, 
              6, ,x,x, , 
              7, , , , ,x"#,
    )
    .unwrap();

    let expected = vec![
        Concept {
            intents: Vec::new(),
            extents: vec![
                "1".to_string(),
                "2".to_string(),
                "3".to_string(),
                "4".to_string(),
                "5".to_string(),
                "6".to_string(),
                "7".to_string(),
            ],
        },
        Concept {
            intents: vec!["e".to_string()],
            extents: vec!["2".to_string(), "7".to_string()],
        },
        Concept {
            intents: vec!["d".to_string()],
            extents: vec!["1".to_string(), "5".to_string()],
        },
        Concept {
            intents: vec!["c".to_string()],
            extents: vec!["3".to_string(), "4".to_string(), "6".to_string()],
        },
        Concept {
            intents: vec!["b".to_string()],
            extents: vec![
                "1".to_string(),
                "2".to_string(),
                "4".to_string(),
                "6".to_string(),
            ],
        },
        Concept {
            intents: vec!["b".to_string(), "e".to_string()],
            extents: vec!["2".to_string()],
        },
        Concept {
            intents: vec!["b".to_string(), "d".to_string()],
            extents: vec!["1".to_string()],
        },
        Concept {
            intents: vec!["b".to_string(), "c".to_string()],
            extents: vec!["4".to_string(), "6".to_string()],
        },
        Concept {
            intents: vec!["a".to_string(), "b".to_string(), "c".to_string()],
            extents: vec!["4".to_string()],
        },
        Concept {
            intents: vec![
                "a".to_string(),
                "b".to_string(),
                "c".to_string(),
                "d".to_string(),
                "e".to_string(),
            ],
            extents: Vec::new(),
        },
    ];

    assert_eq!(context.concepts(), expected);
}

#[test]
fn canonical_basis() {
    let context = Context::from_csv(
        r#",a,b,c,d,e
              1, ,x, ,x, 
              2, ,x, , ,x
              3, , ,x, , 
              4,x,x,x, , 
              5, , , ,x, 
              6, ,x,x, , 
              7, , , , ,x"#,
    )
    .unwrap();

    let expected = vec![
        Implication {
            premise: vec!["d".to_string(), "e".to_string()],
            conclusion: vec![
                "a".to_string(),
                "b".to_string(),
                "c".to_string(),
                "d".to_string(),
                "e".to_string(),
            ],
        },
        Implication {
            premise: vec!["c".to_string(), "e".to_string()],
            conclusion: vec![
                "a".to_string(),
                "b".to_string(),
                "c".to_string(),
                "d".to_string(),
                "e".to_string(),
            ],
        },
        Implication {
            premise: vec!["c".to_string(), "d".to_string()],
            conclusion: vec![
                "a".to_string(),
                "b".to_string(),
                "c".to_string(),
                "d".to_string(),
                "e".to_string(),
            ],
        },
        Implication {
            premise: vec!["a".to_string()],
            conclusion: vec!["a".to_string(), "b".to_string(), "c".to_string()],
        },
    ];

    assert_eq!(context.canonical_basis(), expected);
}

#[test]
fn attribute_exploration() {
    let context = Context::from_csv(
        r#",disjoint,overlap,parallel,common vertex,common segment,common edge
              1,        ,       ,        ,             ,              ,           
              2,   x    ,       ,        ,             ,              ,           
              3,        ,   x   ,        ,             ,              ,           
              4,        ,       ,        ,      x      ,              ,           
              5,   x    ,       ,    x   ,             ,              ,           
              6,        ,   x   ,    x   ,             ,              ,           
              7,        ,       ,    x   ,             ,       x      ,           
              8,        ,       ,    x   ,      x      ,              ,           
              9,        ,       ,    x   ,      x      ,       x      ,     x     
             10,        ,   x   ,    x   ,      x      ,       x      ,     x     "#,
    )
    .unwrap();

    let (basis, new) = context.attribute_exploration(|premise, conclusion| {
        let premise = premise.into_iter().map(|s| s.as_str()).collect::<Vec<_>>();
        let conclusion = conclusion
            .into_iter()
            .map(|s| s.as_str())
            .collect::<Vec<_>>();

        match (&premise[..], &conclusion[..]) {
            (
                ["common edge"],
                ["parallel", "common vertex", "common segment", "common edge"],
            ) => None,
            (["common segment"], ["parallel", "common segment"]) => None,
            (
                ["common segment", "common vertex", "parallel"],
                ["parallel", "common vertex", "common segment", "common edge"],
            ) => None,
            (
                ["common vertex", "overlap"],
                ["overlap", "parallel", "common vertex", "common segment", "common edge"],
            ) => Some((None, Vec::new())),
            (
                ["common segment", "overlap", "parallel"],
                ["overlap", "parallel", "common vertex", "common segment", "common edge"],
            ) => Some((None, Vec::new())),
            (
                ["common vertex", "overlap", "parallel"],
                ["overlap", "parallel", "common vertex", "common segment", "common edge"],
            ) => None,
            (
                ["common vertex", "disjoint"],
                ["disjoint", "overlap", "parallel", "common vertex", "common segment", "common edge"],
            ) => None,
            (
                ["common segment", "disjoint", "parallel"],
                ["disjoint", "overlap", "parallel", "common vertex", "common segment", "common edge"],
            ) => None,
            (
                ["disjoint", "overlap"],
                ["disjoint", "overlap", "parallel", "common vertex", "common segment", "common edge"],
            ) => None,
            _ => panic!("did not expect oracle calls: premise = {:?}, conslusion = {:?}", premise, conclusion),
        }
    })
    .unwrap();

    let expected_basis = vec![
        Implication {
            premise: vec!["common edge".to_string()],
            conclusion: vec![
                "parallel".to_string(),
                "common vertex".to_string(),
                "common segment".to_string(),
                "common edge".to_string(),
            ],
        },
        Implication {
            premise: vec!["common segment".to_string()],
            conclusion: vec!["parallel".to_string(), "common segment".to_string()],
        },
        Implication {
            premise: vec![
                "common segment".to_string(),
                "common vertex".to_string(),
                "parallel".to_string(),
            ],
            conclusion: vec![
                "parallel".to_string(),
                "common vertex".to_string(),
                "common segment".to_string(),
                "common edge".to_string(),
            ],
        },
        Implication {
            premise: vec![
                "common vertex".to_string(),
                "overlap".to_string(),
                "parallel".to_string(),
            ],
            conclusion: vec![
                "overlap".to_string(),
                "parallel".to_string(),
                "common vertex".to_string(),
                "common segment".to_string(),
                "common edge".to_string(),
            ],
        },
        Implication {
            premise: vec!["common vertex".to_string(), "disjoint".to_string()],
            conclusion: vec![
                "disjoint".to_string(),
                "overlap".to_string(),
                "parallel".to_string(),
                "common vertex".to_string(),
                "common segment".to_string(),
                "common edge".to_string(),
            ],
        },
        Implication {
            premise: vec![
                "common segment".to_string(),
                "disjoint".to_string(),
                "parallel".to_string(),
            ],
            conclusion: vec![
                "disjoint".to_string(),
                "overlap".to_string(),
                "parallel".to_string(),
                "common vertex".to_string(),
                "common segment".to_string(),
                "common edge".to_string(),
            ],
        },
        Implication {
            premise: vec!["disjoint".to_string(), "overlap".to_string()],
            conclusion: vec![
                "disjoint".to_string(),
                "overlap".to_string(),
                "parallel".to_string(),
                "common vertex".to_string(),
                "common segment".to_string(),
                "common edge".to_string(),
            ],
        },
    ];

    let expected_context = Context::from_csv(
        r#",disjoint,overlap,parallel,common vertex,common segment,common edge
              1,        ,       ,        ,             ,              ,           
              2,   x    ,       ,        ,             ,              ,           
              3,        ,   x   ,        ,             ,              ,           
              4,        ,       ,        ,      x      ,              ,           
              5,   x    ,       ,    x   ,             ,              ,           
              6,        ,   x   ,    x   ,             ,              ,           
              7,        ,       ,    x   ,             ,       x      ,           
              8,        ,       ,    x   ,      x      ,              ,           
              9,        ,       ,    x   ,      x      ,       x      ,     x     
             10,        ,   x   ,    x   ,      x      ,       x      ,     x     
             11,        ,   x   ,        ,      x      ,              ,           
             12,        ,   x   ,    x   ,             ,       x      ,           "#,
    )
    .unwrap();

    assert_eq!(expected_basis, basis);
    assert_eq!(expected_context, new);
}

fn triangles() -> Context {
    Context::from_csv(
        r#",a,b,c,d,e
              1, ,x, ,x, 
              2, ,x, , ,x
              3, , ,x, , 
              4,x,x,x, , 
              5, , , ,x, 
              6, ,x,x, , 
              7, , , , ,x"#,
    )
    .unwrap()
}

#[test]
fn new_numbers_objects_and_attributes() {
    let context = Context::new(12, 2);

    assert_eq!(
        context.objects().to_vec(),
        names(&["1", "2", "3", "4", "5", "6", "7", "8", "9", "10", "11", "12"])
    );
    assert_eq!(context.attributes().to_vec(), names(&["1", "2"]));
    assert_eq!(context.object_has_attribute("12", "2"), Some(false));
    assert_eq!(context.object_has_attribute("13", "2"), None);
    assert_eq!(context.object_has_attribute("12", "3"), None);
    assert_eq!(context.intents(&names(&["1", "12"])), Some(Vec::new()));
}

#[test]
fn has_distinct_names_finds_shared_names() {
    assert!(Context::new(3, 2).has_distinct_names());
    assert!(triangles().has_distinct_names());
    assert!(!Context::from_csv(",a,a\n1,x,").unwrap().has_distinct_names());
    let mut context = Context::new(1, 1);
    context.add_object(Some("1".to_string()), &[]).unwrap();
    assert!(!context.has_distinct_names());
}

#[test]
fn new_of_nothing_is_empty() {
    let context = Context::new(0, 0);

    assert_eq!(context.objects().len(), 0);
    assert_eq!(context.attributes().len(), 0);
    assert_eq!(context.to_string(), "  ");
    assert_eq!(context.intents(&[]), Some(Vec::new()));
    assert_eq!(context.concepts().len(), 1);
}

#[test]
fn scenario_pond_and_river() {
    let mut context = Context::from_table(&names(&["", "running", "artificial"]), &[]).unwrap();
    context
        .add_object(Some("pond".to_string()), &names(&["artificial"]))
        .unwrap();
    context
        .add_object(Some("river".to_string()), &names(&["running"]))
        .unwrap();

    assert_eq!(context.intents(&names(&["pond"])), Some(names(&["artificial"])));
    assert_eq!(
        context.closure_extents(&names(&["running"])),
        Some(names(&["running"]))
    );
}

#[test]
fn scenario_triangles_has_ten_concepts_with_top_and_bottom() {
    let context = triangles();
    let concepts = context.concepts();

    assert_eq!(concepts.len(), 10);
    assert!(concepts.contains(&Concept {
        intents: Vec::new(),
        extents: names(&["1", "2", "3", "4", "5", "6", "7"]),
    }));
    assert!(concepts.contains(&Concept {
        intents: names(&["a", "b", "c", "d", "e"]),
        extents: Vec::new(),
    }));
}

#[test]
fn scenario_ten_objects_have_top_and_bottom() {
    let context = Context::from_csv(
        r#",a,b,c,d,e,f
              1, ,x,x, ,x,x
              2, ,x,x, , , 
              3, , , , , , 
              4, , , , ,x,x
              5, , ,x, ,x,x
              6, ,x, , , , 
              7, , ,x, ,x,x
              8, , ,x,x, ,x
              9, , ,x, ,x,x
             10, ,x,x,x,x,x"#,
    )
    .unwrap();
    let concepts = context.concepts();

    assert_eq!(concepts.len(), 12);
    assert_eq!(
        concepts.first(),
        Some(&Concept {
            intents: Vec::new(),
            extents: names(&["1", "2", "3", "4", "5", "6", "7", "8", "9", "10"]),
        })
    );
    assert_eq!(
        concepts.last(),
        Some(&Concept {
            intents: names(&["a", "b", "c", "d", "e", "f"]),
            extents: Vec::new(),
        })
    );
}

#[test]
fn scenario_confirming_oracle_gives_the_canonical_basis() {
    let context = triangles();
    let direct = context.canonical_basis();

    let (basis, explored) = triangles().attribute_exploration(|_, _| None).unwrap();

    assert_eq!(basis, direct);
    assert_eq!(explored, context);
    assert_eq!(explored.objects().len(), 7);
}

#[test]
fn scenario_short_second_row_is_malformed() {
    let built = Context::from_csv(",a,b\n1,x,\n2,x\n");
    assert!(matches!(built, Err(ContextError::MalformedInput(_))));

    let header = names(&["", "a", "b"]);
    let rows = vec![names(&["1", "x", ""]), names(&["2", "x"])];
    let built = Context::from_table(&header, &rows);
    assert!(matches!(built, Err(ContextError::MalformedInput(_))));
}

#[test]
fn from_table_reads_names_marks_and_blanks() {
    let header = names(&["ignored", " a ", "b", "c"]);
    let rows = vec![
        names(&[" one ", "X", " x ", ""]),
        names(&["  ", "xx", "y", "\tX\n"]),
        names(&["", "", "", ""]),
    ];
    let context = Context::from_table(&header, &rows).unwrap();

    assert_eq!(context.attributes().to_vec(), names(&["a", "b", "c"]));
    assert_eq!(context.objects().to_vec(), names(&["one", "2", "3"]));
    assert_eq!(context.intents(&names(&["one"])), Some(names(&["a", "b"])));
    assert_eq!(context.intents(&names(&["2"])), Some(names(&["c"])));
    assert_eq!(context.intents(&names(&["3"])), Some(Vec::new()));
}

#[test]
fn from_table_without_header_has_no_attributes() {
    let context = Context::from_table(&[], &[]).unwrap();

    assert_eq!(context.attributes().len(), 0);
    assert_eq!(context.objects().len(), 0);
    assert_eq!(Context::from_csv("").unwrap(), context);
}

#[test]
fn to_string_writes_the_grid_byte_for_byte() {
    let context = Context::from_csv(",running,artificial\npond,,X\nriver,x,").unwrap();

    assert_eq!(
        context.to_string(),
        "  | running | artificial \npond |   | X \nriver | X |   "
    );
}

#[test]
fn derivation_of_nothing_is_everything() {
    let context = triangles();

    assert_eq!(context.intents(&[]), Some(names(&["a", "b", "c", "d", "e"])));
    assert_eq!(
        context.extents(&[]),
        Some(names(&["1", "2", "3", "4", "5", "6", "7"]))
    );
}

#[test]
fn derivation_passes_over_unknown_names_unless_all_are_unknown() {
    let context = triangles();

    assert_eq!(
        context.extents(&names(&["nope", "b", "c"])),
        Some(names(&["4", "6"]))
    );
    assert_eq!(context.extents(&names(&["nope", "never"])), None);
    assert_eq!(context.closure_extents(&names(&["nope"])), None);
    assert_eq!(context.closure_intents(&names(&["nope"])), None);
    assert_eq!(context.closure_intents(&names(&["8", "4"])), Some(names(&["4"])));
}

#[test]
fn derivation_turns_inclusion_round() {
    let context = triangles();
    let smaller = context.extents(&names(&["b"])).unwrap();
    let larger = context.extents(&names(&["b", "c"])).unwrap();

    assert_eq!(smaller, names(&["1", "2", "4", "6"]));
    assert_eq!(larger, names(&["4", "6"]));
    assert!(larger.iter().all(|o| smaller.contains(o)));

    let few = context.intents(&names(&["4"])).unwrap();
    let many = context.intents(&names(&["4", "6"])).unwrap();
    assert_eq!(few, names(&["a", "b", "c"]));
    assert_eq!(many, names(&["b", "c"]));
}

#[test]
fn closures_are_idempotent_extensive_and_monotone() {
    let context = triangles();
    let all = names(&["a", "b", "c", "d", "e"]);
    for mask in 0..32u32 {
        let set: Vec<String> = all
            .iter()
            .enumerate()
            .filter(|(i, _)| mask & (1 << i) != 0)
            .map(|(_, n)| n.clone())
            .collect();
        let closed = context.closure_extents(&set).unwrap();
        assert!(set.iter().all(|n| closed.contains(n)));
        assert_eq!(context.closure_extents(&closed), Some(closed.clone()));
        for bit in 0..5 {
            let mut more = set.clone();
            if !more.contains(&all[bit]) {
                more.push(all[bit].clone());
            }
            let wider = context.closure_extents(&more).unwrap();
            assert!(closed.iter().all(|n| wider.contains(n)));
        }
    }
    let objects = names(&["2", "6"]);
    let closed = context.closure_intents(&objects).unwrap();
    assert_eq!(closed, names(&["1", "2", "4", "6"]));
    assert_eq!(context.closure_intents(&closed), Some(closed));
}

#[test]
fn concepts_are_closed_pairs_in_rising_lectic_order() {
    let context = triangles();
    let attributes = context.attributes().to_vec();
    let concepts = context.concepts();
    let rank = |intents: &Vec<String>| -> u32 {
        attributes
            .iter()
            .fold(0, |r, a| 2 * r + if intents.contains(a) { 1 } else { 0 })
    };
    for pair in concepts.windows(2) {
        assert!(rank(&pair[0].intents) < rank(&pair[1].intents));
    }
    for concept in &concepts {
        assert_eq!(context.extents(&concept.intents), Some(concept.extents.clone()));
        assert_eq!(context.intents(&concept.extents), Some(concept.intents.clone()));
    }
    // Every closed set of attributes is there.
    for mask in 0..32u32 {
        let set: Vec<String> = attributes
            .iter()
            .enumerate()
            .filter(|(i, _)| mask & (1 << i) != 0)
            .map(|(_, n)| n.clone())
            .collect();
        let closed = context.closure_extents(&set).unwrap();
        assert!(concepts.iter().any(|c| c.intents == closed));
    }
}

#[test]
fn canonical_basis_is_sound_proper_and_complete() {
    let context = triangles();
    let attributes = context.attributes().to_vec();
    let basis = context.canonical_basis();
    for implication in &basis {
        assert_eq!(
            context.closure_extents(&implication.premise),
            Some(implication.conclusion.clone())
        );
        assert!(implication.premise.iter().all(|n| implication.conclusion.contains(n)));
        assert!(implication.conclusion.len() > implication.premise.len());
    }
    // None follows from the others.
    for k in 0..basis.len() {
        let mut others = basis.clone();
        let taken = others.remove(k);
        let mut premise = taken.premise.clone();
        premise.sort();
        assert_eq!(
            fca::implications::preclosure_operator(&others, &taken.premise),
            premise
        );
    }
    for mask in 0..32u32 {
        let set: Vec<String> = attributes
            .iter()
            .enumerate()
            .filter(|(i, _)| mask & (1 << i) != 0)
            .map(|(_, n)| n.clone())
            .collect();
        let mut by_context = context.closure_extents(&set).unwrap();
        by_context.sort();
        assert_eq!(fca::implications::preclosure_operator(&basis, &set), by_context);
    }
}

#[test]
fn canonical_basis_records_what_every_object_has() {
    let context = Context::from_csv(",a,b\n1,x,\n2,x,x").unwrap();

    assert_eq!(
        context.canonical_basis(),
        vec![
            Implication { premise: Vec::new(), conclusion: names(&["a"]) },
        ]
    );
}

#[test]
fn add_object_passes_over_unknown_attributes() {
    let mut context = Context::new(0, 2);
    context.add_object(None, &names(&["2", "9"])).unwrap();
    context.add_object(Some("x".to_string()), &[]).unwrap();
    context.add_object(None, &names(&["1"])).unwrap();

    assert_eq!(context.objects().to_vec(), names(&["1", "x", "3"]));
    assert_eq!(context.to_string(), "  | 1 | 2 \n1 |   | X \nx |   |   \n3 | X |   ");
}

#[test]
fn exploration_with_one_counterexample() {
    let context = Context::from_csv(",a,b\n1,X,X\n2,,").unwrap();
    let oracle = |p: &[String], _c: &[String]| {
        if p.len() == 1 && p[0] == "b" {
            Some((None, Vec::new()))
        } else {
            None
        }
    };
    let (basis, out) = context.attribute_exploration(oracle).unwrap();

    assert_eq!(
        basis,
        vec![Implication { premise: names(&["a"]), conclusion: names(&["a", "b"]) }]
    );
    assert_eq!(out, Context::from_csv(",a,b\n1,X,X\n2,,\n3,,X").unwrap());
}

#[test]
fn exploration_asks_for_the_closure_of_what_is_not_closed() {
    let context = triangles();
    let attributes = context.attributes().to_vec();
    let (basis, _) = triangles()
        .attribute_exploration(|premise, conclusion| {
            // No object is ever added, so the closures are those of the context.
            assert_eq!(context.closure_extents(premise), Some(conclusion.to_vec()));
            assert!(premise.iter().all(|n| attributes.contains(n)));
            assert!(premise.iter().all(|n| conclusion.contains(n)));
            assert!(conclusion.iter().any(|n| !premise.contains(n)));
            None
        })
        .unwrap();

    assert_eq!(basis.len(), 4);
}

#[test]
fn exploration_adds_the_premise_to_a_counterexample() {
    let context = Context::from_csv(",a,b\n1,x,x").unwrap();
    let (basis, grown) = context
        .attribute_exploration(|premise, _| {
            if premise.is_empty() {
                Some((Some("none".to_string()), Vec::new()))
            } else if premise == ["b".to_string()] {
                Some((None, Vec::new()))
            } else {
                None
            }
        })
        .unwrap();

    assert_eq!(grown.objects().to_vec(), names(&["1", "none", "3"]));
    assert_eq!(grown.intents(&names(&["3"])), Some(names(&["b"])));
    assert_eq!(
        basis,
        vec![Implication { premise: names(&["a"]), conclusion: names(&["a", "b"]) }]
    );
}
