use fca::lattice::{ConceptQueue, Lattice, Node};
use fca::Concept;
use std::cmp::Ordering;

fn concept(intents: &[&str], extents: &[&str]) -> Concept {
    Concept {
        intents: intents.iter().map(|s| s.to_string()).collect(),
        extents: extents.iter().map(|s| s.to_string()).collect(),
    }
}

#[test]
fn ordered() {
    let input = vec![
        Concept {
            intents: vec!["d".to_string()],
            extents: vec!["1".to_string(), "5".to_string()],
        },
        Concept {
            intents: Vec::new(),
            extents: vec![
                "1".to_string(),
                "2".to_string(),
                "3".to_string(),
                "4".to_string(),
                "5".to_string(),
                "6".to_string(),
                "7".to_string(),
            ],
        },
        Concept {
            intents: vec!["b".to_string()],
            extents: vec![
                "1".to_string(),
                "2".to_string(),
                "4".to_string(),
                "6".to_string(),
            ],
        },
        Concept {
            intents: vec!["e".to_string()],
            extents: vec!["2".to_string(), "7".to_string()],
        },
        Concept {
            intents: vec!["b".to_string(), "e".to_string()],
            extents: vec!["2".to_string()],
        },
        Concept {
            intents: vec!["c".to_string()],
            extents: vec!["3".to_string(), "4".to_string(), "6".to_string()],
        },
        Concept {
            intents: vec!["b".to_string(), "d".to_string()],
            extents: vec!["1".to_string()],
        },
        Concept {
            intents: vec![
                "a".to_string(),
                "b".to_string(),
                "c".to_string(),
                "d".to_string(),
                "e".to_string(),
            ],
            extents: Vec::new(),
        },
        Concept {
            intents: vec!["a".to_string(), "b".to_string(), "c".to_string()],
            extents: vec!["4".to_string()],
        },
        Concept {
            intents: vec!["b".to_string(), "c".to_string()],
            extents: vec!["4".to_string(), "6".to_string()],
        },
    ];

    let mut heap = ConceptQueue::new(input);

    assert_eq!(
        heap.pop(),
        Some(Concept {
            intents: vec![
                "a".to_string(),
                "b".to_string(),
                "c".to_string(),
                "d".to_string(),
                "e".to_string(),
            ],
            extents: Vec::new(),
        })
    );
    assert_eq!(
        heap.pop(),
        Some(Concept {
            intents: vec!["a".to_string(), "b".to_string(), "c".to_string()],
            extents: vec!["4".to_string()],
        })
    );
    assert_eq!(
        heap.pop(),
        Some(Concept {
            intents: vec!["b".to_string(), "d".to_string()],
            extents: vec!["1".to_string()],
        })
    );
    assert_eq!(
        heap.pop(),
        Some(Concept {
            intents: vec!["b".to_string(), "e".to_string()],
            extents: vec!["2".to_string()],
        })
    );
    assert_eq!(
        heap.pop(),
        Some(Concept {
            intents: vec!["b".to_string(), "c".to_string()],
            extents: vec!["4".to_string(), "6".to_string()],
        })
    );
    assert_eq!(
        heap.pop(),
        Some(Concept {
            intents: vec!["e".to_string()],
            extents: vec!["2".to_string(), "7".to_string()],
        })
    );
    assert_eq!(
        heap.pop(),
        Some(Concept {
            intents: vec!["d".to_string()],
            extents: vec!["1".to_string(), "5".to_string()],
        })
    );
    assert_eq!(
        heap.pop(),
        Some(Concept {
            intents: vec!["c".to_string()],
            extents: vec!["3".to_string(), "4".to_string(), "6".to_string()],
        })
    );
    assert_eq!(
        heap.pop(),
        Some(Concept {
            intents: vec!["b".to_string()],
            extents: vec![
                "1".to_string(),
                "2".to_string(),
                "4".to_string(),
                "6".to_string(),
            ],
        })
    );
    assert_eq!(
        heap.pop(),
        Some(Concept {
            intents: Vec::new(),
            extents: vec![
                "1".to_string(),
                "2".to_string(),
                "3".to_string(),
                "4".to_string(),
                "5".to_string(),
                "6".to_string(),
                "7".to_string(),
            ],
        })
    );
    assert_eq!(heap.pop(), None);
}

#[test]
fn from_concepts() {
    let input = vec![
        Concept {
            intents: vec!["d".to_string()],
            extents: vec!["1".to_string(), "5".to_string()],
        },
        Concept {
            intents: Vec::new(),
            extents: vec![
                "1".to_string(),
                "2".to_string(),
                "3".to_string(),
                "4".to_string(),
                "5".to_string(),
                "6".to_string(),
                "7".to_string(),
            ],
        },
        Concept {
            intents: vec!["b".to_string()],
            extents: vec![
                "1".to_string(),
                "2".to_string(),
                "4".to_string(),
                "6".to_string(),
            ],
        },
        Concept {
            intents: vec!["e".to_string()],
            extents: vec!["2".to_string(), "7".to_string()],
        },
        Concept {
            intents: vec!["b".to_string(), "e".to_string()],
            extents: vec!["2".to_string()],
        },
        Concept {
            intents: vec!["c".to_string()],
            extents: vec!["3".to_string(), "4".to_string(), "6".to_string()],
        },
        Concept {
            intents: vec!["b".to_string(), "d".to_string()],
            extents: vec!["1".to_string()],
        },
        Concept {
            intents: vec![
                "a".to_string(),
                "b".to_string(),
                "c".to_string(),
                "d".to_string(),
                "e".to_string(),
            ],
            extents: Vec::new(),
        },
        Concept {
            intents: vec!["a".to_string(), "b".to_string(), "c".to_string()],
            extents: vec!["4".to_string()],
        },
        Concept {
            intents: vec!["b".to_string(), "c".to_string()],
            extents: vec!["4".to_string(), "6".to_string()],
        },
    ];

    let actual = Lattice::from(input);
    let nodes = vec![
        Node {
            lower_neighbour_indices: Vec::new(),
            concept: Concept {
                intents: vec![
                    "a".to_string(),
                    "b".to_string(),
                    "c".to_string(),
                    "d".to_string(),
                    "e".to_string(),
                ],
                extents: Vec::new(),
            },
        },
        Node {
            lower_neighbour_indices: vec![0],
            concept: Concept {
                intents: vec!["a".to_string(), "b".to_string(), "c".to_string()],
                extents: vec!["4".to_string()],
            },
        },
        Node {
            lower_neighbour_indices: vec![0],
            concept: Concept {
                intents: vec!["b".to_string(), "d".to_string()],
                extents: vec!["1".to_string()],
            },
        },
        Node {
            lower_neighbour_indices: vec![0],
            concept: Concept {
                intents: vec!["b".to_string(), "e".to_string()],
                extents: vec!["2".to_string()],
            },
        },
        Node {
            lower_neighbour_indices: vec![1],
            concept: Concept {
                intents: vec!["b".to_string(), "c".to_string()],
                extents: vec!["4".to_string(), "6".to_string()],
            },
        },
        Node {
            lower_neighbour_indices: vec![3],
            concept: Concept {
                intents: vec!["e".to_string()],
                extents: vec!["2".to_string(), "7".to_string()],
            },
        },
        Node {
            lower_neighbour_indices: vec![2],
            concept: Concept {
                intents: vec!["d".to_string()],
                extents: vec!["1".to_string(), "5".to_string()],
            },
        },
        Node {
            lower_neighbour_indices: vec![4],
            concept: Concept {
                intents: vec!["c".to_string()],
                extents: vec!["3".to_string(), "4".to_string(), "6".to_string()],
            },
        },
        Node {
            lower_neighbour_indices: vec![2, 3, 4],
            concept: Concept {
                intents: vec!["b".to_string()],
                extents: vec![
                    "1".to_string(),
                    "2".to_string(),
                    "4".to_string(),
                    "6".to_string(),
                ],
            },
        },
        Node {
            lower_neighbour_indices: vec![5, 6, 7, 8],
            concept: Concept {
                intents: Vec::new(),
                extents: vec![
                    "1".to_string(),
                    "2".to_string(),
                    "3".to_string(),
                    "4".to_string(),
                    "5".to_string(),
                    "6".to_string(),
                    "7".to_string(),
                ],
            },
        },
    ];

    let expected = Lattice { nodes };

    assert_eq!(actual, expected);
}

#[test]
fn cmp_ranks_by_attributes_then_objects_then_numbers() {
    let top = concept(&[], &["1", "2"]);
    let left = concept(&["a"], &["1"]);
    let both = concept(&["a", "b"], &[]);

    // More attributes rank above; a concept ranks equal to itself.
    assert_eq!(top.cmp(&left), Ordering::Less);
    assert_eq!(left.cmp(&top), Ordering::Greater);
    assert_eq!(both.cmp(&left), Ordering::Greater);
    assert_eq!(left.cmp(&left), Ordering::Equal);
    assert_eq!(left.partial_cmp(&left), Some(Ordering::Equal));
    assert!(!left.ranks_below(&left));
    let nothing = concept(&[], &[]);
    assert_eq!(nothing.cmp(&nothing), Ordering::Equal);
    let turned = concept(&["b", "a"], &["2", "1"]);
    assert_eq!(turned.cmp(&concept(&["a", "b"], &["1", "2"])), Ordering::Equal);
    assert_eq!(left.partial_cmp(&top), Some(Ordering::Greater));
    assert!(top.ranks_below(&left));
    assert!(!left.ranks_below(&top));

    // Neither has the other's attributes: fewer objects rank above.
    let few = concept(&["a"], &["1"]);
    let many = concept(&["b"], &["1", "2"]);
    assert_eq!(few.cmp(&many), Ordering::Greater);
    assert_eq!(many.cmp(&few), Ordering::Less);

    // Nothing included either way: the numbers of attributes decide, then
    // the numbers of objects.
    let one = concept(&["a"], &["1", "2"]);
    let two = concept(&["b", "c"], &["3", "4"]);
    assert_eq!(one.cmp(&two), Ordering::Less);
    assert_eq!(two.cmp(&one), Ordering::Greater);
    let crowded = concept(&["a"], &["1", "2", "3"]);
    let sparse = concept(&["b"], &["4", "5"]);
    assert_eq!(crowded.cmp(&sparse), Ordering::Less);
    assert_eq!(sparse.cmp(&crowded), Ordering::Greater);
    let this = concept(&["a"], &["1"]);
    let that = concept(&["b"], &["2"]);
    assert_eq!(this.cmp(&that), Ordering::Equal);
}

#[test]
fn lattice_of_a_context_has_the_edges_of_its_order() {
    let context = fca::Context::from_csv(",a,b\n1,x,\n2,,x\n3,x,x").unwrap();
    let lattice = Lattice::from(context.concepts());
    let found: Vec<(Vec<String>, Vec<usize>)> = lattice
        .nodes
        .iter()
        .map(|n| (n.concept.intents.clone(), n.lower_neighbour_indices.clone()))
        .collect();
    let names = |list: &[&str]| -> Vec<String> { list.iter().map(|s| s.to_string()).collect() };

    assert_eq!(
        found,
        vec![
            (names(&["a", "b"]), vec![]),
            (names(&["a"]), vec![0]),
            (names(&["b"]), vec![0]),
            (names(&[]), vec![1, 2]),
        ]
    );
    // Every edge goes to a more specific node, and none follows from two.
    for (k, node) in lattice.nodes.iter().enumerate() {
        for &j in &node.lower_neighbour_indices {
            assert!(j < k);
            let below = &lattice.nodes[j].concept.intents;
            assert!(node.concept.intents.iter().all(|a| below.contains(a)));
            assert!(below.len() > node.concept.intents.len());
            for &i in &node.lower_neighbour_indices {
                assert!(!lattice.nodes[i].lower_neighbour_indices.contains(&j));
            }
        }
    }
}

#[test]
fn lattice_of_nothing_is_empty() {
    assert_eq!(Lattice::from(Vec::new()), Lattice { nodes: Vec::new() });
    let mut queue = ConceptQueue::new(Vec::new());
    assert_eq!(queue.len(), 0);
    assert_eq!(queue.pop(), None);
}

#[test]
fn lattice_lower_neighbours_are_the_direct_ones() {
    // A chain of three and one concept beside it.
    let input = vec![
        concept(&[], &["1", "2", "3"]),
        concept(&["a"], &["1", "2"]),
        concept(&["a", "b"], &["1"]),
        concept(&["a", "b", "c"], &[]),
        concept(&["c"], &["3"]),
    ];
    let lattice = Lattice::from(input);
    let found: Vec<(Vec<String>, Vec<usize>)> = lattice
        .nodes
        .iter()
        .map(|n| (n.concept.intents.clone(), n.lower_neighbour_indices.clone()))
        .collect();
    let names = |list: &[&str]| -> Vec<String> { list.iter().map(|s| s.to_string()).collect() };

    assert_eq!(
        found,
        vec![
            (names(&["a", "b", "c"]), vec![]),
            (names(&["a", "b"]), vec![0]),
            (names(&["c"]), vec![0]),
            (names(&["a"]), vec![1]),
            (names(&[]), vec![2, 3]),
        ]
    );
}
