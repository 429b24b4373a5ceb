use fca::{lexical_m, next_closure};

#[test]
fn lexical_m_ordered() {
    let m = &[
        "a".to_string(),
        "b".to_string(),
        "c".to_string(),
        "d".to_string(),
    ];
    let a = &["a".to_string(), "b".to_string(), "d".to_string()];
    let b = &["a".to_string(), "b".to_string(), "c".to_string()];

    assert_eq!(lexical_m(m, a, b), 2);
}

#[test]
fn lexical_m_unordered() {
    let m = &[
        "d".to_string(),
        "b".to_string(),
        "a".to_string(),
        "c".to_string(),
    ];
    let a = &["d".to_string(), "b".to_string(), "a".to_string()];
    let b = &["d".to_string(), "b".to_string(), "c".to_string()];

    assert_eq!(lexical_m(m, a, b), 2);
}

#[test]
fn lexical_m_same_members() {
    let m = &["a".to_string(), "b".to_string()];
    let a = &["b".to_string(), "a".to_string(), "a".to_string()];
    let b = &["a".to_string(), "b".to_string(), "z".to_string()];

    assert_eq!(lexical_m(m, a, b), 2);
    assert_eq!(lexical_m(&[], a, b), 0);
}

#[test]
fn next_closure_jump() {
    let set = &[
        "running".to_string(),
        "artificial".to_string(),
        "small".to_string(),
    ];

    assert_eq!(
        next_closure(set, &[], |n| match n[0].as_str() {
            "small" => Some(vec!["artificial".to_string(), "small".to_string()]),
            "artificial" => Some(vec!["artificial".to_string()]),
            _ => panic!("unexpected input: {:?}", n),
        }),
        Some(vec!["artificial".to_string()])
    );
}

#[test]
fn next_closure_double() {
    let set = &[
        "running".to_string(),
        "artificial".to_string(),
        "small".to_string(),
    ];

    assert_eq!(
        next_closure(set, &["artificial".to_string()], |n| {
            match (n[0].as_str(), n[1].as_str()) {
                ("artificial", "small") => {
                    Some(vec!["artificial".to_string(), "small".to_string()])
                }
                _ => panic!("unexpected input: {:?}", n),
            }
        }),
        Some(vec!["artificial".to_string(), "small".to_string()])
    );
}

#[test]
fn next_closure_single() {
    let set = &[
        "running".to_string(),
        "artificial".to_string(),
        "small".to_string(),
    ];

    assert_eq!(
        next_closure(set, &["artificial".to_string(), "small".to_string()], |n| {
            match n[0].as_str() {
                "running" => Some(vec!["running".to_string()]),
                _ => panic!("unexpected input: {:?}", n),
            }
        }),
        Some(vec!["running".to_string()])
    );
}

#[test]
fn next_closure_end() {
    let set = &[
        "running".to_string(),
        "artificial".to_string(),
        "small".to_string(),
    ];

    assert_eq!(
        next_closure(
            set,
            &[
                "running".to_string(),
                "artificial".to_string(),
                "small".to_string()
            ],
            |n| panic!("unexpected input: {:?}", n)
        ),
        None
    );
}

#[test]
fn next_closure_asks_only_where_the_scan_comes() {
    // The closure knows one candidate only; the scan stops there.
    let set = &["a".to_string(), "b".to_string(), "c".to_string()];
    let subset = &["a".to_string(), "c".to_string()];

    assert_eq!(
        next_closure(set, subset, |n| {
            assert_eq!(n.to_vec(), vec!["a".to_string(), "b".to_string()]);
            Some(vec!["a".to_string(), "b".to_string()])
        }),
        Some(vec!["a".to_string(), "b".to_string()])
    );
}

#[test]
fn next_closure_walks_every_subset_in_lectic_order() {
    // With the identity as closure every subset is closed, so the walk is a
    // count in base two over the positions, the first position the highest.
    let set = vec!["a".to_string(), "b".to_string(), "c".to_string()];
    let mut seen: Vec<Vec<String>> = Vec::new();
    let mut current: Option<Vec<String>> = Some(Vec::new());
    while let Some(subset) = current {
        seen.push(subset.clone());
        current = next_closure(&set, &subset, |n| Some(n.to_vec()));
    }

    let expected: Vec<Vec<&str>> = vec![
        vec![],
        vec!["c"],
        vec!["b"],
        vec!["b", "c"],
        vec!["a"],
        vec!["a", "c"],
        vec!["a", "b"],
        vec!["a", "b", "c"],
    ];
    assert_eq!(seen, expected);
}
