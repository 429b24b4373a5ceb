use fca::implications::{preclosure_operator, Implication};

#[test]
fn preclosure_operator_empty() {
    let basis = [Implication {
        premise: vec!["a".to_string()],
        conclusion: vec!["b".to_string()],
    }];
    let set = [];

    let actual = preclosure_operator(&basis, &set);
    let expected: [&str; 0] = [];

    assert_eq!(actual, expected);
}

#[test]
fn preclosure_operator_non_matching() {
    let basis = [Implication {
        premise: vec!["a".to_string()],
        conclusion: vec!["b".to_string()],
    }];
    let set = ["c".to_string()];

    let actual = preclosure_operator(&basis, &set);
    let expected = ["c"];

    assert_eq!(actual, expected);
}

#[test]
fn preclosure_operator_matching() {
    let basis = [Implication {
        premise: vec!["a".to_string()],
        conclusion: vec!["b".to_string()],
    }];
    let set = ["a".to_string()];

    let actual = preclosure_operator(&basis, &set);
    let expected = ["a", "b"];

    assert_eq!(actual, expected);
}

#[test]
fn preclosure_operator_recursive() {
    let basis = [
        Implication {
            premise: vec!["a".to_string()],
            conclusion: vec!["b".to_string()],
        },
        Implication {
            premise: vec!["a".to_string(), "b".to_string()],
            conclusion: vec!["c".to_string(), "d".to_string()],
        },
    ];
    let set = ["a".to_string()];

    let actual = preclosure_operator(&basis, &set);
    let expected = ["a", "b", "c", "d"];

    assert_eq!(actual, expected);
}

#[test]
fn preclosure_operator_recursive_multiple() {
    let basis = [
        Implication {
            premise: vec!["a".to_string()],
            conclusion: vec!["b".to_string()],
        },
        Implication {
            premise: vec!["a".to_string(), "b".to_string()],
            conclusion: vec!["c".to_string(), "d".to_string()],
        },
        Implication {
            premise: vec!["c".to_string()],
            conclusion: vec!["d".to_string()],
        },
    ];
    let set = ["a".to_string()];

    let actual = preclosure_operator(&basis, &set);
    // "d" should not appear twice
    let expected = ["a", "b", "c", "d"];

    assert_eq!(actual, expected);
}

#[test]
fn preclosure_operator_recursive_multiple_unordered() {
    let basis = [
        Implication {
            premise: vec!["a".to_string()],
            conclusion: vec!["b".to_string()],
        },
        Implication {
            premise: vec!["b".to_string(), "a".to_string()],
            conclusion: vec!["d".to_string(), "c".to_string()],
        },
        Implication {
            premise: vec!["c".to_string()],
            conclusion: vec!["d".to_string()],
        },
    ];
    let set = ["a".to_string()];

    let actual = preclosure_operator(&basis, &set);
    // "d" should not appear twice
    let expected = ["a", "b", "c", "d"];

    assert_eq!(actual, expected);
}

#[test]
fn preclosure_operator_fires_late_rules_first() {
    // The rule that fires stands after the rule that it enables.
    let basis = [
        Implication {
            premise: vec!["b".to_string()],
            conclusion: vec!["c".to_string()],
        },
        Implication {
            premise: vec!["a".to_string()],
            conclusion: vec!["b".to_string()],
        },
    ];
    let set = ["a".to_string()];

    assert_eq!(preclosure_operator(&basis, &set), ["a", "b", "c"]);
}

#[test]
fn preclosure_operator_sorts_and_drops_repeats() {
    let basis: [Implication; 0] = [];
    let set = [
        "pear".to_string(),
        "apple".to_string(),
        "pear".to_string(),
        "app".to_string(),
        "Zebra".to_string(),
    ];

    assert_eq!(
        preclosure_operator(&basis, &set),
        ["Zebra", "app", "apple", "pear"]
    );
}

#[test]
fn preclosure_operator_empty_premise_fires_on_nothing() {
    let basis = [Implication {
        premise: Vec::new(),
        conclusion: vec!["b".to_string()],
    }];
    let set = [];

    assert_eq!(preclosure_operator(&basis, &set), ["b"]);
}

#[test]
fn preclosure_operator_is_idempotent() {
    let basis = [
        Implication {
            premise: vec!["a".to_string()],
            conclusion: vec!["b".to_string()],
        },
        Implication {
            premise: vec!["b".to_string(), "x".to_string()],
            conclusion: vec!["y".to_string()],
        },
    ];
    let once = preclosure_operator(&basis, &["a".to_string(), "x".to_string()]);
    let twice = preclosure_operator(&basis, &once);

    assert_eq!(once, ["a", "b", "x", "y"]);
    assert_eq!(twice, once);
}
