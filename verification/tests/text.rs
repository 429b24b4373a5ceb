use fca::names::{contains_name, includes_all, position_of, restrict_names, same_sequence};
use fca::order::{insert_sorted, name_before};
use fca::text::{cell_marks, decimal_name, is_whitespace, trim};

fn names(list: &[&str]) -> Vec<String> {
    list.iter().map(|s| s.to_string()).collect()
}

#[test]
fn decimal_name_writes_numbers_without_leading_zeros() {
    assert_eq!(decimal_name(0), "0");
    assert_eq!(decimal_name(7), "7");
    assert_eq!(decimal_name(10), "10");
    assert_eq!(decimal_name(1203), "1203");
    assert_eq!(decimal_name(usize::MAX), usize::MAX.to_string());
}

#[test]
fn trim_takes_white_space_from_both_ends_only() {
    assert_eq!(trim("  a b \t\n"), "a b");
    assert_eq!(trim(""), "");
    assert_eq!(trim(" \u{2003} "), "");
    assert_eq!(trim("x"), "x");
    assert_eq!(trim("\u{a0}é \u{3000}"), "é");
}

#[test]
fn is_whitespace_is_that_of_char() {
    let mut spaces = 0;
    for code in 0..=0x10ffffu32 {
        if let Some(c) = char::from_u32(code) {
            assert_eq!(is_whitespace(c), c.is_whitespace(), "code point {:x}", code);
            if is_whitespace(c) {
                spaces += 1;
            }
        }
    }
    assert_eq!(spaces, 25);
}

#[test]
fn cell_marks_takes_the_letter_x_alone() {
    assert!(cell_marks("X"));
    assert!(cell_marks(" x "));
    assert!(!cell_marks(""));
    assert!(!cell_marks("xx"));
    assert!(!cell_marks("y"));
    assert!(!cell_marks("x y"));
}

#[test]
fn name_before_is_the_order_of_strings() {
    let samples = ["", "a", "A", "ab", "b", "é", "z", "10", "9", "\u{10000}", "\u{ffff}"];
    for a in samples {
        for b in samples {
            assert_eq!(name_before(a, b), a < b, "{:?} before {:?}", a, b);
        }
    }
}

#[test]
fn insert_sorted_keeps_order_and_drops_repeats() {
    let mut held = names(&["b", "d"]);
    insert_sorted(&mut held, "c".to_string());
    insert_sorted(&mut held, "a".to_string());
    insert_sorted(&mut held, "e".to_string());
    insert_sorted(&mut held, "c".to_string());

    assert_eq!(held, names(&["a", "b", "c", "d", "e"]));
}

#[test]
fn name_sets_are_compared_by_what_they_hold() {
    let held = names(&["a", "b", "a"]);

    assert!(contains_name(&held, &"b".to_string()));
    assert!(!contains_name(&held, &"c".to_string()));
    assert_eq!(position_of(&held, &"a".to_string()), Some(0));
    assert_eq!(position_of(&held, &"c".to_string()), None);
    assert!(includes_all(&names(&["b", "b", "a"]), &held));
    assert!(!includes_all(&names(&["b", "c"]), &held));
    assert!(includes_all(&[], &held));
    assert!(same_sequence(&held, &names(&["a", "b", "a"])));
    assert!(!same_sequence(&held, &names(&["a", "b"])));
    assert_eq!(
        restrict_names(&names(&["c", "a", "x", "b", "a"]), &names(&["a", "b"])),
        names(&["a", "b", "a"])
    );
}
