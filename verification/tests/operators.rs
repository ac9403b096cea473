use hanzi_search::ids::operator::{idc_arity, is_idc};
use hanzi_search::ids::{Direction, IDC};

const OPERATORS: &str = "⿰⿱⿲⿳⿴⿵⿶⿷⿸⿹⿺⿻⿼⿽⿾⿿㇯";

#[test]
fn new_accepts_exactly_the_operators() {
    for c in OPERATORS.chars() {
        assert!(IDC::new(c).is_some(), "{} is an operator", c);
        assert!(is_idc(c));
        assert_eq!(IDC::new(c).unwrap().code(), c);
    }
    assert_eq!(OPERATORS.chars().count(), 17);
    for c in ['a', '人', '{', '[', '.', '\u{2FEF}', '\u{3000}', '\u{31EE}', '\u{31F0}'] {
        assert!(IDC::new(c).is_none(), "{:?} is no operator", c);
        assert!(!is_idc(c));
    }
}

#[test]
fn new_agrees_with_the_operator_list_on_every_character() {
    for code in 0u32..=0x10FFFF {
        if let Some(c) = char::from_u32(code) {
            assert_eq!(is_idc(c), OPERATORS.contains(c));
        }
    }
}

#[test]
fn arity_is_one_two_or_three() {
    assert_eq!(IDC::new('⿾').unwrap().arity(), 1);
    assert_eq!(IDC::new('⿿').unwrap().arity(), 1);
    assert_eq!(IDC::new('⿲').unwrap().arity(), 3);
    assert_eq!(IDC::new('⿳').unwrap().arity(), 3);
    for c in "⿰⿱⿴⿵⿶⿷⿸⿹⿺⿻⿼⿽㇯".chars() {
        assert_eq!(IDC::new(c).unwrap().arity(), 2);
        assert_eq!(idc_arity(c), 2);
    }
    assert_eq!(idc_arity('⿾'), 1);
    assert_eq!(idc_arity('⿳'), 3);
}

#[test]
fn reduce_maps_ternary_to_binary() {
    assert_eq!(IDC::new('⿲').unwrap().reduce(), IDC::new('⿰'));
    assert_eq!(IDC::new('⿳').unwrap().reduce(), IDC::new('⿱'));
    for c in "⿰⿱⿴⿵⿶⿷⿸⿹⿺⿻⿼⿽⿾⿿㇯".chars() {
        assert_eq!(IDC::new(c).unwrap().reduce(), None);
    }
}

#[test]
fn direction_follows_the_operator() {
    assert_eq!(IDC::new('⿰').unwrap().direction(), Direction::Hort);
    assert_eq!(IDC::new('⿲').unwrap().direction(), Direction::Hort);
    assert_eq!(IDC::new('⿱').unwrap().direction(), Direction::Vert);
    assert_eq!(IDC::new('⿳').unwrap().direction(), Direction::Vert);
    for c in "⿴⿵⿶⿷⿸⿹⿺⿻⿼⿽⿾⿿㇯".chars() {
        assert_eq!(IDC::new(c).unwrap().direction(), Direction::Other);
    }
}

#[test]
fn same_direction_compares_directions() {
    let op = |c: char| IDC::new(c).unwrap();
    assert!(op('⿰').is_same_direction(op('⿲')));
    assert!(op('⿳').is_same_direction(op('⿱')));
    assert!(op('⿴').is_same_direction(op('⿻')));
    assert!(!op('⿰').is_same_direction(op('⿱')));
    assert!(!op('⿲').is_same_direction(op('⿴')));
}

#[test]
fn a_reduced_operator_keeps_the_direction_and_is_binary() {
    for c in ['⿲', '⿳'] {
        let op = IDC::new(c).unwrap();
        let reduced = op.reduce().unwrap();
        assert_eq!(reduced.arity(), 2);
        assert!(op.is_same_direction(reduced));
    }
}
