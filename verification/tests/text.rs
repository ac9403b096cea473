use hanzi_search::ids::text::{
    char_at, chars_of, find_first, is_space, split_fields, string_between, text_less,
};
use hanzi_search::ids::Tag;

fn split(line: &str) -> Vec<String> {
    let chars = chars_of(line);
    split_fields(&chars, 0, chars.len())
}

#[test]
fn chars_of_lists_the_characters() {
    assert_eq!(chars_of("⿰亻人"), vec!['⿰', '亻', '人']);
    assert_eq!(chars_of(""), Vec::<char>::new());
    assert_eq!(char_at(&chars_of("a人b"), 1), '人');
}

#[test]
fn string_between_copies_a_range() {
    let chars = chars_of("0001 人 ⿰亻人");
    assert_eq!(string_between(&chars, 5, 6), "人");
    assert_eq!(string_between(&chars, 7, 10), "⿰亻人");
    assert_eq!(string_between(&chars, 3, 3), "");
}

#[test]
fn find_first_finds_the_first_occurrence() {
    let chars = chars_of("a}b}c");
    assert_eq!(find_first(&chars, 0, '}'), 1);
    assert_eq!(find_first(&chars, 1, '}'), 1);
    assert_eq!(find_first(&chars, 2, '}'), 3);
    assert_eq!(find_first(&chars, 4, '}'), 5);
    assert_eq!(find_first(&chars, 5, '}'), 5);
}

#[test]
fn fields_are_the_runs_between_whitespace() {
    assert_eq!(split("0001 人 ⿰亻人"), vec!["0001", "人", "⿰亻人"]);
    assert_eq!(split("  a\tb \u{3000}c\r"), vec!["a", "b", "c"]);
    assert_eq!(split(""), Vec::<String>::new());
    assert_eq!(split(" \t "), Vec::<String>::new());
    assert_eq!(split("abc"), vec!["abc"]);
    let chars = chars_of("ab cd ef");
    assert_eq!(split_fields(&chars, 1, 7), vec!["b", "cd", "e"]);
}

#[test]
fn fields_agree_with_split_whitespace() {
    for line in [
        "0001 人 ⿰亻人",
        "a  b\tc\u{00A0}d\u{2003}e\u{205F}f",
        "\u{0085}x\u{1680}y\u{2028}z\u{2029}",
        " leading and trailing ",
        "zero\u{200B}width",
    ] {
        let expected: Vec<String> = line.split_whitespace().map(|s| s.to_string()).collect();
        assert_eq!(split(line), expected, "{:?}", line);
    }
}

#[test]
fn whitespace_is_what_the_standard_library_calls_whitespace() {
    for code in 0u32..=0x10FFFF {
        if let Some(c) = char::from_u32(code) {
            assert_eq!(is_space(c), c.is_whitespace(), "U+{:04X}", code);
        }
    }
}

#[test]
fn texts_are_ordered_character_by_character() {
    assert!(text_less("", "a"));
    assert!(!text_less("", ""));
    assert!(!text_less("a", ""));
    assert!(text_less("a", "b"));
    assert!(text_less("a", "ab"));
    assert!(!text_less("ab", "a"));
    assert!(text_less("ab", "b"));
    assert!(!text_less("G", "G"));
    assert!(text_less("G", "T"));
    assert!(text_less("z", "人"));
    assert!(text_less("人", "\u{1F600}"));
}

#[test]
fn text_order_agrees_with_the_order_of_strings() {
    let samples = ["", "a", "ab", "b", "G", "GT", "T", "人", "从", "z人", "\u{1F600}", "é", "e"];
    for a in samples {
        for b in samples {
            assert_eq!(text_less(a, b), a < b, "{:?} < {:?}", a, b);
        }
    }
}

#[test]
fn tag_order_agrees_with_the_derived_order() {
    let samples = [
        Tag::Variant(String::new()),
        Tag::Variant("G".to_string()),
        Tag::Variant("GT".to_string()),
        Tag::Variant("T".to_string()),
        Tag::Variant("人".to_string()),
        Tag::Anon(0),
        Tag::Anon(1),
        Tag::Anon(7),
    ];
    for a in &samples {
        for b in &samples {
            assert_eq!(a.less_than(b), a < b, "{:?} < {:?}", a, b);
            assert_eq!(a == b, !(a < b) && !(b < a));
        }
    }
}

#[test]
fn a_tag_shows_its_label() {
    assert_eq!(Tag::Variant("G".to_string()).to_string(), "G");
    assert_eq!(Tag::Variant(String::new()).to_string(), "");
    assert_eq!(Tag::Anon(3).to_string(), "");
    assert_eq!(Tag::from("T".to_string()), Tag::Variant("T".to_string()));
    let tag = Tag::Variant("GT".to_string());
    assert_eq!(tag.clone(), tag);
    assert_eq!(Tag::Anon(2).clone(), Tag::Anon(2));
    assert_ne!(Tag::Anon(2), Tag::Anon(3));
    assert_ne!(Tag::Anon(0), Tag::Variant(String::new()));
}
