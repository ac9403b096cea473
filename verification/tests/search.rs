use hanzi_search::ids::{IDSTable, Tag};
use hanzi_search::{
    find, match_pattern, pmatch, search_find, search_match, search_pmatch, try_search_find,
    try_search_match, try_search_pmatch, WILDCARD_CHAR,
};

fn named(label: &str) -> Tag {
    Tag::Variant(label.to_string())
}

fn table(content: &str) -> IDSTable {
    IDSTable::load_from_string(content).unwrap()
}

fn needles(texts: &[&str]) -> Vec<String> {
    texts.iter().map(|s| s.to_string()).collect()
}

#[test]
fn find_returns_the_records_that_contain_the_needle() {
    let t = table("0001 人 ⿰亻人\n0002 从 ⿰人人");
    assert_eq!(
        search_find(&t, &needles(&["人"])),
        Ok(vec![('人', named("")), ('从', named(""))])
    );
    assert_eq!(
        search_find(&t, &needles(&["亻"])),
        Ok(vec![('人', named("")), ('从', named(""))])
    );
}

#[test]
fn find_does_not_return_a_character_for_being_itself() {
    let t = table("0001 人 ⿰亻丿\n0002 从 ⿰人人");
    assert_eq!(search_find(&t, &needles(&["人"])), Ok(vec![('从', named(""))]));
    assert_eq!(search_find(&t, &needles(&["丿"])), Ok(vec![('人', named("")), ('从', named(""))]));
}

#[test]
fn find_asks_for_every_needle() {
    let t = table("1 从 ⿰人人\n2 仁 ⿰亻二\n3 伙 ⿰亻火\n4 众 ⿱人从");
    assert_eq!(
        search_find(&t, &needles(&["亻"])),
        Ok(vec![('仁', named("")), ('伙', named(""))])
    );
    assert_eq!(search_find(&t, &needles(&["亻", "火"])), Ok(vec![('伙', named(""))]));
    assert_eq!(search_find(&t, &needles(&["亻", "火", "二"])), Ok(vec![]));
    assert_eq!(
        search_find(&t, &needles(&["人", "⿰人人"])),
        Ok(vec![('从', named("")), ('众', named(""))])
    );
}

#[test]
fn find_without_needles_returns_every_record() {
    let t = table("2 从 ⿰人人 ⿱人人\n1 人 ⿰亻人[G]");
    assert_eq!(
        search_find(&t, &[]),
        Ok(vec![('人', named("G")), ('从', named("")), ('从', Tag::Anon(1))])
    );
}

#[test]
fn find_names_the_first_needle_that_is_no_tree() {
    let t = table("1 从 ⿰人人");
    assert_eq!(
        search_find(&t, &needles(&["人", "⿰a", "{"])),
        Err("Cannot parse needle ⿰a".to_string())
    );
    assert_eq!(
        search_find(&t, &needles(&["人[G]"])),
        Err("Cannot parse needle 人[G]".to_string())
    );
    assert_eq!(search_find(&t, &needles(&[""])), Err("Cannot parse needle ".to_string()));
}

#[test]
fn match_returns_the_records_that_match_the_pattern() {
    let t = table("0001 人 ⿰亻人\n0002 从 ⿰人人");
    assert_eq!(search_match(&t, "⿰人人"), Ok(vec![('从', named(""))]));
    assert_eq!(search_match(&t, "⿰亻人"), Ok(vec![('人', named(""))]));
    assert_eq!(search_match(&t, "⿱人人"), Ok(vec![]));
}

#[test]
fn match_takes_the_dot_as_wildcard() {
    assert_eq!(WILDCARD_CHAR, '.');
    let t = table("1 从 ⿰人人\n2 仁 ⿰亻二\n3 众 ⿱人从\n4 川 ⿲丿丨丨");
    assert_eq!(
        search_match(&t, "⿰.."),
        Ok(vec![('仁', named("")), ('从', named("")), ('川', named(""))])
    );
    assert_eq!(search_match(&t, "⿰亻."), Ok(vec![('仁', named(""))]));
    assert_eq!(
        search_match(&t, "."),
        Ok(vec![
            ('仁', named("")),
            ('从', named("")),
            ('众', named("")),
            ('川', named(""))
        ])
    );
    assert_eq!(search_match(&t, "⿱人⿰人人"), Ok(vec![('众', named(""))]));
    assert_eq!(search_match(&t, "⿰⿰丿丨丨"), Ok(vec![('川', named(""))]));
}

#[test]
fn match_lists_each_tag_of_a_character() {
    let t = table("1 好 ⿰女子[G] ⿰女子[T] ⿱女子[J] ⿰女子[G]");
    assert_eq!(
        search_match(&t, "⿰女子"),
        Ok(vec![('好', named("G")), ('好', named("T")), ('好', Tag::Anon(3))])
    );
}

#[test]
fn partial_match_returns_each_record_once() {
    let t = table("0001 人 ⿰亻丿\n0002 从 ⿰人人\n0003 众 ⿱人⿰人人");
    assert_eq!(
        search_pmatch(&t, "人"),
        Ok(vec![('人', named("")), ('从', named("")), ('众', named(""))])
    );
    assert_eq!(search_pmatch(&t, "亻"), Ok(vec![('人', named("")), ('从', named("")), ('众', named(""))]));
    assert_eq!(search_pmatch(&t, "⿰人人"), Ok(vec![('从', named("")), ('众', named(""))]));
    assert_eq!(search_pmatch(&t, "丿"), Ok(vec![('人', named("")), ('从', named("")), ('众', named(""))]));
    assert_eq!(search_pmatch(&t, "⿰.丿"), Ok(vec![('人', named("")), ('从', named("")), ('众', named(""))]));
}

#[test]
fn partial_match_on_the_two_line_dictionary() {
    let t = table("0001 人 ⿰亻人\n0002 从 ⿰人人");
    assert_eq!(
        search_pmatch(&t, "人"),
        Ok(vec![('人', named("")), ('从', named(""))])
    );
}

#[test]
fn a_pattern_that_is_no_tree_is_named_in_the_error() {
    let t = table("1 从 ⿰人人");
    assert_eq!(search_match(&t, "⿰人"), Err("Cannot parse pattern ⿰人".to_string()));
    assert_eq!(search_pmatch(&t, "人人"), Err("Cannot parse pattern 人人".to_string()));
    assert_eq!(search_match(&t, ""), Err("Cannot parse pattern ".to_string()));
}

#[test]
fn results_ascend_by_character_and_then_by_tag() {
    let t = table("9 从 ⿰人人[T] ⿰人人 ⿰人人[G] ⿰人人[T] ⿰人人\n1 丛 ⿱从一\n5 人 ⿰人人");
    assert_eq!(
        search_match(&t, "⿰人人"),
        Ok(vec![
            ('人', named("")),
            ('从', named("")),
            ('从', named("G")),
            ('从', named("T")),
            ('从', Tag::Anon(3)),
            ('从', Tag::Anon(4)),
        ])
    );
    let mut sorted = search_pmatch(&t, ".").unwrap();
    let listed = sorted.clone();
    sorted.sort();
    sorted.dedup();
    assert_eq!(listed, sorted);
    assert_eq!(listed.len(), 7);
}

#[test]
fn queries_report_character_and_tag_label() {
    let t = table("1 从 ⿰人人[G] ⿱人人 ⿰人人[G]\n2 仁 ⿰亻二");
    assert_eq!(find(&t, "人").results, vec!["从", "从G", "从"]);
    assert_eq!(find(&t, " 亻\t二 ").results, vec!["仁"]);
    assert_eq!(find(&t, "火").results, Vec::<String>::new());
    assert_eq!(find(&t, "").results, vec!["仁", "从", "从G", "从"]);
    assert_eq!(match_pattern(&t, "⿰人人").results, vec!["从G", "从"]);
    assert_eq!(match_pattern(&t, "⿱..").results, vec!["从"]);
    assert_eq!(pmatch(&t, "二").results, vec!["仁"]);
}

#[test]
fn queries_report_errors_as_one_text() {
    let t = table("1 从 ⿰人人");
    assert_eq!(find(&t, "人 ⿰a").results, vec!["Error: Cannot parse needle ⿰a"]);
    assert_eq!(match_pattern(&t, "⿰a").results, vec!["Error: Cannot parse pattern ⿰a"]);
    assert_eq!(pmatch(&t, "a b").results, vec!["Error: Cannot parse pattern a b"]);
}

#[test]
fn a_larger_dictionary_is_searched_in_order() {
    let mut content = String::new();
    for code in (0x4E00u32..0x4E00 + 300).rev() {
        let c = char::from_u32(code).unwrap();
        content.push_str(&format!("U+{:04X} {} ⿰亻{} ⿱{}一[G]\n", code, c, c, c));
    }
    let t = table(&content);
    assert!(!t.is_well_founded());
    let found = search_match(&t, "⿱.一").unwrap();
    assert_eq!(found.len(), 300);
    for (i, (c, tag)) in found.iter().enumerate() {
        assert_eq!(*c, char::from_u32(0x4E00 + i as u32).unwrap());
        assert_eq!(*tag, named("G"));
    }
    let both = search_match(&t, ".").unwrap();
    assert_eq!(both.len(), 600);
    let mut sorted = both.clone();
    sorted.sort();
    assert_eq!(both, sorted);
}

#[test]
fn a_guarded_search_answers_on_a_well_founded_table() {
    let t = table("1 从 ⿰人人\n2 众 ⿱人从\n3 仁 ⿰亻二");
    assert_eq!(
        try_search_find(&t, &needles(&["人"])),
        Some(Ok(vec![('从', named("")), ('众', named(""))]))
    );
    assert_eq!(
        try_search_find(&t, &needles(&["⿰a"])),
        Some(Err("Cannot parse needle ⿰a".to_string()))
    );
    assert_eq!(try_search_match(&t, "⿱人⿰人人"), Some(Ok(vec![('众', named(""))])));
    assert_eq!(
        try_search_match(&t, "⿱人"),
        Some(Err("Cannot parse pattern ⿱人".to_string()))
    );
    assert_eq!(
        try_search_pmatch(&t, "二"),
        Some(Ok(vec![('仁', named(""))]))
    );
    assert_eq!(
        try_search_pmatch(&t, ""),
        Some(Err("Cannot parse pattern ".to_string()))
    );
}

#[test]
fn a_guarded_search_declines_a_table_with_a_cycle() {
    let t = table("0001 人 ⿰亻人\n0002 从 ⿰人人");
    assert_eq!(try_search_find(&t, &needles(&["⿰人人"])), None);
    assert_eq!(try_search_find(&t, &needles(&["⿰"])), None);
    assert_eq!(try_search_match(&t, "⿰人人"), None);
    assert_eq!(try_search_pmatch(&t, "人"), None);
}
