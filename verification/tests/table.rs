use hanzi_search::ids::loader::RecordError;
use hanzi_search::ids::{parse, parse_tagged, IDSTable, Tag, IDS};

fn named(label: &str) -> Tag {
    Tag::Variant(label.to_string())
}

fn tree(text: &str) -> IDS {
    parse(text).unwrap()
}

#[test]
fn a_new_table_is_empty() {
    let table = IDSTable::new();
    assert!(table.iter().is_empty());
    assert_eq!(table.get('人', &named("")), None);
    assert!(IDSTable::default().iter().is_empty());
    assert!(IDSTable::load_from_string("").unwrap().iter().is_empty());
}

#[test]
fn load_from_string_reads_one_record_per_line() {
    let table = IDSTable::load_from_string("0001 人 ⿰亻人\n0002 从 ⿰人人\n").unwrap();
    assert_eq!(table.get('人', &named("")), Some(&tree("⿰亻人")));
    assert_eq!(table.get('从', &named("")), Some(&tree("⿰人人")));
    assert_eq!(table.get('亻', &named("")), None);
    assert_eq!(table.get('人', &named("G")), None);
    assert_eq!(table.get('人', &Tag::Anon(0)), None);
    assert_eq!(table.iter().len(), 2);
}

#[test]
fn the_code_column_is_ignored_and_the_character_is_the_first_of_its_field() {
    let table = IDSTable::load_from_string("U+4EBA 人x ⿰亻人\n⿰ 从 ⿰人人").unwrap();
    assert_eq!(table.get('人', &named("")), Some(&tree("⿰亻人")));
    assert_eq!(table.get('从', &named("")), Some(&tree("⿰人人")));
    assert_eq!(table.get('x', &named("")), None);
}

#[test]
fn line_ends_and_blank_lines_do_not_matter() {
    let table =
        IDSTable::load_from_string("\r\n0001\t人  ⿰亻人\r\n\n   \n0002 从 ⿰人人[G]\r").unwrap();
    assert_eq!(table.get('人', &named("")), Some(&tree("⿰亻人")));
    assert_eq!(table.get('从', &named("G")), Some(&tree("⿰人人")));
    assert_eq!(table.iter().len(), 2);
}

#[test]
fn a_second_entry_under_a_taken_tag_becomes_anonymous() {
    let table = IDSTable::load_from_string("0001 好 ⿰女子 ⿱女子").unwrap();
    assert_eq!(table.get('好', &named("")), Some(&tree("⿰女子")));
    assert_eq!(table.get('好', &Tag::Anon(1)), Some(&tree("⿱女子")));
    assert_eq!(table.get('好', &Tag::Anon(0)), None);
    assert_eq!(table.iter().len(), 2);
}

#[test]
fn a_repeated_label_across_records_becomes_anonymous() {
    let table =
        IDSTable::load_from_string("1 好 ⿰女子[G]\n2 好 ⿱女子[T] ⿰a子[G]\n3 好 ⿰b子[G]").unwrap();
    assert_eq!(table.get('好', &named("G")), Some(&tree("⿰女子")));
    assert_eq!(table.get('好', &named("T")), Some(&tree("⿱女子")));
    assert_eq!(table.get('好', &Tag::Anon(2)), Some(&tree("⿰a子")));
    assert_eq!(table.get('好', &Tag::Anon(3)), Some(&tree("⿰b子")));
    assert_eq!(table.get('好', &Tag::Anon(1)), None);
    let tags: Vec<Tag> = table.iter().into_iter().map(|(_, tag, _)| tag.clone()).collect();
    assert_eq!(tags, vec![named("G"), named("T"), Tag::Anon(2), Tag::Anon(3)]);
}

#[test]
fn insert_stores_under_the_tag_or_a_fresh_anonymous_one() {
    let mut table = IDSTable::new();
    table.insert('好', parse_tagged("⿰女子").unwrap());
    table.insert('好', parse_tagged("⿱女子[G]").unwrap());
    table.insert('好', parse_tagged("⿰a子").unwrap());
    table.insert('人', parse_tagged("人").unwrap());
    assert_eq!(table.get('好', &named("")), Some(&tree("⿰女子")));
    assert_eq!(table.get('好', &named("G")), Some(&tree("⿱女子")));
    assert_eq!(table.get('好', &Tag::Anon(2)), Some(&tree("⿰a子")));
    assert_eq!(table.get('人', &named("")), Some(&IDS::Char('人')));
    assert_eq!(table.iter().len(), 4);
}

#[test]
fn iter_lists_every_record_once() {
    let table = IDSTable::load_from_string("1 人 ⿰亻人\n2 从 ⿰人人 ⿱人人\n3 人 人[G]").unwrap();
    let mut seen: Vec<(char, Tag, IDS)> = table
        .iter()
        .into_iter()
        .map(|(c, tag, ids)| (c, tag.clone(), ids.clone()))
        .collect();
    seen.sort_by(|a, b| (a.0, &a.1).cmp(&(b.0, &b.1)));
    assert_eq!(
        seen,
        vec![
            ('人', named(""), tree("⿰亻人")),
            ('人', named("G"), tree("人")),
            ('从', named(""), tree("⿰人人")),
            ('从', Tag::Anon(1), tree("⿱人人")),
        ]
    );
}

#[test]
fn a_short_record_is_reported_and_changes_nothing() {
    let mut table = IDSTable::new();
    for line in ["", "   ", "0001", "0001 人", "\t0001\t人\t"] {
        assert_eq!(table.load_record(line), Err(RecordError::TooShort), "{:?}", line);
    }
    assert!(table.iter().is_empty());
}

#[test]
fn an_unparsed_decomposition_is_skipped_and_counted() {
    let mut table = IDSTable::new();
    assert_eq!(
        table.load_record("0001 人 ⿰亻 ⿰亻人 {x ⿱a人[G]"),
        Err(RecordError::Unparsed(2))
    );
    assert_eq!(table.get('人', &named("")), Some(&tree("⿰亻人")));
    assert_eq!(table.get('人', &named("G")), Some(&tree("⿱a人")));
    assert_eq!(table.iter().len(), 2);
    assert_eq!(table.load_record("0002 从 ⿰人人"), Ok(()));
    assert_eq!(table.load_record("0003 众 [G]"), Err(RecordError::Unparsed(1)));
    assert_eq!(table.iter().len(), 3);
}

#[test]
fn an_unparsed_decomposition_takes_no_tag() {
    let table = IDSTable::load_from_string("1 好 ⿰女 ⿰女子 ⿱女子").unwrap();
    assert_eq!(table.get('好', &named("")), Some(&tree("⿰女子")));
    assert_eq!(table.get('好', &Tag::Anon(1)), Some(&tree("⿱女子")));
}

#[test]
fn load_text_reports_whether_the_text_parsed() {
    let mut table = IDSTable::new();
    assert!(table.load_text('人', "⿰亻人[G]"));
    assert!(!table.load_text('人', "⿰亻"));
    assert!(!table.load_text('人', "⿰亻人[]"));
    assert_eq!(table.iter().len(), 1);
    assert_eq!(table.get('人', &named("G")), Some(&tree("⿰亻人")));
}

#[test]
fn expand_gives_the_first_tree_that_is_not_the_character_itself() {
    let table = IDSTable::load_from_string("1 人 人 ⿰亻丿[G] ⿱a b\n2 丿 丿\n3 从 ⿰人人").unwrap();
    assert_eq!(table.expand('人'), Some(&tree("⿰亻丿")));
    assert_eq!(table.expand('丿'), None);
    assert_eq!(table.expand('从'), Some(&tree("⿰人人")));
    assert_eq!(table.expand('亻'), None);
}

#[test]
fn a_cloned_table_holds_the_same_records() {
    let table = IDSTable::load_from_string("1 人 ⿰亻人\n2 从 ⿰人人").unwrap();
    let copy = table.clone();
    assert_eq!(copy.get('人', &named("")), Some(&tree("⿰亻人")));
    assert_eq!(copy.iter().len(), 2);
}

#[test]
fn a_table_without_cycles_is_well_founded() {
    assert!(IDSTable::new().is_well_founded());
    for content in [
        "1 从 ⿰人人\n2 众 ⿱人从\n3 丛 ⿱从一",
        "1 人 人\n2 从 ⿰人人",
        "1 人 人 ⿰亻丿\n2 丿 丿\n3 从 ⿰人人\n4 众 ⿱人从",
        "3 丛 ⿱从一\n2 众 ⿱人从\n1 从 ⿰人人",
        "1 a ⿰bc\n2 b ⿰cd\n3 c ⿰de\n4 d ⿰ee\n5 e {x}",
        "1 好 ⿰女子 ⿱好好",
    ] {
        assert!(IDSTable::load_from_string(content).unwrap().is_well_founded(), "{}", content);
    }
}

#[test]
fn a_table_with_a_cycle_is_not_well_founded() {
    for content in [
        "0001 人 ⿰亻人\n0002 从 ⿰人人",
        "1 a ⿰bc\n2 b ⿰cd\n3 c ⿰da\n4 d {x}",
        "1 a b\n2 b a",
        "1 a a ⿱ab",
        "1 k ⿰⿰kkk",
        "1 x ⿰yz\n2 好 ⿱好好 ⿰女子",
    ] {
        assert!(!IDSTable::load_from_string(content).unwrap().is_well_founded(), "{}", content);
    }
}
