use hanzi_search::ids::{parse, IDSTable, IDC, IDS};

fn tree(text: &str) -> IDS {
    parse(text).unwrap()
}

fn table(content: &str) -> IDSTable {
    IDSTable::load_from_string(content).unwrap()
}

fn matches(table: &IDSTable, a: &str, b: &str) -> bool {
    table.ids_match(&tree(a), &tree(b), '.')
}

#[test]
fn the_wildcard_matches_every_tree() {
    let t = table("1 从 ⿰人人");
    for text in ["人", "{柬中}", "⿰亻人", "⿲abc", "从", "."] {
        assert!(matches(&t, text, "."), "{}", text);
        assert!(matches(&t, ".", text), "{}", text);
    }
    assert!(t.ids_match(&tree("⿰亻人"), &IDS::Char('*'), '*'));
    assert!(!t.ids_match(&tree("⿰亻人"), &IDS::Char('.'), '*'));
}

#[test]
fn atoms_match_by_character_and_opaque_components_by_label() {
    let t = IDSTable::new();
    assert!(matches(&t, "人", "人"));
    assert!(!matches(&t, "人", "从"));
    assert!(matches(&t, "{柬中}", "{柬中}"));
    assert!(!matches(&t, "{柬中}", "{柬}"));
    assert!(!matches(&t, "{人}", "人"));
    assert!(!matches(&t, "人", "{人}"));
    assert!(!matches(&t, "{a}", "⿰ab"));
    assert!(!matches(&t, "⿰ab", "{a}"));
}

#[test]
fn compositions_under_one_operator_match_child_by_child() {
    let t = IDSTable::new();
    assert!(matches(&t, "⿰亻人", "⿰亻人"));
    assert!(!matches(&t, "⿰亻人", "⿰亻从"));
    assert!(!matches(&t, "⿰亻人", "⿱亻人"));
    assert!(matches(&t, "⿰.人", "⿰亻人"));
    assert!(matches(&t, "⿰亻人", "⿰亻."));
    assert!(matches(&t, "⿰⿱ab{c}", "⿰⿱a.{c}"));
    assert!(!matches(&t, "⿰⿱ab{c}", "⿰⿱a.{d}"));
    assert!(matches(&t, "⿲abc", "⿲abc"));
    assert!(!matches(&t, "⿲abc", "⿲abd"));
    assert!(!matches(&t, "⿴ab", "⿵ab"));
}

#[test]
fn an_atom_matches_a_composition_through_its_expansion() {
    let t = table("1 从 ⿰人人\n2 众 ⿱人从");
    assert!(matches(&t, "从", "⿰人人"));
    assert!(matches(&t, "⿰人人", "从"));
    assert!(!matches(&t, "从", "⿱人人"));
    assert!(matches(&t, "众", "⿱人⿰人人"));
    assert!(matches(&t, "⿱人⿰人人", "众"));
    assert!(matches(&t, "⿱人从", "⿱人⿰人人"));
    assert!(!matches(&t, "人", "⿰人人"));
    assert!(!matches(&t, "从", "人"));
}

#[test]
fn an_entry_that_is_the_character_itself_is_no_expansion() {
    let t = table("1 人 人\n2 从 从 ⿰人人[G]");
    assert!(!matches(&t, "人", "⿰人人"));
    assert!(!matches(&t, "⿰人人", "人"));
    assert!(matches(&t, "从", "⿰人人"));
}

#[test]
fn only_the_first_expansion_is_tried() {
    let t = table("1 好 ⿰女子 ⿱女子");
    assert!(matches(&t, "好", "⿰女子"));
    assert!(!matches(&t, "好", "⿱女子"));
    assert!(!matches(&t, "⿱女子", "好"));
}

#[test]
fn a_ternary_composition_matches_its_regroupings() {
    let t = IDSTable::new();
    assert!(matches(&t, "⿲abc", "⿰⿰abc"));
    assert!(matches(&t, "⿲abc", "⿰a⿰bc"));
    assert!(matches(&t, "⿳abc", "⿱⿱abc"));
    assert!(matches(&t, "⿳abc", "⿱a⿱bc"));
    assert!(matches(&t, "⿰⿰abc", "⿲abc"));
    assert!(matches(&t, "⿱a⿱bc", "⿳abc"));
    assert!(!matches(&t, "⿲abc", "⿱⿱abc"));
    assert!(!matches(&t, "⿲abc", "⿰⿱abc"));
    assert!(!matches(&t, "⿲abc", "⿰⿰acb"));
    assert!(!matches(&t, "⿲abc", "⿰ab"));
    assert!(!matches(&t, "⿳abc", "⿴⿱abc"));
    assert!(matches(&t, "⿲a.c", "⿰⿰abc"));
    assert!(matches(&t, "⿲{x}⿱pq.", "⿰{x}⿰⿱pqz"));
}

#[test]
fn regrouping_sees_through_expansions() {
    let t = table("1 从 ⿰人人");
    assert!(matches(&t, "⿲人人c", "⿰从c"));
    assert!(matches(&t, "⿰从c", "⿲人人c"));
    assert!(matches(&t, "⿲c人人", "⿰c从"));
    assert!(!matches(&t, "⿲人c人", "⿰c从"));
}

#[test]
fn matching_does_not_depend_on_the_order_of_the_trees() {
    let t = table("1 从 ⿰人人\n2 众 ⿱人从\n3 好 ⿰女子 ⿱女子");
    let samples = [
        "人", "从", "众", "好", ".", "{从}", "⿰人人", "⿱人从", "⿱人⿰人人", "⿲人人人", "⿰从人",
        "⿰人从", "⿰女子", "⿱女子", "⿰.人",
    ];
    for a in samples {
        for b in samples {
            assert_eq!(matches(&t, a, b), matches(&t, b, a), "{} / {}", a, b);
        }
    }
}

#[test]
fn every_tree_matches_itself() {
    let t = table("1 从 ⿰人人\n2 众 ⿱人从");
    for text in ["人", "从", "{a}", "⿰人人", "⿲从众人", "⿱⿰ab⿾c"] {
        assert!(matches(&t, text, text), "{}", text);
    }
}

fn has_match(table: &IDSTable, a: &str, b: &str) -> bool {
    table.ids_has_matching_subcomponent(&tree(a), &tree(b), '.')
}

#[test]
fn a_tree_that_matches_has_a_match() {
    let t = table("1 从 ⿰人人");
    assert!(has_match(&t, "人", "人"));
    assert!(has_match(&t, "从", "⿰人人"));
    assert!(has_match(&t, "{a}", "{a}"));
    assert!(has_match(&t, "⿰亻人", "."));
    assert!(has_match(&t, "⿰亻人", "⿰.人"));
    assert!(!has_match(&t, "人", "亻"));
    assert!(!has_match(&t, "{a}", "{b}"));
    assert!(!has_match(&t, "{a}", "a"));
}

#[test]
fn a_composition_has_a_match_where_a_child_has() {
    let t = IDSTable::new();
    assert!(has_match(&t, "⿰亻人", "人"));
    assert!(has_match(&t, "⿰亻人", "亻"));
    assert!(has_match(&t, "⿱a⿰b⿲cde", "e"));
    assert!(has_match(&t, "⿱a⿰b⿲cde", "⿲c.e"));
    assert!(has_match(&t, "⿱a⿰b⿲cde", "⿰b⿰⿰cde"));
    assert!(has_match(&t, "⿱a{x}", "{x}"));
    assert!(!has_match(&t, "⿱a⿰b⿲cde", "f"));
    assert!(!has_match(&t, "⿱a⿰b⿲cde", "⿰cd"));
}

#[test]
fn an_atom_has_a_match_where_its_expansion_has() {
    let t = table("1 从 ⿰人人\n2 众 ⿱人从\n3 丛 ⿱从一");
    assert!(has_match(&t, "从", "人"));
    assert!(has_match(&t, "众", "从"));
    assert!(has_match(&t, "丛", "人"));
    assert!(has_match(&t, "⿰亻丛", "⿰人人"));
    assert!(has_match(&t, "丛", "一"));
    assert!(has_match(&t, "丛", "{x}") == false);
    assert!(!has_match(&t, "丛", "众"));
    assert!(!has_match(&t, "人", "从"));
}

fn contains(table: &IDSTable, haystack: &str, needle: &str) -> bool {
    table.ids_has_subcomponent(&tree(haystack), &tree(needle))
}

#[test]
fn every_tree_contains_itself() {
    let t = table("1 从 ⿰人人\n2 人 ⿰亻人");
    for text in ["人", "从", "{a}", "⿰人人", "⿲从众人", ".", "⿱⿰ab⿾c"] {
        assert!(contains(&t, text, text), "{}", text);
    }
}

#[test]
fn containment_knows_no_wildcard_and_no_regrouping() {
    let t = IDSTable::new();
    assert!(!contains(&t, "⿰亻人", "."));
    assert!(!contains(&t, "⿰亻人", "⿰.人"));
    assert!(!contains(&t, "⿲abc", "⿰⿰abc"));
    assert!(!contains(&t, "⿱x⿲abc", "⿰ab"));
    assert!(contains(&t, "⿱x⿲abc", "⿲abc"));
}

#[test]
fn a_composition_contains_what_a_child_contains() {
    let t = IDSTable::new();
    assert!(contains(&t, "⿰亻人", "人"));
    assert!(contains(&t, "⿰亻人", "亻"));
    assert!(contains(&t, "⿱a⿰b⿲cd{e}", "{e}"));
    assert!(contains(&t, "⿱a⿰b⿲cd{e}", "⿰b⿲cd{e}"));
    assert!(!contains(&t, "⿱a⿰b⿲cd{e}", "e"));
    assert!(!contains(&t, "{人}", "人"));
    assert!(!contains(&t, "人", "{人}"));
    assert!(!contains(&t, "人", "⿰亻人"));
}

#[test]
fn an_atom_contains_what_its_expansion_contains() {
    let t = table("1 从 ⿰人人\n2 众 ⿱人从\n3 丿 丿");
    assert!(contains(&t, "从", "人"));
    assert!(contains(&t, "众", "从"));
    assert!(contains(&t, "众", "⿰人人"));
    assert!(contains(&t, "⿰亻众", "人"));
    assert!(!contains(&t, "众", "亻"));
    assert!(!contains(&t, "人", "从"));
    assert!(!contains(&t, "丿", "人"));
    assert!(contains(&t, "丿", "丿"));
}

#[test]
fn containment_follows_only_the_first_expansion() {
    let t = table("1 好 ⿰女子 ⿱女马");
    assert!(contains(&t, "好", "子"));
    assert!(!contains(&t, "好", "马"));
    assert!(!contains(&t, "好", "⿱女马"));
}

#[test]
fn a_character_contains_what_its_atom_contains() {
    let t = table("1 从 ⿰人人\n2 众 ⿱人从");
    assert!(t.char_has_subcomponent('众', &IDS::Char('人')));
    assert!(t.char_has_subcomponent('众', &IDS::Char('众')));
    assert!(t.char_has_subcomponent('从', &tree("⿰人人")));
    assert!(!t.char_has_subcomponent('人', &IDS::Char('从')));
    assert!(!t.char_has_subcomponent('从', &IDS::Char('亻')));
}

#[test]
fn trees_built_by_hand_match_like_parsed_ones() {
    let t = IDSTable::new();
    let op = |c: char| IDC::new(c).unwrap();
    let ternary = IDS::Composition {
        idc: op('⿲'),
        children: vec![IDS::Char('a'), IDS::Char('b'), IDS::Char('c')],
    };
    let front = IDS::Composition {
        idc: op('⿰'),
        children: vec![
            IDS::Composition {
                idc: op('⿰'),
                children: vec![IDS::Char('a'), IDS::Char('b')],
            },
            IDS::Char('c'),
        ],
    };
    let back = IDS::Composition {
        idc: op('⿰'),
        children: vec![
            IDS::Char('a'),
            IDS::Composition {
                idc: op('⿰'),
                children: vec![IDS::Char('b'), IDS::Char('c')],
            },
        ],
    };
    assert!(t.ids_match(&ternary, &front, '.'));
    assert!(t.ids_match(&ternary, &back, '.'));
    assert!(!t.ids_match(&front, &back, '.'));
}

#[test]
fn a_tree_is_well_formed_where_every_arity_holds() {
    for text in ["人", "{a}", "⿰ab", "⿲abc", "⿾a", "⿱⿰ab⿲cde"] {
        assert!(tree(text).is_well_formed(), "{}", text);
    }
    let op = |c: char| IDC::new(c).unwrap();
    let short = IDS::Composition {
        idc: op('⿲'),
        children: vec![IDS::Char('a'), IDS::Char('b')],
    };
    assert!(!short.is_well_formed());
    let long = IDS::Composition {
        idc: op('⿾'),
        children: vec![IDS::Char('a'), IDS::Char('b')],
    };
    assert!(!long.is_well_formed());
    let nested = IDS::Composition {
        idc: op('⿰'),
        children: vec![IDS::Char('a'), short],
    };
    assert!(!nested.is_well_formed());
    let empty = IDS::Composition {
        idc: op('⿰'),
        children: vec![],
    };
    assert!(!empty.is_well_formed());
}
