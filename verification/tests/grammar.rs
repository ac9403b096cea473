use hanzi_search::ids::{
    parse, parse_tagged, parser_ids, parser_tagged_ids, ParseError, Tag, TaggedIDS, IDC, IDS,
};

#[test]
fn parse_ids_special() {
    let input = "{柬中}";
    let (_, ids) = parser_ids(input).unwrap();
    assert_eq!(ids, IDS::Special("柬中".to_string()));
}

#[test]
fn parse_ids_char() {
    let input = "啊";
    let (_, ids) = parser_ids(input).unwrap();
    assert_eq!(ids, IDS::Char('啊'));
}

#[test]
fn parse_tagged_ids_char() {
    let input = "啊";
    let (_, ids) = parser_tagged_ids(input).unwrap();
    assert_eq!(
        ids,
        TaggedIDS {
            tag: Tag::Variant("".to_string()),
            ids: IDS::Char('啊'),
        }
    );
}

#[test]
fn parse_tagged_ids_composition() {
    let input = "⿱亽{⻞下}[G]";
    let (_, ids) = parser_tagged_ids(input).unwrap();
    assert_eq!(
        ids,
        TaggedIDS {
            ids: IDS::Composition {
                idc: IDC::new('⿱').unwrap(),
                children: vec![IDS::Char('亽'), IDS::Special("⻞下".to_string())],
            },
            tag: Tag::Variant("G".to_string())
        }
    );
}

fn composition(op: char, children: Vec<IDS>) -> IDS {
    IDS::Composition {
        idc: IDC::new(op).unwrap(),
        children,
    }
}

#[test]
fn parse_reads_each_shape() {
    assert_eq!(parse("人"), Ok(IDS::Char('人')));
    assert_eq!(parse("{柬中}"), Ok(IDS::Special("柬中".to_string())));
    assert_eq!(
        parse("⿰亻人"),
        Ok(composition('⿰', vec![IDS::Char('亻'), IDS::Char('人')]))
    );
    assert_eq!(
        parse("⿲abc"),
        Ok(composition(
            '⿲',
            vec![IDS::Char('a'), IDS::Char('b'), IDS::Char('c')]
        ))
    );
    assert_eq!(parse("⿾x"), Ok(composition('⿾', vec![IDS::Char('x')])));
    assert_eq!(
        parse("⿰⿱ab⿲c{d}e"),
        Ok(composition(
            '⿰',
            vec![
                composition('⿱', vec![IDS::Char('a'), IDS::Char('b')]),
                composition(
                    '⿲',
                    vec![
                        IDS::Char('c'),
                        IDS::Special("d".to_string()),
                        IDS::Char('e')
                    ]
                ),
            ]
        ))
    );
}

#[test]
fn closing_delimiters_are_atoms() {
    assert_eq!(parse("}"), Ok(IDS::Char('}')));
    assert_eq!(parse("]"), Ok(IDS::Char(']')));
    assert_eq!(
        parse("⿰]}"),
        Ok(composition('⿰', vec![IDS::Char(']'), IDS::Char('}')]))
    );
}

#[test]
fn an_opaque_label_may_hold_operators_and_brackets() {
    assert_eq!(parse("{⿰[a}"), Ok(IDS::Special("⿰[a".to_string())));
    assert_eq!(parse("{{}"), Ok(IDS::Special("{".to_string())));
}

#[test]
fn parse_rejects_what_starts_no_tree() {
    for text in [
        "", "⿰", "⿰a", "⿲ab", "⿾", "{", "{}", "{abc", "[", "[G]", "⿰a[", "⿰{}a", "⿰a{", "⿱⿰ab",
    ] {
        assert_eq!(parse(text), Err(ParseError::Malformed), "{:?}", text);
        assert_eq!(parse_tagged(text), Err(ParseError::Malformed), "{:?}", text);
        assert_eq!(parser_ids(text), Err(ParseError::Malformed), "{:?}", text);
    }
}

#[test]
fn parse_rejects_trailing_input() {
    for text in ["啊啊", "a}", "a[G]", "⿰abc", "{a}{b}", "a ", "a[", "⿾xy"] {
        assert_eq!(parse(text), Err(ParseError::Trailing), "{:?}", text);
    }
}

#[test]
fn parse_tagged_reads_the_tag() {
    let tagged = parse_tagged("啊[G]").unwrap();
    assert_eq!(tagged.ids, IDS::Char('啊'));
    assert_eq!(tagged.tag, Tag::Variant("G".to_string()));

    let tagged = parse_tagged("⿰亻人").unwrap();
    assert_eq!(tagged.tag, Tag::Variant(String::new()));

    let tagged = parse_tagged("a[x[y]").unwrap();
    assert_eq!(tagged.tag, Tag::Variant("x[y".to_string()));

    let tagged = parse_tagged("{a}[GT⿰}]").unwrap();
    assert_eq!(tagged.ids, IDS::Special("a".to_string()));
    assert_eq!(tagged.tag, Tag::Variant("GT⿰}".to_string()));
}

#[test]
fn parse_tagged_rejects_what_follows_the_tree_and_is_no_tag() {
    for text in ["a[]", "a[G", "a[G]b", "a[G][H]", "ab", "a]", "a[G] ", "a []"] {
        assert_eq!(parse_tagged(text), Err(ParseError::Trailing), "{:?}", text);
        assert_eq!(parser_tagged_ids(text), Err(ParseError::Trailing), "{:?}", text);
    }
}

#[test]
fn parser_ids_returns_what_follows_the_tree() {
    assert_eq!(parser_ids("啊[G]"), Ok(("[G]", IDS::Char('啊'))));
    assert_eq!(parser_ids("ab"), Ok(("b", IDS::Char('a'))));
    assert_eq!(
        parser_ids("⿰亻人从"),
        Ok(("从", composition('⿰', vec![IDS::Char('亻'), IDS::Char('人')])))
    );
    assert_eq!(parser_ids("{a}"), Ok(("", IDS::Special("a".to_string()))));
    let (rest, _) = parser_tagged_ids("⿰亻人[G]").unwrap();
    assert_eq!(rest, "");
}

#[test]
fn rendering_a_parsed_tree_gives_the_text_back() {
    for text in [
        "人",
        "{柬中}",
        "⿰亻人",
        "⿲abc",
        "⿱亽{⻞下}",
        "⿾x",
        "⿰⿱ab⿲c{d}e",
        "}",
        "⿻⿴{a]}⿿㇯ab]",
        "⿳⿲abc⿳def⿰gh",
    ] {
        let tree = parse(text).unwrap();
        assert_eq!(tree.to_string(), text);
        assert_eq!(parse(&tree.to_string()), Ok(tree));
    }
}

#[test]
fn rendering_puts_operator_first_and_labels_in_braces() {
    assert_eq!(IDS::Char('人').to_string(), "人");
    assert_eq!(IDS::Special("柬中".to_string()).to_string(), "{柬中}");
    assert_eq!(
        composition(
            '⿱',
            vec![IDS::Char('亽'), IDS::Special("⻞下".to_string())]
        )
        .to_string(),
        "⿱亽{⻞下}"
    );
}

fn arities_hold(tree: &IDS) -> bool {
    match tree {
        IDS::Composition { idc, children } => {
            children.len() == idc.arity() && children.iter().all(arities_hold)
        }
        _ => true,
    }
}

#[test]
fn every_parsed_composition_has_as_many_children_as_its_arity() {
    for text in ["⿰ab", "⿲abc", "⿾a", "⿰⿲abc⿾d", "⿳⿱ab⿰cd⿿{e}", "㇯⿻ab⿼cd"] {
        assert!(arities_hold(&parse(text).unwrap()), "{}", text);
    }
    assert_eq!(parse("⿲ab"), Err(ParseError::Malformed));
    assert_eq!(parse("⿾ab"), Err(ParseError::Trailing));
}

#[test]
fn a_parse_error_describes_itself() {
    assert_eq!(
        ParseError::Trailing.to_string(),
        "Input is not parsed completely"
    );
    assert_eq!(
        ParseError::Malformed.to_string(),
        "Input is not a decomposition"
    );
}

#[test]
fn a_clone_is_equal_to_what_was_cloned() {
    let tree = parse("⿰⿱a{b}⿲cde").unwrap();
    assert_eq!(tree.clone(), tree);
    assert_ne!(tree, parse("⿰⿱a{b}⿲cdf").unwrap());
    assert_ne!(parse("⿰ab").unwrap(), parse("⿱ab").unwrap());
    assert_ne!(IDS::Char('a'), IDS::Special("a".to_string()));
    let tagged = parse_tagged("⿰ab[G]").unwrap();
    assert_eq!(tagged.clone(), tagged);
    assert_ne!(tagged, parse_tagged("⿰ab[T]").unwrap());
    assert_ne!(tagged, parse_tagged("⿰ac[G]").unwrap());
}

#[test]
fn characters_beyond_the_basic_plane_are_atoms() {
    assert_eq!(parse("𠀀"), Ok(IDS::Char('𠀀')));
    assert_eq!(
        parse("⿰𠀀{𠀁x}"),
        Ok(composition(
            '⿰',
            vec![IDS::Char('𠀀'), IDS::Special("𠀁x".to_string())]
        ))
    );
    let tagged = parse_tagged("⿱𠀀𠀁[𠀂]").unwrap();
    assert_eq!(tagged.tag, Tag::Variant("𠀂".to_string()));
    assert_eq!(tagged.ids.to_string(), "⿱𠀀𠀁");
    assert_eq!(parser_ids("𠀀𠀁"), Ok(("𠀁", IDS::Char('𠀀'))));
}

#[test]
fn a_deeply_nested_tree_is_read_and_written() {
    let depth = 400;
    let mut text = String::new();
    for _ in 0..depth {
        text.push('⿰');
        text.push('a');
    }
    text.push('b');
    let tree = parse(&text).unwrap();
    assert_eq!(tree.to_string(), text);
    assert_eq!(tree.clone(), tree);
    let mut levels = 0;
    let mut at = &tree;
    while let IDS::Composition { children, .. } = at {
        assert_eq!(children.len(), 2);
        assert_eq!(children[0], IDS::Char('a'));
        at = &children[1];
        levels += 1;
    }
    assert_eq!(levels, depth);
    assert_eq!(at, &IDS::Char('b'));
}
