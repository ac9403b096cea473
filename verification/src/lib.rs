//! Search over ideographic description sequences: how a CJK character
//! decomposes into components, and which characters contain or match a
//! given decomposition.

use vstd::prelude::*;
use vstd::string::StringExecFns;

pub mod ids;
pub mod query;
pub mod selection;

pub use query::{find, match_pattern, pmatch, SearchResult};

use ids::foundation::well_founded;
use ids::grammar::{lemma_grammatical_wf, lemma_render_parse, tree_of_text};
use ids::order::keys_of;
use ids::parser::parse;
use ids::table::{table_wf, IDSTable, TableView};
use ids::tag::Tag;
use ids::text::texts_of;
use ids::tree::{lemma_trees_of, trees_of, Tree, IDS};
use selection::{is_selection, lemma_well_founded_decided, Criterion, Query};

verus! {

/// The atom that stands for any component in a pattern.
pub const WILDCARD_CHAR: char = '.';

/// Every one of `texts` is a tree.
pub open spec fn all_trees(texts: Seq<Seq<char>>) -> bool {
    forall|i: int| 0 <= i < texts.len() ==> tree_of_text(#[trigger] texts[i]) is Some
}

/// The trees that `texts` are written as, where each of them is one.
pub open spec fn needle_trees(texts: Seq<Seq<char>>) -> Seq<Tree> {
    Seq::new(texts.len(), |i: int| tree_of_text(texts[i]).unwrap())
}

/// What a search reports where a text is no tree: `what` followed by the
/// first such text.
pub open spec fn first_complaint(what: Seq<char>, texts: Seq<Seq<char>>, msg: Seq<char>) -> bool {
    exists|i: int|
        {
            &&& 0 <= i < texts.len()
            &&& tree_of_text(#[trigger] texts[i]) is None
            &&& forall|j: int| 0 <= j < i ==> tree_of_text(texts[j]) is Some
            &&& msg == what + texts[i]
        }
}

/// What [`search_find`] returns for the needles `texts`: the selection of
/// the records that contain them all, or the error that names the first of
/// them that is no tree.
pub open spec fn find_outcome(
    m: TableView,
    texts: Seq<Seq<char>>,
    outcome: Result<Vec<(char, Tag)>, String>,
) -> bool {
    match outcome {
        Ok(list) => {
            &&& all_trees(texts)
            &&& is_selection(keys_of(list@), m, Criterion::ContainsAll(needle_trees(texts)))
        },
        Err(msg) => first_complaint("Cannot parse needle "@, texts, msg@),
    }
}

/// What [`search_match`] and [`search_pmatch`] return for the pattern
/// `text`: the selection that the pattern's criterion makes, or the error
/// that names the pattern where it is no tree.
pub open spec fn pattern_outcome(
    m: TableView,
    text: Seq<char>,
    criterion: spec_fn(Tree) -> Criterion,
    outcome: Result<Vec<(char, Tag)>, String>,
) -> bool {
    match outcome {
        Ok(list) => tree_of_text(text) matches Some(pattern) && is_selection(
            keys_of(list@),
            m,
            criterion(pattern),
        ),
        Err(msg) => tree_of_text(text) is None && msg@ == "Cannot parse pattern "@ + text,
    }
}

/// The criterion of [`search_match`] for a pattern.
pub open spec fn matches_pattern() -> spec_fn(Tree) -> Criterion {
    |pattern: Tree| Criterion::Matches(pattern, WILDCARD_CHAR)
}

/// The criterion of [`search_pmatch`] for a pattern.
pub open spec fn has_match_of_pattern() -> spec_fn(Tree) -> Criterion {
    |pattern: Tree| Criterion::HasMatch(pattern, WILDCARD_CHAR)
}

/// `what` followed by `text`.
fn complaint(what: &str, text: &str) -> (msg: String)
    ensures
        msg@ == what@ + text@,
{
    let mut msg = what.to_owned();
    msg.append(text);
    msg
}

/// Lists the records whose trees strictly contain every needle.
///
/// Each needle is parsed first; the first that is no tree ends the search
/// with an error that names it. Otherwise the result holds the character
/// and tag of each record whose tree contains all the needles, each once,
/// in ascending order. The containment has to be one that is decided for
/// every tree of the table, as it is on every table that is well founded.
pub fn search_find(table: &IDSTable, needle_strs: &[String]) -> (r: Result<
    Vec<(char, Tag)>,
    String,
>)
    requires
        table.wf(),
        all_trees(texts_of(needle_strs@)) ==> Criterion::ContainsAll(
            needle_trees(texts_of(needle_strs@)),
        ).decided(table@),
    ensures
        find_outcome(table@, texts_of(needle_strs@), r),
{
    let ghost texts = texts_of(needle_strs@);
    let mut needles: Vec<IDS> = Vec::new();
    let mut i: usize = 0;
    while i < needle_strs.len()
        invariant
            i <= needle_strs@.len(),
            needles.len() == i,
            texts == texts_of(needle_strs@),
            forall|j: int| 0 <= j < i ==> tree_of_text(#[trigger] texts[j]) == Some(needles[j]@),
            forall|j: int| 0 <= j < i ==> (#[trigger] needles[j])@.wf(),
        decreases needle_strs.len() - i,
    {
        assert(texts[i as int] == needle_strs@[i as int]@);
        match parse(needle_strs[i].as_str()) {
            Ok(needle) => {
                proof {
                    lemma_grammatical_wf(needle@);
                }
                needles.push(needle);
            },
            Err(_) => {
                assert(tree_of_text(texts[i as int]) is None);
                return Err(complaint("Cannot parse needle ", needle_strs[i].as_str()));
            },
        }
        i += 1;
    }
    proof {
        lemma_trees_of(needles@);
        assert(trees_of(needles@) =~= needle_trees(texts));
    }
    Ok(Query::ContainsAll(&needles).select(table))
}

/// Lists the records whose trees match the pattern structurally, with
/// [`WILDCARD_CHAR`] as the wildcard.
///
/// A pattern that is no tree ends the search with an error that names it.
/// Otherwise the result holds the character and tag of each record whose
/// tree matches, each once, in ascending order. The match has to be one
/// that is decided for every tree of the table, as it is on every table
/// that is well founded.
pub fn search_match(table: &IDSTable, pattern_str: &str) -> (r: Result<Vec<(char, Tag)>, String>)
    requires
        table.wf(),
        tree_of_text(pattern_str@) matches Some(pattern) ==> Criterion::Matches(
            pattern,
            WILDCARD_CHAR,
        ).decided(table@),
    ensures
        pattern_outcome(table@, pattern_str@, matches_pattern(), r),
{
    match parse(pattern_str) {
        Ok(pattern) => {
            proof {
                lemma_grammatical_wf(pattern@);
            }
            Ok(Query::Matches(&pattern, WILDCARD_CHAR).select(table))
        },
        Err(_) => Err(complaint("Cannot parse pattern ", pattern_str)),
    }
}

/// Lists the records whose trees match the pattern structurally or hold
/// something that does, with [`WILDCARD_CHAR`] as the wildcard.
///
/// A pattern that is no tree ends the search with an error that names it.
/// Otherwise the result holds the character and tag of each record whose
/// tree qualifies, each once, in ascending order. The search has to be one
/// that is decided for every tree of the table, as it is on every table
/// that is well founded.
pub fn search_pmatch(table: &IDSTable, pattern_str: &str) -> (r: Result<Vec<(char, Tag)>, String>)
    requires
        table.wf(),
        tree_of_text(pattern_str@) matches Some(pattern) ==> Criterion::HasMatch(
            pattern,
            WILDCARD_CHAR,
        ).decided(table@),
    ensures
        pattern_outcome(table@, pattern_str@, has_match_of_pattern(), r),
{
    match parse(pattern_str) {
        Ok(pattern) => {
            proof {
                lemma_grammatical_wf(pattern@);
            }
            Ok(Query::HasMatch(&pattern, WILDCARD_CHAR).select(table))
        },
        Err(_) => Err(complaint("Cannot parse pattern ", pattern_str)),
    }
}

/// On a well-founded table in order, every search for needles is decided.
pub proof fn lemma_find_decided(m: TableView, texts: Seq<Seq<char>>)
    requires
        table_wf(m),
        well_founded(m),
        all_trees(texts),
    ensures
        Criterion::ContainsAll(needle_trees(texts)).decided(m),
{
    assert forall|i: int| 0 <= i < texts.len() implies (#[trigger] needle_trees(texts)[i]).wf() by {
        lemma_render_parse(texts[i]);
    }
    lemma_well_founded_decided(m, Criterion::ContainsAll(needle_trees(texts)));
}

/// On a well-founded table in order, every search for a pattern is decided.
pub proof fn lemma_pattern_decided(m: TableView, text: Seq<char>)
    requires
        table_wf(m),
        well_founded(m),
        tree_of_text(text) is Some,
    ensures
        Criterion::Matches(tree_of_text(text).unwrap(), WILDCARD_CHAR).decided(m),
        Criterion::HasMatch(tree_of_text(text).unwrap(), WILDCARD_CHAR).decided(m),
{
    lemma_render_parse(text);
    let pattern = tree_of_text(text).unwrap();
    lemma_well_founded_decided(m, Criterion::Matches(pattern, WILDCARD_CHAR));
    lemma_well_founded_decided(m, Criterion::HasMatch(pattern, WILDCARD_CHAR));
}

/// [`search_find`] on any table: `None` where the table is not well
/// founded, so that the search may not end.
pub fn try_search_find(table: &IDSTable, needle_strs: &[String]) -> (r: Option<
    Result<Vec<(char, Tag)>, String>,
>)
    requires
        table.wf(),
    ensures
        r is Some <==> well_founded(table@),
        r matches Some(outcome) ==> find_outcome(table@, texts_of(needle_strs@), outcome),
{
    if !table.is_well_founded() {
        return None;
    }
    proof {
        if all_trees(texts_of(needle_strs@)) {
            lemma_find_decided(table@, texts_of(needle_strs@));
        }
    }
    Some(search_find(table, needle_strs))
}

/// [`search_match`] on any table: `None` where the table is not well
/// founded, so that the search may not end.
pub fn try_search_match(table: &IDSTable, pattern_str: &str) -> (r: Option<
    Result<Vec<(char, Tag)>, String>,
>)
    requires
        table.wf(),
    ensures
        r is Some <==> well_founded(table@),
        r matches Some(outcome) ==> pattern_outcome(
            table@,
            pattern_str@,
            matches_pattern(),
            outcome,
        ),
{
    if !table.is_well_founded() {
        return None;
    }
    proof {
        if tree_of_text(pattern_str@) is Some {
            lemma_pattern_decided(table@, pattern_str@);
        }
    }
    Some(search_match(table, pattern_str))
}

/// [`search_pmatch`] on any table: `None` where the table is not well
/// founded, so that the search may not end.
pub fn try_search_pmatch(table: &IDSTable, pattern_str: &str) -> (r: Option<
    Result<Vec<(char, Tag)>, String>,
>)
    requires
        table.wf(),
    ensures
        r is Some <==> well_founded(table@),
        r matches Some(outcome) ==> pattern_outcome(
            table@,
            pattern_str@,
            has_match_of_pattern(),
            outcome,
        ),
{
    if !table.is_well_founded() {
        return None;
    }
    proof {
        if tree_of_text(pattern_str@) is Some {
            lemma_pattern_decided(table@, pattern_str@);
        }
    }
    Some(search_pmatch(table, pattern_str))
}

} // verus!
