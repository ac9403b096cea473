//! The query surface: searches that take their needles and patterns as
//! text and report their results as text.

use vstd::prelude::*;
use vstd::string::StringExecFns;
use crate::ids::grammar::tree_of_text;
use crate::ids::order::{keys_of, Key};
use crate::ids::table::IDSTable;
use crate::ids::tag::Tag;
use crate::ids::text::{chars_of, fields, split_fields, texts_of};
use crate::selection::{is_selection, Criterion};
use crate::{
    all_trees, first_complaint, needle_trees, search_find, search_match, search_pmatch,
    WILDCARD_CHAR,
};

verus! {

/// What a query reports: one text per result, or one text that tells of an
/// error.
#[derive(Debug)]
pub struct SearchResult {
    pub results: Vec<String>,
}

/// How one result is shown: its character followed by the label of its
/// tag.
pub open spec fn result_label(key: Key) -> Seq<char> {
    seq![key.0] + key.1.label()
}

/// How the results `keys` are shown, in order.
pub open spec fn result_labels(keys: Seq<Key>) -> Seq<Seq<char>> {
    Seq::new(keys.len(), |i: int| result_label(keys[i]))
}

/// How the error `msg` is shown.
pub open spec fn error_labels(msg: Seq<char>) -> Seq<Seq<char>> {
    seq!["Error: "@ + msg]
}

/// What is reported for the outcome of a search: its results as they are
/// shown, or its error as it is shown.
pub open spec fn reported(outcome: Result<Vec<(char, Tag)>, String>) -> Seq<Seq<char>> {
    match outcome {
        Ok(list) => result_labels(keys_of(list@)),
        Err(msg) => error_labels(msg@),
    }
}

/// Reports the outcome of a search.
pub fn report(outcome: Result<Vec<(char, Tag)>, String>) -> (r: SearchResult)
    ensures
        texts_of(r.results@) == reported(outcome),
{
    let mut results: Vec<String> = Vec::new();
    match outcome {
        Ok(list) => {
            let mut i: usize = 0;
            while i < list.len()
                invariant
                    i <= list.len(),
                    results.len() == i,
                    forall|j: int|
                        0 <= j < i ==> (#[trigger] results[j])@ == result_label(keys_of(list@)[j]),
                decreases list.len() - i,
            {
                let mut label = String::new();
                label.push(list[i].0);
                label.append(list[i].1.to_string().as_str());
                assert(label@ =~= result_label(keys_of(list@)[i as int]));
                results.push(label);
                i += 1;
            }
            assert(texts_of(results@) =~= result_labels(keys_of(list@)));
        },
        Err(msg) => {
            let mut label = "Error: ".to_owned();
            label.append(msg.as_str());
            results.push(label);
            assert(texts_of(results@) =~= error_labels(msg@));
        },
    }
    SearchResult { results }
}

/// Searches for the records that strictly contain every needle, where the
/// needles are the fields of `needles_str`, and reports the outcome.
///
/// Where every needle is a tree, the report shows the selection in order.
/// Otherwise it shows the error that names the first needle that is none.
pub fn find(table: &IDSTable, needles_str: &str) -> (r: SearchResult)
    requires
        table.wf(),
        all_trees(fields(needles_str@)) ==> Criterion::ContainsAll(
            needle_trees(fields(needles_str@)),
        ).decided(table@),
    ensures
        if all_trees(fields(needles_str@)) {
            exists|keys: Seq<Key>|
                #![trigger result_labels(keys)]
                is_selection(
                    keys,
                    table@,
                    Criterion::ContainsAll(needle_trees(fields(needles_str@))),
                ) && texts_of(r.results@) == result_labels(keys)
        } else {
            exists|msg: Seq<char>|
                #![trigger error_labels(msg)]
                first_complaint("Cannot parse needle "@, fields(needles_str@), msg) && texts_of(
                    r.results@,
                ) == error_labels(msg)
        },
{
    let chars = chars_of(needles_str);
    assert(chars@.subrange(0, chars.len() as int) =~= needles_str@);
    let needles = split_fields(&chars, 0, chars.len());
    let outcome = search_find(table, needles.as_slice());
    let ghost seen = outcome;
    let r = report(outcome);
    proof {
        match seen {
            Ok(list) => {
                assert(texts_of(r.results@) == result_labels(keys_of(list@)));
            },
            Err(msg) => {
                assert(texts_of(r.results@) == error_labels(msg@));
            },
        }
    }
    r
}

/// Searches for the records that match `pattern` structurally and reports
/// the outcome.
///
/// Where the pattern is a tree, the report shows the selection in order.
/// Otherwise it shows the error that names the pattern.
pub fn match_pattern(table: &IDSTable, pattern: &str) -> (r: SearchResult)
    requires
        table.wf(),
        tree_of_text(pattern@) matches Some(tree) ==> Criterion::Matches(
            tree,
            WILDCARD_CHAR,
        ).decided(table@),
    ensures
        match tree_of_text(pattern@) {
            Some(tree) => exists|keys: Seq<Key>|
                #![trigger result_labels(keys)]
                is_selection(keys, table@, Criterion::Matches(tree, WILDCARD_CHAR)) && texts_of(
                    r.results@,
                ) == result_labels(keys),
            None => texts_of(r.results@) == error_labels("Cannot parse pattern "@ + pattern@),
        },
{
    let outcome = search_match(table, pattern);
    let ghost seen = outcome;
    let r = report(outcome);
    proof {
        if let Ok(list) = seen {
            assert(texts_of(r.results@) == result_labels(keys_of(list@)));
        }
    }
    r
}

/// Searches for the records that match `pattern` structurally, or hold
/// something that does, and reports the outcome.
///
/// Where the pattern is a tree, the report shows the selection in order.
/// Otherwise it shows the error that names the pattern.
pub fn pmatch(table: &IDSTable, pattern: &str) -> (r: SearchResult)
    requires
        table.wf(),
        tree_of_text(pattern@) matches Some(tree) ==> Criterion::HasMatch(
            tree,
            WILDCARD_CHAR,
        ).decided(table@),
    ensures
        match tree_of_text(pattern@) {
            Some(tree) => exists|keys: Seq<Key>|
                #![trigger result_labels(keys)]
                is_selection(keys, table@, Criterion::HasMatch(tree, WILDCARD_CHAR)) && texts_of(
                    r.results@,
                ) == result_labels(keys),
            None => texts_of(r.results@) == error_labels("Cannot parse pattern "@ + pattern@),
        },
{
    let outcome = search_pmatch(table, pattern);
    let ghost seen = outcome;
    let r = report(outcome);
    proof {
        if let Ok(list) = seen {
            assert(texts_of(r.results@) == result_labels(keys_of(list@)));
        }
    }
    r
}

} // verus!
