//! Loading a table from dictionary text: one record per line, each a code,
//! a character and the character's decompositions, separated by whitespace.

use vstd::prelude::*;
use vstd::string::StrSliceExecFns;
use super::grammar::lemma_grammatical_wf;
use super::parser::{lemma_tagged_unique, parse_tagged, tagged_parses_as};
use super::table::{table_insert, IDSTable, TableView};
use super::tag::TagView;
use super::text::{
    chars_of, fields, find_first, leading, lemma_first_index, lemma_leading, lines, split_fields,
    texts_of,
};
use super::tree::Tree;

verus! {

/// `std::io::Error` of the standard library, as an opaque type: the loader
/// names it in its result type and never produces a value of it.
#[verifier::external_type_specification]
#[verifier::external_body]
pub struct ExIoError(std::io::Error);

/// Why a record was not loaded, or not all of it.
#[derive(Debug, Clone, Copy, PartialEq, Eq, Structural)]
pub enum RecordError {
    /// The record has fewer than three fields, so it names no
    /// decomposition. Nothing was loaded.
    TooShort,
    /// This many of the record's decompositions could not be parsed and
    /// were skipped. The others were loaded.
    Unparsed(usize),
}

/// The tree and the tag label that `text` is written as, if it is a tagged
/// tree.
pub open spec fn tagged_of_text(text: Seq<char>) -> Option<(Tree, Seq<char>)> {
    if exists|t: Tree, label: Seq<char>| tagged_parses_as(text, t, label) {
        Some(choose|pair: (Tree, Seq<char>)| tagged_parses_as(text, pair.0, pair.1))
    } else {
        None
    }
}

/// The table after the decomposition written as `text` has arrived for
/// `c`: the tree is inserted under its tag, and a text that does not parse
/// changes nothing.
pub open spec fn text_loaded(m: TableView, c: char, text: Seq<char>) -> TableView {
    match tagged_of_text(text) {
        Some((tree, label)) => table_insert(m, c, TagView::Named(label), tree),
        None => m,
    }
}

/// The table after the decompositions written as `texts` have arrived for
/// `c`, in order.
pub open spec fn texts_loaded(m: TableView, c: char, texts: Seq<Seq<char>>) -> TableView
    decreases texts.len(),
{
    if texts.len() == 0 {
        m
    } else {
        texts_loaded(text_loaded(m, c, texts[0]), c, texts.skip(1))
    }
}

/// How many of `texts` are no tagged trees.
pub open spec fn unparsed_count(texts: Seq<Seq<char>>) -> nat
    decreases texts.len(),
{
    if texts.len() == 0 {
        0
    } else {
        unparsed_count(texts.skip(1)) + if tagged_of_text(texts[0]) is None {
            1nat
        } else {
            0nat
        }
    }
}

/// The table after the record `line` has been loaded. The first field is
/// the code, which is ignored; the second gives the character by its first
/// character; each further field is one decomposition. A record with fewer
/// than three fields changes nothing.
pub open spec fn record_loaded(m: TableView, line: Seq<char>) -> TableView {
    let parts = fields(line);
    if parts.len() < 3 {
        m
    } else {
        texts_loaded(m, parts[1][0], parts.skip(2))
    }
}

/// What loading the record `line` reports.
pub open spec fn record_outcome(line: Seq<char>) -> Result<(), RecordError> {
    let parts = fields(line);
    if parts.len() < 3 {
        Err(RecordError::TooShort)
    } else if unparsed_count(parts.skip(2)) > 0 {
        Err(RecordError::Unparsed(unparsed_count(parts.skip(2)) as usize))
    } else {
        Ok(())
    }
}

/// The table after the records `records` have been loaded, in order.
pub open spec fn records_loaded(m: TableView, records: Seq<Seq<char>>) -> TableView
    decreases records.len(),
{
    if records.len() == 0 {
        m
    } else {
        records_loaded(record_loaded(m, records[0]), records.skip(1))
    }
}

/// The table that the dictionary text `content` describes.
pub open spec fn loaded(content: Seq<char>) -> TableView {
    records_loaded(Map::empty(), lines(content))
}

/// No field is empty.
pub proof fn lemma_fields_nonempty(s: Seq<char>)
    ensures
        forall|i: int| 0 <= i < fields(s).len() ==> (#[trigger] fields(s)[i]).len() > 0,
    decreases s.len(),
{
    let skipped = leading(s, true);
    lemma_leading(s, true);
    if skipped < s.len() {
        let taken = leading(s.skip(skipped), false);
        lemma_leading(s.skip(skipped), false);
        assert(s.skip(skipped)[0] == s[skipped]);
        let rest = s.skip(skipped + taken);
        lemma_fields_nonempty(rest);
        let first = s.subrange(skipped, skipped + taken);
        assert forall|i: int| 0 <= i < fields(s).len() implies (#[trigger] fields(s)[i]).len()
            > 0 by {
            if i > 0 {
                assert(fields(s)[i] == fields(rest)[i - 1]);
            }
        }
    }
}

impl IDSTable {
    /// Loads the record that the characters from `from` up to `to` hold.
    fn load_range(&mut self, chars: &Vec<char>, from: usize, to: usize) -> (r: Result<
        (),
        RecordError,
    >)
        requires
            old(self).wf(),
            from <= to <= chars.len(),
        ensures
            final(self).wf(),
            final(self)@ == record_loaded(old(self)@, chars@.subrange(from as int, to as int)),
            r == record_outcome(chars@.subrange(from as int, to as int)),
    {
        let ghost line = chars@.subrange(from as int, to as int);
        let ghost before = self@;
        let parts = split_fields(chars, from, to);
        let ghost texts = texts_of(parts@);
        if parts.len() < 3 {
            return Err(RecordError::TooShort);
        }
        proof {
            lemma_fields_nonempty(line);
            assert(texts[1] == parts[1]@);
        }
        let c = parts[1].as_str().get_char(0);
        let mut skipped: usize = 0;
        let mut i: usize = 2;
        assert(texts.skip(2).len() == parts.len() - 2);
        while i < parts.len()
            invariant
                2 <= i <= parts.len(),
                skipped <= i - 2,
                self.wf(),
                texts == texts_of(parts@),
                texts_loaded(before, c, texts.skip(2)) == texts_loaded(
                    self@,
                    c,
                    texts.skip(i as int),
                ),
                unparsed_count(texts.skip(2)) == skipped + unparsed_count(texts.skip(i as int)),
            decreases parts.len() - i,
        {
            proof {
                let rest = texts.skip(i as int);
                assert(rest[0] == parts[i as int]@);
                assert(rest.skip(1) =~= texts.skip(i + 1));
            }
            if !self.load_text(c, parts[i].as_str()) {
                skipped += 1;
            }
            i += 1;
        }
        assert(texts.skip(parts.len() as int).len() == 0);
        if skipped > 0 {
            Err(RecordError::Unparsed(skipped))
        } else {
            Ok(())
        }
    }

    /// Loads one record of a dictionary: a code, a character and the
    /// character's decompositions, separated by whitespace.
    ///
    /// Each decomposition that parses is inserted for the character, in
    /// order; the others are skipped, and the error says how many. A record
    /// with fewer than three fields is reported and changes nothing.
    pub fn load_record(&mut self, line: &str) -> (r: Result<(), RecordError>)
        requires
            old(self).wf(),
        ensures
            final(self).wf(),
            final(self)@ == record_loaded(old(self)@, line@),
            r == record_outcome(line@),
    {
        let chars = chars_of(line);
        assert(chars@.subrange(0, chars.len() as int) =~= line@);
        self.load_range(&chars, 0, chars.len())
    }

    /// Builds the table that the dictionary text `content` describes: one
    /// record per line. Records that are too short and decompositions that
    /// do not parse are skipped. Never fails.
    pub fn load_from_string(content: &str) -> (r: Result<IDSTable, std::io::Error>)
        ensures
            r matches Ok(table) && table.wf() && table@ == loaded(content@),
    {
        let chars = chars_of(content);
        let mut table = IDSTable::new();
        let mut start: usize = 0;
        assert(chars@.skip(0) =~= content@);
        loop
            invariant
                start <= chars.len(),
                table.wf(),
                chars@ == content@,
                loaded(content@) == records_loaded(table@, lines(chars@.skip(start as int))),
            decreases chars.len() - start,
        {
            let ghost rest = chars@.skip(start as int);
            let end = find_first(&chars, start, '\n');
            proof {
                lemma_first_index(rest, '\n');
            }
            let ghost before = table@;
            let _ = table.load_range(&chars, start, end);
            if end >= chars.len() {
                proof {
                    assert(rest =~= chars@.subrange(start as int, end as int));
                    assert(lines(rest) =~= seq![rest]);
                    assert(seq![rest].skip(1) =~= Seq::<Seq<char>>::empty());
                    assert(records_loaded(record_loaded(before, rest), seq![rest].skip(1))
                        == record_loaded(before, rest));
                }
                return Ok(table);
            }
            proof {
                let line = rest.take(end - start);
                let after = rest.skip(end - start + 1);
                assert(line =~= chars@.subrange(start as int, end as int));
                assert(after =~= chars@.skip(end + 1));
                let all = seq![line] + lines(after);
                assert(lines(rest) == all);
                assert(all[0] == line);
                assert(all.skip(1) =~= lines(after));
            }
            start = end + 1;
        }
    }

    /// Loads the decomposition written as `text` for the character `c`.
    /// Reports whether `text` could be parsed; where it could not, the
    /// table stays as it was.
    pub fn load_text(&mut self, c: char, text: &str) -> (loaded: bool)
        requires
            old(self).wf(),
        ensures
            final(self).wf(),
            final(self)@ == text_loaded(old(self)@, c, text@),
            loaded == tagged_of_text(text@) is Some,
    {
        match parse_tagged(text) {
            Ok(tagged) => {
                proof {
                    let label = tagged.tag@->Named_0;
                    let pair = choose|pair: (Tree, Seq<char>)|
                        tagged_parses_as(text@, pair.0, pair.1);
                    assert(tagged_parses_as(text@, tagged.ids@, label));
                    assert(tagged_parses_as(text@, (tagged.ids@, label).0, (tagged.ids@, label).1));
                    lemma_tagged_unique(text@, tagged.ids@, label, pair.0, pair.1);
                    lemma_grammatical_wf(tagged.ids@);
                }
                self.insert(c, tagged);
                true
            },
            Err(_) => false,
        }
    }
}

} // verus!
