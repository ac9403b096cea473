//! Text handling that the rest of the library builds on: reading a string
//! as a sequence of characters, finding a character, the order of texts,
//! and splitting a text into lines and a line into fields.

use vstd::prelude::*;
use vstd::std_specs::iter::IteratorSpec;

verus! {

/// What is taken on trust of `String::push` of the standard library: the
/// string afterwards is the string before with `ch` appended at its end.
pub assume_specification[ String::push ](s: &mut String, ch: char)
    ensures
        final(s)@ == old(s)@.push(ch),
;

/// The characters of `s`, in order.
pub fn chars_of(s: &str) -> (v: Vec<char>)
    ensures
        v@ == s@,
{
    let mut v: Vec<char> = Vec::new();
    for c in it: s.chars()
        invariant
            v@ == it.seq().take(it.index() as int),
            it.seq() == s@,
    {
        v.push(c);
    }
    v
}

/// The character at position `i`.
pub fn char_at(chars: &Vec<char>, i: usize) -> (c: char)
    requires
        i < chars.len(),
    ensures
        c == chars[i as int],
{
    chars[i]
}

/// The number of characters of `s` before the first `mark`, or `None`
/// where `s` holds no `mark`.
pub open spec fn first_index(s: Seq<char>, mark: char) -> Option<int>
    decreases s.len(),
{
    if s.len() == 0 {
        None
    } else if s[0] == mark {
        Some(0)
    } else {
        match first_index(s.skip(1), mark) {
            Some(n) => Some(n + 1),
            None => None,
        }
    }
}

/// What `first_index` finds: the first occurrence of `mark`.
pub proof fn lemma_first_index(s: Seq<char>, mark: char)
    ensures
        match first_index(s, mark) {
            Some(n) => 0 <= n < s.len() && s[n] == mark && forall|i: int|
                0 <= i < n ==> s[i] != mark,
            None => forall|i: int| 0 <= i < s.len() ==> s[i] != mark,
        },
    decreases s.len(),
{
    if s.len() > 0 && s[0] != mark {
        let rest = s.skip(1);
        lemma_first_index(rest, mark);
        match first_index(rest, mark) {
            Some(n) => {
                assert(s[n + 1] == rest[n]);
                assert forall|i: int| 0 <= i < n + 1 implies s[i] != mark by {
                    if i > 0 {
                        assert(s[i] == rest[i - 1]);
                    }
                }
            },
            None => {
                assert forall|i: int| 0 <= i < s.len() implies s[i] != mark by {
                    if i > 0 {
                        assert(s[i] == rest[i - 1]);
                    }
                }
            },
        }
    }
}

/// `first_index` is determined by where the first `mark` stands.
pub proof fn lemma_first_index_is(s: Seq<char>, mark: char, n: int)
    requires
        0 <= n < s.len(),
        s[n] == mark,
        forall|i: int| 0 <= i < n ==> s[i] != mark,
    ensures
        first_index(s, mark) == Some(n),
{
    lemma_first_index(s, mark);
}

/// The characters of `chars` from `from` up to `to`, as a string.
pub fn string_between(chars: &Vec<char>, from: usize, to: usize) -> (s: String)
    requires
        from <= to <= chars.len(),
    ensures
        s@ == chars@.subrange(from as int, to as int),
{
    let mut s = String::new();
    let mut i: usize = from;
    while i < to
        invariant
            from <= i <= to <= chars.len(),
            s@ == chars@.subrange(from as int, i as int),
        decreases to - i,
    {
        s.push(chars[i]);
        assert(s@ =~= chars@.subrange(from as int, i as int + 1));
        i += 1;
    }
    s
}

/// The position of the first `mark` at or after `from`, or the length of
/// `chars` where there is none.
pub fn find_first(chars: &Vec<char>, from: usize, mark: char) -> (j: usize)
    requires
        from <= chars.len(),
    ensures
        from <= j <= chars.len(),
        forall|k: int| from <= k < j ==> chars[k] != mark,
        j < chars.len() ==> chars[j as int] == mark,
        first_index(chars@.skip(from as int), mark) == if j < chars.len() {
            Some(j - from)
        } else {
            None
        },
{
    let mut j: usize = from;
    while j < chars.len() && chars[j] != mark
        invariant
            from <= j <= chars.len(),
            forall|k: int| from <= k < j ==> chars[k] != mark,
        decreases chars.len() - j,
    {
        j += 1;
    }
    proof {
        let s = chars@.skip(from as int);
        lemma_first_index(s, mark);
        if j < chars.len() {
            assert(s[j - from] == mark);
            assert forall|i: int| 0 <= i < j - from implies s[i] != mark by {
                assert(s[i] == chars[from + i]);
            }
            lemma_first_index_is(s, mark, j - from);
        } else {
            if let Some(n) = first_index(s, mark) {
                assert(s[n] == chars[from + n]);
            }
        }
    }
    j
}

/// The order of two texts: character by character from the front, where a
/// text that ends first comes first.
pub open spec fn text_lt(a: Seq<char>, b: Seq<char>) -> bool
    decreases a.len(),
{
    if b.len() == 0 {
        false
    } else if a.len() == 0 {
        true
    } else if a[0] != b[0] {
        a[0] < b[0]
    } else {
        text_lt(a.drop_first(), b.drop_first())
    }
}

/// Whether `a` comes before `b`.
pub fn text_less(a: &str, b: &str) -> (r: bool)
    ensures
        r == text_lt(a@, b@),
{
    let mut xs = a.chars();
    let mut ys = b.chars();
    let ghost mut seen: int = 0;
    loop
        invariant
            0 <= seen <= a@.len(),
            xs.remaining() == a@.skip(seen),
            text_lt(a@, b@) == text_lt(xs.remaining(), ys.remaining()),
        decreases a@.len() - seen,
    {
        let x = xs.next();
        let y = ys.next();
        proof {
            if x is Some {
                assert(a@.skip(seen).drop_first() =~= a@.skip(seen + 1));
                seen = seen + 1;
            }
        }
        match (x, y) {
            (_, None) => {
                return false;
            },
            (None, Some(_)) => {
                return true;
            },
            (Some(cx), Some(cy)) => {
                if cx != cy {
                    return cx < cy;
                }
            },
        }
    }
}

/// The characters that separate the fields of a record: those with the
/// Unicode property White_Space.
pub open spec fn is_whitespace(c: char) -> bool {
    ||| '\u{0009}' <= c <= '\u{000D}'
    ||| c == ' '
    ||| c == '\u{0085}'
    ||| c == '\u{00A0}'
    ||| c == '\u{1680}'
    ||| '\u{2000}' <= c <= '\u{200A}'
    ||| c == '\u{2028}'
    ||| c == '\u{2029}'
    ||| c == '\u{202F}'
    ||| c == '\u{205F}'
    ||| c == '\u{3000}'
}

/// Executable test for [`is_whitespace`].
pub fn is_space(c: char) -> (r: bool)
    ensures
        r == is_whitespace(c),
{
    ('\u{0009}' <= c && c <= '\u{000D}') || c == ' ' || c == '\u{0085}' || c == '\u{00A0}' || c
        == '\u{1680}' || ('\u{2000}' <= c && c <= '\u{200A}') || c == '\u{2028}' || c
        == '\u{2029}' || c == '\u{202F}' || c == '\u{205F}' || c == '\u{3000}'
}

/// How many characters at the front of `s` are whitespace (`space` true)
/// or are not (`space` false).
pub open spec fn leading(s: Seq<char>, space: bool) -> int
    decreases s.len(),
{
    if s.len() == 0 || is_whitespace(s[0]) != space {
        0
    } else {
        1 + leading(s.skip(1), space)
    }
}

/// What `leading` counts: a run at the front of `s` that cannot be longer.
pub proof fn lemma_leading(s: Seq<char>, space: bool)
    ensures
        0 <= leading(s, space) <= s.len(),
        forall|i: int| 0 <= i < leading(s, space) ==> is_whitespace(s[i]) == space,
        leading(s, space) < s.len() ==> is_whitespace(s[leading(s, space)]) != space,
    decreases s.len(),
{
    if s.len() > 0 && is_whitespace(s[0]) == space {
        let rest = s.skip(1);
        lemma_leading(rest, space);
        let n = leading(rest, space);
        assert forall|i: int| 0 <= i < n + 1 implies is_whitespace(s[i]) == space by {
            if i > 0 {
                assert(s[i] == rest[i - 1]);
            }
        }
        if n + 1 < s.len() {
            assert(s[n + 1] == rest[n]);
        }
    }
}

/// `leading` is determined by where the run ends.
pub proof fn lemma_leading_is(s: Seq<char>, space: bool, n: int)
    requires
        0 <= n <= s.len(),
        forall|i: int| 0 <= i < n ==> is_whitespace(s[i]) == space,
        n < s.len() ==> is_whitespace(s[n]) != space,
    ensures
        leading(s, space) == n,
{
    lemma_leading(s, space);
}

/// The fields of a record: the maximal runs of characters of `s` that are
/// not whitespace, in order.
pub open spec fn fields(s: Seq<char>) -> Seq<Seq<char>>
    decreases s.len(),
    via fields_decreases
{
    let skipped = leading(s, true);
    if skipped >= s.len() {
        Seq::empty()
    } else {
        let taken = leading(s.skip(skipped), false);
        seq![s.subrange(skipped, skipped + taken)] + fields(s.skip(skipped + taken))
    }
}

/// Each field leaves fewer characters behind it.
#[via_fn]
proof fn fields_decreases(s: Seq<char>) {
    let skipped = leading(s, true);
    lemma_leading(s, true);
    if skipped < s.len() {
        lemma_leading(s.skip(skipped), false);
        assert(s.skip(skipped)[0] == s[skipped]);
    }
}

/// The lines of a text: what stands between its line feeds.
pub open spec fn lines(s: Seq<char>) -> Seq<Seq<char>>
    decreases s.len(),
    via lines_decreases
{
    match first_index(s, '\n') {
        Some(n) => seq![s.take(n)] + lines(s.skip(n + 1)),
        None => seq![s],
    }
}

/// Each line leaves fewer characters behind it.
#[via_fn]
proof fn lines_decreases(s: Seq<char>) {
    lemma_first_index(s, '\n');
}

/// The texts that `items` stand for, in order.
pub open spec fn texts_of(items: Seq<String>) -> Seq<Seq<char>> {
    Seq::new(items.len(), |i: int| items[i]@)
}

/// The end of the run of whitespace (`space` true) or of other characters
/// (`space` false) that starts at `from`.
fn skip_run(chars: &Vec<char>, from: usize, to: usize, space: bool) -> (end: usize)
    requires
        from <= to <= chars.len(),
    ensures
        from <= end <= to,
        end - from == leading(chars@.subrange(from as int, to as int), space),
{
    let mut end: usize = from;
    while end < to && is_space(chars[end]) == space
        invariant
            from <= end <= to <= chars.len(),
            forall|k: int| from <= k < end ==> is_whitespace(chars[k]) == space,
        decreases to - end,
    {
        end += 1;
    }
    proof {
        let s = chars@.subrange(from as int, to as int);
        assert forall|i: int| 0 <= i < end - from implies is_whitespace(s[i]) == space by {
            assert(s[i] == chars[from + i]);
        }
        if end < to {
            assert(s[end - from] == chars[end as int]);
        }
        lemma_leading_is(s, space, end - from);
    }
    end
}

/// The fields of the characters from `from` up to `to`.
pub fn split_fields(chars: &Vec<char>, from: usize, to: usize) -> (parts: Vec<String>)
    requires
        from <= to <= chars.len(),
    ensures
        texts_of(parts@) == fields(chars@.subrange(from as int, to as int)),
{
    let ghost line = chars@.subrange(from as int, to as int);
    let mut parts: Vec<String> = Vec::new();
    let mut at: usize = from;
    loop
        invariant
            from <= at <= to <= chars.len(),
            line == chars@.subrange(from as int, to as int),
            fields(line) == texts_of(parts@) + fields(chars@.subrange(at as int, to as int)),
        decreases to - at,
    {
        let ghost rest = chars@.subrange(at as int, to as int);
        let start = skip_run(chars, at, to, true);
        if start >= to {
            assert(fields(rest) =~= Seq::<Seq<char>>::empty());
            assert(fields(line) =~= texts_of(parts@));
            return parts;
        }
        assert(rest.skip(start - at) =~= chars@.subrange(start as int, to as int));
        let end = skip_run(chars, start, to, false);
        proof {
            lemma_leading(rest.skip(start - at), false);
            assert(rest[start - at] == chars[start as int]);
        }
        let word = string_between(chars, start, end);
        let ghost before = texts_of(parts@);
        parts.push(word);
        proof {
            assert(word@ =~= rest.subrange(start - at, end - at));
            assert(rest.skip(end - at) =~= chars@.subrange(end as int, to as int));
            assert(texts_of(parts@) =~= before + seq![word@]);
            assert(fields(line) =~= texts_of(parts@) + fields(
                chars@.subrange(end as int, to as int),
            ));
        }
        at = end;
    }
}

} // verus!
