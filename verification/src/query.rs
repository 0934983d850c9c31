//! Path queries: a dot, then key segments separated by dots.
//!
//! A segment is written bare, as a run of one or more characters other than
//! `"`, newline, tab, space and `.`, or between double quotes, where it may
//! hold any character but `"` and may be empty.

use vstd::prelude::*;
use vstd::string::*;

verus! {

/// Why a query did not parse.
#[derive(Debug, PartialEq, Eq, Clone, Copy)]
pub enum ParseFailure {
    /// The query does not start with a dot.
    MissingDot,
    /// The path ended before the end of the query.
    TrailingInput,
}

/// A query that did not parse: what was left of it where parsing stopped,
/// and why it stopped.
#[derive(Debug, PartialEq, Eq, Clone, Copy)]
pub struct ParseError<'a> {
    pub rest: &'a str,
    pub reason: ParseFailure,
}

impl<'a> ParseError<'a> {
    /// The text of the error.
    pub open spec fn text(self) -> Seq<char> {
        match self.reason {
            ParseFailure::MissingDot => "expected '.' at: "@ + self.rest@,
            ParseFailure::TrailingInput => "unexpected input at: "@ + self.rest@,
        }
    }

    /// The text of the error: why parsing stopped, and what was left.
    pub fn message(&self) -> (r: String)
        ensures
            r@ == self.text(),
    {
        let mut out = String::new();
        match self.reason {
            ParseFailure::MissingDot => {
                out.append("expected '.' at: ");
            },
            ParseFailure::TrailingInput => {
                out.append("unexpected input at: ");
            },
        }
        out.append(self.rest);
        out
    }
}

/// A character that a bare segment may hold.
pub open spec fn is_bare(c: char) -> bool {
    c != '"' && c != '\n' && c != '\t' && c != ' ' && c != '.'
}

/// The end of the longest run of bare characters that starts at `i`.
pub open spec fn bare_end(s: Seq<char>, i: int) -> int
    decreases s.len() - i,
{
    if 0 <= i < s.len() && is_bare(s[i]) {
        bare_end(s, i + 1)
    } else {
        i
    }
}

/// The position of the first `"` at or after `i`, or the end of `s`.
pub open spec fn quote_end(s: Seq<char>, i: int) -> int
    decreases s.len() - i,
{
    if 0 <= i < s.len() && s[i] != '"' {
        quote_end(s, i + 1)
    } else {
        i
    }
}

/// The segment written at `i`, with the position after it: a quoted segment
/// up to its closing quote, or else the longest bare run, which must not be
/// empty.
pub open spec fn segment_at(s: Seq<char>, i: int) -> Option<(Seq<char>, int)> {
    if 0 <= i < s.len() && s[i] == '"' {
        let end = quote_end(s, i + 1);
        if end < s.len() {
            Some((s.subrange(i + 1, end), end + 1))
        } else {
            None
        }
    } else {
        let end = bare_end(s, i);
        if end > i {
            Some((s.subrange(i, end), end))
        } else {
            None
        }
    }
}

/// A run ends between its start and the end of the text.
pub proof fn lemma_run_bounds(s: Seq<char>, i: int)
    requires
        0 <= i <= s.len(),
    ensures
        i <= bare_end(s, i) <= s.len(),
        i <= quote_end(s, i) <= s.len(),
    decreases s.len() - i,
{
    if i < s.len() {
        lemma_run_bounds(s, i + 1);
    }
}

/// A segment ends after its start and within the text.
pub proof fn lemma_segment_bounds(s: Seq<char>, i: int)
    requires
        0 <= i <= s.len(),
    ensures
        segment_at(s, i) matches Some((_, next)) ==> i < next <= s.len(),
{
    lemma_run_bounds(s, i);
    if i < s.len() {
        lemma_run_bounds(s, i + 1);
    }
}

/// The segments that follow a segment ended at `i`, each after one dot, and
/// the position where they stop. A dot that no segment follows is not taken.
pub open spec fn more_segments(s: Seq<char>, i: int) -> (Seq<Seq<char>>, int)
    decreases s.len() - i,
{
    if 0 <= i < s.len() && s[i] == '.' {
        match segment_at(s, i + 1) {
            Some((segment, next)) => {
                proof {
                    lemma_segment_bounds(s, i + 1);
                }
                (seq![segment] + more_segments(s, next).0, more_segments(s, next).1)
            },
            None => (Seq::empty(), i),
        }
    } else {
        (Seq::empty(), i)
    }
}

/// The segments of the path written after the leading dot, and the position
/// where the path stops.
pub open spec fn scan(s: Seq<char>) -> (Seq<Seq<char>>, int) {
    match segment_at(s, 1) {
        Some((segment, next)) => (
            seq![segment] + more_segments(s, next).0,
            more_segments(s, next).1,
        ),
        None => (Seq::empty(), 1),
    }
}

/// What a query means: its key segments, if it starts with a dot and the
/// path after it takes the whole query; else where parsing stopped and why.
pub open spec fn parse(s: Seq<char>) -> Result<Seq<Seq<char>>, (int, ParseFailure)> {
    if s.len() == 0 || s[0] != '.' {
        Err((0, ParseFailure::MissingDot))
    } else if scan(s).1 == s.len() {
        Ok(scan(s).0)
    } else {
        Err((scan(s).1, ParseFailure::TrailingInput))
    }
}

/// The texts of `keys`.
pub open spec fn key_texts(keys: Seq<&str>) -> Seq<Seq<char>> {
    Seq::new(keys.len(), |i: int| keys[i]@)
}

/// The characters of `s`.
fn chars_of(s: &str) -> (r: Vec<char>)
    ensures
        r@ == s@,
{
    broadcast use vstd::string::group_string_axioms;

    let mut r: Vec<char> = Vec::new();
    for c in it: s.chars()
        invariant
            it.seq() == s@,
            r@ == s@.take(it.index()),
    {
        r.push(c);
        assert(s@.take(it.index() + 1) =~= s@.take(it.index()).push(c));
    }
    assert(s@.take(s@.len() as int) =~= s@);
    r
}

fn bare_run(chars: &Vec<char>, start: usize) -> (end: usize)
    requires
        start <= chars@.len(),
    ensures
        end == bare_end(chars@, start as int),
        start <= end <= chars@.len(),
{
    let mut end = start;
    while end < chars.len() && chars[end] != '"' && chars[end] != '\n' && chars[end] != '\t'
        && chars[end] != ' ' && chars[end] != '.'
        invariant
            start <= end <= chars@.len(),
            bare_end(chars@, start as int) == bare_end(chars@, end as int),
        decreases chars@.len() - end,
    {
        end += 1;
    }
    end
}

fn quote_run(chars: &Vec<char>, start: usize) -> (end: usize)
    requires
        start <= chars@.len(),
    ensures
        end == quote_end(chars@, start as int),
        start <= end <= chars@.len(),
{
    let mut end = start;
    while end < chars.len() && chars[end] != '"'
        invariant
            start <= end <= chars@.len(),
            quote_end(chars@, start as int) == quote_end(chars@, end as int),
        decreases chars@.len() - end,
    {
        end += 1;
    }
    end
}

/// The segment written at `i`: where its text starts and ends, and the
/// position after it.
fn segment(chars: &Vec<char>, i: usize) -> (r: Option<(usize, usize, usize)>)
    requires
        i <= chars@.len(),
    ensures
        match r {
            Some((from, to, next)) => {
                &&& from <= to <= next <= chars@.len()
                &&& i < next
                &&& segment_at(chars@, i as int) == Some(
                    (chars@.subrange(from as int, to as int), next as int),
                )
            },
            None => segment_at(chars@, i as int) is None,
        },
{
    if i < chars.len() && chars[i] == '"' {
        let end = quote_run(chars, i + 1);
        if end < chars.len() {
            Some((i + 1, end, end + 1))
        } else {
            None
        }
    } else {
        let end = bare_run(chars, i);
        if end > i {
            Some((i, end, end))
        } else {
            None
        }
    }
}

/// Parses a path query into its key segments. On success the first part of
/// the result is what is left of the query, which is nothing.
pub fn query<'a>(input: &'a str) -> (r: Result<(&'a str, Vec<&'a str>), ParseError<'a>>)
    ensures
        match r {
            Ok((rest, keys)) => {
                &&& parse(input@) == Ok::<Seq<Seq<char>>, (int, ParseFailure)>(key_texts(keys@))
                &&& rest@.len() == 0
            },
            Err(e) => {
                &&& parse(input@) is Err
                &&& e.reason == parse(input@)->Err_0.1
                &&& e.rest@ == input@.skip(parse(input@)->Err_0.0)
            },
        },
{
    let chars = chars_of(input);
    let n = chars.len();
    if n == 0 || chars[0] != '.' {
        assert(input@.skip(0) =~= input@);
        return Err(ParseError { rest: input, reason: ParseFailure::MissingDot });
    }
    let ghost s = input@;
    let mut keys: Vec<&'a str> = Vec::new();
    let mut pos: usize = 1;
    let mut more = false;
    assert(key_texts(keys@) =~= Seq::<Seq<char>>::empty());
    if let Some((from, to, next)) = segment(&chars, 1) {
        keys.push(input.substring_char(from, to));
        pos = next;
        more = true;
        assert(key_texts(keys@) =~= seq![s.subrange(from as int, to as int)]);
    }
    while more
        invariant
            s == input@,
            s == chars@,
            n == s.len(),
            1 <= pos <= n,
            more ==> scan(s) == (
                key_texts(keys@) + more_segments(s, pos as int).0,
                more_segments(s, pos as int).1,
            ),
            !more ==> scan(s) == (key_texts(keys@), pos as int),
        decreases s.len() - pos, more as int,
    {
        more = false;
        if pos < n && chars[pos] == '.' {
            if let Some((from, to, next)) = segment(&chars, pos + 1) {
                let ghost before = key_texts(keys@);
                let ghost segment = s.subrange(from as int, to as int);
                keys.push(input.substring_char(from, to));
                assert(key_texts(keys@) =~= before + seq![segment]);
                assert((before + seq![segment]) + more_segments(s, next as int).0 =~= before + (
                seq![segment] + more_segments(s, next as int).0));
                pos = next;
                more = true;
            }
        }
        if !more {
            assert(key_texts(keys@) + Seq::<Seq<char>>::empty() =~= key_texts(keys@));
        }
    }
    let rest = input.substring_char(pos, n);
    if pos == n {
        Ok((rest, keys))
    } else {
        Err(ParseError { rest, reason: ParseFailure::TrailingInput })
    }
}

/// A key that can be written bare: it is not empty and holds bare
/// characters only.
pub open spec fn is_bare_key(key: Seq<char>) -> bool {
    key.len() > 0 && forall|i: int| 0 <= i < key.len() ==> is_bare(#[trigger] key[i])
}

/// A key that can be written between double quotes: it holds none.
pub open spec fn is_quotable(key: Seq<char>) -> bool {
    forall|i: int| 0 <= i < key.len() ==> #[trigger] key[i] != '"'
}

/// The text `w` is a way to write the key `key` as a segment.
pub open spec fn writes(w: Seq<char>, key: Seq<char>) -> bool {
    (is_bare_key(key) && w == key) || (is_quotable(key) && w == seq!['"'] + key + seq!['"'])
}

/// The segments `ws`, each after a dot.
pub open spec fn dotted(ws: Seq<Seq<char>>) -> Seq<char>
    decreases ws.len(),
{
    if ws.len() == 0 {
        Seq::empty()
    } else {
        seq!['.'] + ws[0] + dotted(ws.skip(1))
    }
}

/// The query that holds the segments `ws`: a single dot for no segment, else
/// the segments, each after a dot.
pub open spec fn written(ws: Seq<Seq<char>>) -> Seq<char> {
    if ws.len() == 0 {
        seq!['.']
    } else {
        dotted(ws)
    }
}

/// Each text of `ws` is a way to write the key of `keys` at its position.
pub open spec fn write_all(ws: Seq<Seq<char>>, keys: Seq<Seq<char>>) -> bool {
    ws.len() == keys.len() && forall|i: int| 0 <= i < ws.len() ==> writes(#[trigger] ws[i], keys[i])
}

proof fn lemma_bare_run(s: Seq<char>, i: int, end: int)
    requires
        0 <= i <= end <= s.len(),
        forall|j: int| i <= j < end ==> is_bare(#[trigger] s[j]),
        end == s.len() || !is_bare(s[end]),
    ensures
        bare_end(s, i) == end,
    decreases end - i,
{
    if i < end {
        lemma_bare_run(s, i + 1, end);
    }
}

proof fn lemma_quote_run(s: Seq<char>, i: int, end: int)
    requires
        0 <= i <= end < s.len(),
        forall|j: int| i <= j < end ==> #[trigger] s[j] != '"',
        s[end] == '"',
    ensures
        quote_end(s, i) == end,
    decreases end - i,
{
    if i < end {
        lemma_quote_run(s, i + 1, end);
    }
}

/// Where a way to write a key stands at `i`, followed by a dot or by the end
/// of the text, the segment at `i` is that key.
proof fn lemma_segment_written(s: Seq<char>, i: int, w: Seq<char>, key: Seq<char>)
    requires
        0 <= i,
        i + w.len() <= s.len(),
        s.subrange(i, i + w.len()) == w,
        writes(w, key),
        i + w.len() == s.len() || s[i + w.len()] == '.',
    ensures
        segment_at(s, i) == Some((key, i + w.len())),
{
    assert forall|j: int| 0 <= j < w.len() implies s[i + j] == #[trigger] w[j] by {
        assert(s.subrange(i, i + w.len())[j] == s[i + j]);
    }
    if is_bare_key(key) && w == key {
        assert(is_bare(w[0]));
        assert(s[i + 0] == w[0]);
        assert forall|j: int| i <= j < i + w.len() implies is_bare(#[trigger] s[j]) by {
            assert(s[i + (j - i)] == w[j - i]);
        }
        lemma_bare_run(s, i, i + w.len());
    } else {
        let end = i + 1 + key.len();
        assert(w.len() == key.len() + 2);
        assert(w[0] == '"');
        assert(s[i + 0] == w[0]);
        let close: int = (key.len() + 1) as int;
        assert(w[close] == '"');
        assert(s[i + close] == w[close]);
        assert forall|j: int| i + 1 <= j < end implies #[trigger] s[j] != '"' by {
            assert(s[i + (j - i)] == w[j - i]);
            assert(w[j - i] == key[j - i - 1]);
        }
        lemma_quote_run(s, i + 1, end);
        assert(s.subrange(i + 1, end) =~= key) by {
            assert forall|j: int| 0 <= j < key.len() implies s.subrange(i + 1, end)[j]
                == key[j] by {
                assert(s[i + (j + 1)] == w[j + 1]);
            }
        }
    }
}

/// Where the text from `i` on is the segments `ws`, each after a dot, the
/// segments that follow `i` are the keys that `ws` write, and they reach the
/// end of the text.
proof fn lemma_more_written(s: Seq<char>, i: int, ws: Seq<Seq<char>>, keys: Seq<Seq<char>>)
    requires
        0 <= i <= s.len(),
        s.subrange(i, s.len() as int) == dotted(ws),
        write_all(ws, keys),
    ensures
        more_segments(s, i) == (keys, s.len() as int),
    decreases ws.len(),
{
    let rest = s.subrange(i, s.len() as int);
    if ws.len() == 0 {
        assert(rest.len() == 0);
        assert(keys =~= Seq::empty());
    } else {
        let w = ws[0];
        let tail = dotted(ws.skip(1));
        assert(rest == seq!['.'] + w + tail);
        assert(rest[0] == '.');
        assert(s[i] == rest[0]);
        let next = i + 1 + w.len();
        assert(s.len() == i + 1 + w.len() + tail.len());
        assert(s.subrange(i + 1, next) =~= w) by {
            assert forall|j: int| 0 <= j < w.len() implies s.subrange(i + 1, next)[j] == w[j] by {
                assert(rest[j + 1] == s[i + (j + 1)]);
            }
        }
        assert(s.subrange(next, s.len() as int) =~= tail) by {
            assert forall|j: int| 0 <= j < tail.len() implies s.subrange(next, s.len() as int)[j]
                == tail[j] by {
                assert(rest[1 + w.len() + j] == s[i + (1 + w.len() + j)]);
            }
        }
        assert(writes(ws[0], keys[0]));
        if ws.len() > 1 {
            assert(tail == seq!['.'] + ws.skip(1)[0] + dotted(ws.skip(1).skip(1)));
            assert(tail[0] == '.');
            assert(s.subrange(next, s.len() as int)[0] == s[next]);
        } else {
            assert(ws.skip(1).len() == 0);
            assert(tail.len() == 0);
        }
        lemma_segment_written(s, i + 1, w, keys[0]);
        assert(write_all(ws.skip(1), keys.skip(1))) by {
            assert forall|j: int| 0 <= j < ws.skip(1).len() implies writes(
                #[trigger] ws.skip(1)[j],
                keys.skip(1)[j],
            ) by {
                assert(writes(ws[j + 1], keys[j + 1]));
            }
        }
        lemma_more_written(s, next, ws.skip(1), keys.skip(1));
        assert(seq![keys[0]] + keys.skip(1) =~= keys);
    }
}

/// A query written as a dot, or as segments that each follow a dot and each
/// write a key bare or between double quotes, parses to these keys.
pub proof fn parse_written(ws: Seq<Seq<char>>, keys: Seq<Seq<char>>)
    requires
        write_all(ws, keys),
    ensures
        parse(written(ws)) == Ok::<Seq<Seq<char>>, (int, ParseFailure)>(keys),
{
    let s = written(ws);
    if ws.len() == 0 {
        assert(keys =~= Seq::empty());
        assert(bare_end(s, 1) == 1);
    } else {
        assert(s.subrange(0, s.len() as int) =~= s);
        lemma_more_written(s, 0, ws, keys);
        assert(s == seq!['.'] + ws[0] + dotted(ws.skip(1)));
        assert(s[0] == '.');
    }
}

/// The text `t` is the keys `keys`, each written as a segment after a dot.
pub open spec fn spells(t: Seq<char>, keys: Seq<Seq<char>>) -> bool {
    exists|ws: Seq<Seq<char>>| #[trigger] write_all(ws, keys) && t == dotted(ws)
}

proof fn lemma_runs(s: Seq<char>, i: int)
    requires
        0 <= i <= s.len(),
    ensures
        forall|j: int| i <= j < bare_end(s, i) ==> is_bare(#[trigger] s[j]),
        forall|j: int| i <= j < quote_end(s, i) ==> #[trigger] s[j] != '"',
        quote_end(s, i) < s.len() ==> s[quote_end(s, i)] == '"',
    decreases s.len() - i,
{
    if i < s.len() {
        lemma_runs(s, i + 1);
    }
}

/// The text of a segment is a way to write its key.
proof fn lemma_segment_writes(s: Seq<char>, i: int)
    requires
        0 <= i <= s.len(),
    ensures
        segment_at(s, i) matches Some((key, next)) ==> i < next <= s.len() && writes(
            s.subrange(i, next),
            key,
        ),
{
    lemma_segment_bounds(s, i);
    lemma_runs(s, i);
    if i < s.len() {
        lemma_runs(s, i + 1);
        lemma_run_bounds(s, i + 1);
    }
    if let Some((key, next)) = segment_at(s, i) {
        if s[i] == '"' {
            assert(s.subrange(i, next) =~= seq!['"'] + key + seq!['"']);
            assert(is_quotable(key));
        } else {
            assert(is_bare_key(key));
        }
    }
}

/// The text that the segments after `i` take is these segments, each
/// written after a dot.
proof fn lemma_more_spells(s: Seq<char>, i: int)
    requires
        0 <= i <= s.len(),
    ensures
        i <= more_segments(s, i).1 <= s.len(),
        spells(s.subrange(i, more_segments(s, i).1), more_segments(s, i).0),
    decreases s.len() - i,
{
    let none = Seq::<Seq<char>>::empty();
    if i < s.len() && s[i] == '.' && segment_at(s, i + 1) is Some {
        let (key, next) = segment_at(s, i + 1)->0;
        lemma_segment_writes(s, i + 1);
        lemma_more_spells(s, next);
        let (keys, stop) = more_segments(s, next);
        let rest = choose|ws: Seq<Seq<char>>| #[trigger]
            write_all(ws, keys) && s.subrange(next, stop) == dotted(ws);
        let w = s.subrange(i + 1, next);
        let ws = seq![w] + rest;
        assert(ws.skip(1) =~= rest);
        assert(write_all(ws, seq![key] + keys));
        assert(s.subrange(i, stop) =~= seq!['.'] + w + s.subrange(next, stop));
    } else {
        assert(write_all(none, none));
        assert(s.subrange(i, i) =~= dotted(none));
    }
}

/// A query that parses is written as a dot, or as segments that each follow
/// a dot and each write a key of the result bare or between double quotes.
pub proof fn parsed_is_written(s: Seq<char>, keys: Seq<Seq<char>>)
    requires
        parse(s) == Ok::<Seq<Seq<char>>, (int, ParseFailure)>(keys),
    ensures
        exists|ws: Seq<Seq<char>>| #[trigger] write_all(ws, keys) && s == written(ws),
{
    let none = Seq::<Seq<char>>::empty();
    if segment_at(s, 1) is Some {
        let (key, next) = segment_at(s, 1)->0;
        lemma_segment_writes(s, 1);
        lemma_more_spells(s, next);
        let more = more_segments(s, next).0;
        let rest = choose|ws: Seq<Seq<char>>| #[trigger]
            write_all(ws, more) && s.subrange(next, s.len() as int) == dotted(ws);
        let w = s.subrange(1, next);
        let ws = seq![w] + rest;
        assert(ws.skip(1) =~= rest);
        assert(write_all(ws, keys));
        assert(s =~= seq!['.'] + w + s.subrange(next, s.len() as int));
        assert(s == written(ws));
    } else {
        assert(write_all(none, keys));
        assert(s =~= written(none));
    }
}

} // verus!
