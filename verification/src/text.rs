//! Text: splitting, substring search, UTF-8 decoding and line numbers.

use vstd::prelude::*;
use vstd::string::*;
use vstd::utf8::*;

verus! {

/// The texts of strings.
pub open spec fn texts(strings: Seq<String>) -> Seq<Seq<char>> {
    strings.map_values(|s: String| s@)
}

/// Whether `name` is one of `names`.
pub fn is_among(name: &String, names: &Vec<String>) -> (found: bool)
    ensures
        found == texts(names@).to_set().contains(name@),
        found == exists|i: int| 0 <= i < names@.len() && (#[trigger] names@[i])@ == name@,
{
    for i in 0..names.len()
        invariant
            forall|j: int| 0 <= j < i ==> (#[trigger] names@[j])@ != name@,
    {
        if names[i] == *name {
            assert(texts(names@)[i as int] == name@);
            return true;
        }
    }
    false
}

/// `needle` occurs in `text` as a run of consecutive characters.
pub open spec fn occurs_in(needle: Seq<char>, text: Seq<char>) -> bool {
    exists|k: int| #[trigger] occurs_at(needle, text, k)
}

/// `needle` occurs in `text` at character position `k`.
pub open spec fn occurs_at(needle: Seq<char>, text: Seq<char>, k: int) -> bool {
    0 <= k && k + needle.len() <= text.len() && text.subrange(k, k + needle.len()) == needle
}

/// `str::find`: the search for a substring succeeds exactly where `needle`
/// occurs somewhere in `text`.
#[verifier::external_body]
fn find_text(text: &str, needle: &str) -> (found: bool)
    ensures
        found == occurs_in(needle@, text@),
{
    text.find(needle).is_some()
}

/// Whether every one of `needles` occurs in `text`.
pub fn contains_all(text: &str, needles: &Vec<String>) -> (all: bool)
    ensures
        all == forall|i: int| 0 <= i < needles.len() ==> occurs_in(#[trigger] needles[i]@, text@),
{
    for i in 0..needles.len()
        invariant
            forall|j: int| 0 <= j < i ==> occurs_in(#[trigger] needles[j]@, text@),
    {
        if !find_text(text, needles[i].as_str()) {
            return false;
        }
    }
    true
}

/// `std::str::from_utf8`: a byte slice is a string exactly where it is valid
/// UTF-8, and the string then consists of those bytes.
#[verifier::external_body]
fn utf8_text(content: &[u8]) -> (text: Option<&str>)
    ensures
        text is Some <==> valid_utf8(content@),
        text matches Some(s) ==> encode_utf8(s@) == content@,
{
    std::str::from_utf8(content).ok()
}

/// The text that `content` encodes, or `None` where it is not valid UTF-8.
pub fn decode_text(content: &[u8]) -> (text: Option<&str>)
    ensures
        text is Some <==> valid_utf8(content@),
        text matches Some(s) ==> s@ == decode_utf8(content@) && encode_utf8(s@) == content@,
{
    match utf8_text(content) {
        Some(s) => {
            proof {
                encode_utf8_decode_utf8(s@);
            }
            Some(s)
        },
        None => None,
    }
}

/// Position `i` holds the first `c` of `s`.
pub open spec fn is_first(s: Seq<char>, c: char, i: int) -> bool {
    &&& 0 <= i < s.len()
    &&& s[i] == c
    &&& forall|j: int| 0 <= j < i ==> s[j] != c
}

/// `s` cut at its first `c`: what stands before it and what stands after it,
/// or `None` where there is no `c`.
pub open spec fn cut(s: Seq<char>, c: char) -> Option<(Seq<char>, Seq<char>)> {
    if exists|i: int| #[trigger] is_first(s, c, i) {
        let i = choose|i: int| #[trigger] is_first(s, c, i);
        Some((s.subrange(0, i), s.subrange(i + 1, s.len() as int)))
    } else {
        None
    }
}

/// The cut of a text at a `c` is the one at its first `c`.
proof fn lemma_cut_at(s: Seq<char>, c: char, i: int)
    requires
        is_first(s, c, i),
    ensures
        cut(s, c) == Some((s.subrange(0, i), s.subrange(i + 1, s.len() as int))),
{
    let k = choose|k: int| #[trigger] is_first(s, c, k);
    assert(is_first(s, c, k));
    assert(k == i) by {
        if k < i {
            assert(s[k] != c);
        } else if i < k {
            assert(s[i] != c);
        }
    }
}

/// A text without `c` has no cut at `c`.
proof fn lemma_cut_none(s: Seq<char>, c: char)
    requires
        forall|j: int| 0 <= j < s.len() ==> s[j] != c,
    ensures
        cut(s, c) is None,
{
    assert forall|i: int| !#[trigger] is_first(s, c, i) by {}
}

/// Cuts `s` at its first `c`.
pub fn cut_text(s: &str, c: char) -> (parts: Option<(&str, &str)>)
    ensures
        match parts {
            Some((before, after)) => cut(s@, c) == Some((before@, after@)),
            None => cut(s@, c) is None,
        },
{
    let n: usize = s.unicode_len();
    let mut i: usize = 0;
    while i < n
        invariant
            i <= n,
            n == s@.len(),
            forall|j: int| 0 <= j < i ==> s@[j] != c,
        decreases n - i,
    {
        if s.get_char(i) == c {
            proof {
                lemma_cut_at(s@, c, i as int);
            }
            return Some((s.substring_char(0, i), s.substring_char(i + 1, n)));
        }
        i = i + 1;
    }
    proof {
        lemma_cut_none(s@, c);
    }
    None
}

/// How many of `bytes` are line feeds.
pub open spec fn line_feeds(bytes: Seq<u8>) -> nat
    decreases bytes.len(),
{
    if bytes.len() == 0 {
        0
    } else {
        line_feeds(bytes.drop_last()) + (if bytes.last() == 0x0a {
            1nat
        } else {
            0nat
        })
    }
}

/// The number of the line, counted from 1, that holds byte `offset` of `source`.
pub open spec fn line_at(source: Seq<char>, offset: int) -> nat {
    line_feeds(encode_utf8(source).subrange(0, offset)) + 1
}

/// The number of the line that holds byte `offset` of `source`.
pub fn line_number(source: &str, offset: usize) -> (line: usize)
    requires
        is_char_boundary(encode_utf8(source@), offset as int),
        offset <= encode_utf8(source@).len(),
        offset < usize::MAX,
    ensures
        line == line_at(source@, offset as int),
{
    let bytes = source.as_bytes();
    let mut count: usize = 0;
    let mut i: usize = 0;
    while i < offset
        invariant
            i <= offset,
            offset <= bytes.len(),
            offset < usize::MAX,
            bytes@ == encode_utf8(source@),
            count == line_feeds(bytes@.subrange(0, i as int)),
            count <= i,
        decreases offset - i,
    {
        assert(bytes@.subrange(0, i + 1).drop_last() =~= bytes@.subrange(0, i as int));
        if bytes[i] == 0x0a {
            count = count + 1;
        }
        i = i + 1;
    }
    count + 1
}

/// Bytes `start` to `end` of `source` are a text of their own: the two offsets
/// are in order and neither is inside a character.
pub open spec fn is_span(source: Seq<char>, start: int, end: int) -> bool {
    &&& 0 <= start <= end <= encode_utf8(source).len()
    &&& is_char_boundary(encode_utf8(source), start)
    &&& is_char_boundary(encode_utf8(source), end)
}

/// The text of bytes `start` to `end` of `source`.
pub open spec fn span_text(source: Seq<char>, start: int, end: int) -> Seq<char> {
    decode_utf8(encode_utf8(source).subrange(start, end))
}

/// A character boundary is one in what follows an earlier character boundary.
proof fn lemma_boundary_in_rest(bytes: Seq<u8>, start: int, end: int)
    requires
        valid_utf8(bytes),
        0 <= start <= end <= bytes.len(),
        is_char_boundary(bytes, start),
        is_char_boundary(bytes, end),
    ensures
        valid_utf8(bytes.subrange(start, bytes.len() as int)),
        is_char_boundary(bytes.subrange(start, bytes.len() as int), end - start),
{
    let rest = bytes.subrange(start, bytes.len() as int);
    valid_utf8_split(bytes, start);
    if end == bytes.len() {
        is_char_boundary_start_end_of_seq(rest);
    } else {
        is_char_boundary_iff_not_is_continuation_byte(bytes, end);
        is_char_boundary_iff_not_is_continuation_byte(rest, end - start);
        assert(rest[end - start] == bytes[end]);
    }
}

/// Cuts `source` into what stands before a span, the span, and what stands after it.
pub fn split_span(source: &str, start: usize, end: usize) -> (parts: (&str, &str, &str))
    requires
        is_span(source@, start as int, end as int),
    ensures
        parts.0@ == span_text(source@, 0, start as int),
        parts.1@ == span_text(source@, start as int, end as int),
        parts.2@ == span_text(source@, end as int, encode_utf8(source@).len() as int),
{
    let ghost bytes = encode_utf8(source@);
    proof {
        encode_utf8_valid_utf8(source@);
        lemma_boundary_in_rest(bytes, start as int, end as int);
    }
    let (before, rest) = source.split_at(start);
    let (inside, after) = rest.split_at(end - start);
    proof {
        assert(bytes.subrange(start as int, bytes.len() as int).subrange(0, end - start)
            =~= bytes.subrange(start as int, end as int));
        assert(bytes.subrange(start as int, bytes.len() as int).subrange(
            end - start,
            bytes.len() - start,
        ) =~= bytes.subrange(end as int, bytes.len() as int));
        encode_utf8_decode_utf8(before@);
        encode_utf8_decode_utf8(inside@);
        encode_utf8_decode_utf8(after@);
    }
    (before, inside, after)
}

/// Texts written one after the other are encoded one after the other.
pub proof fn lemma_encode_concat(a: Seq<char>, b: Seq<char>)
    ensures
        encode_utf8(a + b) == encode_utf8(a) + encode_utf8(b),
    decreases a.len(),
{
    if a.len() == 0 {
        assert(a + b =~= b);
        assert(encode_utf8(a) + encode_utf8(b) =~= encode_utf8(b));
    } else {
        lemma_encode_concat(a.drop_first(), b);
        assert((a + b).drop_first() =~= a.drop_first() + b);
        assert(encode_utf8(a + b) =~= encode_utf8(a) + encode_utf8(b));
    }
}

/// What is cut off before and after the first `c` makes up the text again, and there
/// is no `c` before the cut.
pub proof fn cut_parts_make_the_text(s: Seq<char>, c: char)
    ensures
        s.contains(c) <==> cut(s, c) is Some,
        cut(s, c) matches Some((before, after)) ==> {
            &&& s == before + seq![c] + after
            &&& !before.contains(c)
        },
{
    if s.contains(c) {
        let k = choose|k: int| 0 <= k < s.len() && s[k] == c;
        lemma_has_first(s, c, k);
    }
    if cut(s, c) is Some {
        let i = choose|i: int| #[trigger] is_first(s, c, i);
        assert(is_first(s, c, i));
        assert(s =~= s.subrange(0, i) + seq![c] + s.subrange(i + 1, s.len() as int));
        assert(s.contains(s[i]));
    }
}

proof fn lemma_has_first(s: Seq<char>, c: char, k: int)
    requires
        0 <= k < s.len(),
        s[k] == c,
    ensures
        exists|i: int| #[trigger] is_first(s, c, i),
    decreases k,
{
    if !is_first(s, c, k) {
        let j = choose|j: int| 0 <= j < k && s[j] == c;
        lemma_has_first(s, c, j);
    }
}

/// The parts before, in and after a span make up the text again.
pub proof fn span_parts_make_the_text(source: Seq<char>, start: int, end: int)
    requires
        is_span(source, start, end),
    ensures
        source == span_text(source, 0, start) + span_text(source, start, end) + span_text(
            source,
            end,
            encode_utf8(source).len() as int,
        ),
{
    let bytes = encode_utf8(source);
    let n = bytes.len() as int;
    let rest = bytes.subrange(start, n);
    encode_utf8_valid_utf8(source);
    encode_utf8_decode_utf8(source);
    lemma_boundary_in_rest(bytes, start, end);
    decode_utf8_split(bytes, start);
    decode_utf8_split(rest, end - start);
    assert(rest.subrange(0, end - start) =~= bytes.subrange(start, end));
    assert(rest.subrange(end - start, rest.len() as int) =~= bytes.subrange(end, n));
    assert(source =~= span_text(source, 0, start) + span_text(source, start, end) + span_text(
        source,
        end,
        n,
    ));
}

/// A text begins on line 1.
pub proof fn text_begins_on_line_one(source: Seq<char>)
    ensures
        line_at(source, 0) == 1,
{
}

/// Line numbers never fall, and rise by one behind each line feed.
pub proof fn lines_are_counted_by_line_feeds(source: Seq<char>, offset: int)
    requires
        0 <= offset < encode_utf8(source).len(),
    ensures
        line_at(source, offset + 1) == line_at(source, offset) + (if encode_utf8(source)[offset]
            == 0x0a {
            1int
        } else {
            0int
        }),
{
    let bytes = encode_utf8(source);
    assert(bytes.subrange(0, offset + 1).drop_last() =~= bytes.subrange(0, offset));
}

} // verus!
