use vstd::prelude::*;
use vstd::string::*;
use vstd::utf8::*;

use crate::delimiter::{
    char_bytes,
    first_occurrence_from,
    literal_match,
    occurs_at,
    Delimiter,
};
use crate::splitter::{segments, Splitter};

verus! {

/// `segs` joined with `sep` between each two neighbours.
pub open spec fn join(segs: Seq<Seq<u8>>, sep: Seq<u8>) -> Seq<u8>
    decreases segs.len(),
{
    if segs.len() == 0 {
        seq![]
    } else if segs.len() == 1 {
        segs[0]
    } else {
        segs[0] + sep + join(segs.drop_first(), sep)
    }
}

/// The offset a forward scan finds is an occurrence.
proof fn lemma_first_occurrence_occurs(h: Seq<u8>, p: Seq<u8>, j: int)
    ensures
        first_occurrence_from(h, p, j) matches Some(i) ==> occurs_at(h, p, i),
    decreases h.len() + 1 - j,
{
    if !(j < 0 || j + p.len() > h.len()) && !occurs_at(h, p, j) {
        lemma_first_occurrence_occurs(h, p, j + 1);
    }
}

/// A forward scan finds nothing where `p` never occurs.
proof fn lemma_first_occurrence_absent(h: Seq<u8>, p: Seq<u8>, j: int)
    requires
        forall|i: int| !#[trigger] occurs_at(h, p, i),
    ensures
        first_occurrence_from(h, p, j) is None,
    decreases h.len() + 1 - j,
{
    if !(j < 0 || j + p.len() > h.len()) {
        lemma_first_occurrence_absent(h, p, j + 1);
    }
}

/// Splitting on a literal and joining the segments back with it gives the
/// text again.
proof fn lemma_join_literal_segments<D: Delimiter>(d: &D, p: Seq<u8>, h: Seq<u8>)
    requires
        forall|x: Seq<u8>| #[trigger] d.next_match(x) == literal_match(x, p),
    ensures
        join(segments(d, h), p) == h,
    decreases h.len(),
{
    if p.len() > 0 {
        lemma_first_occurrence_occurs(h, p, 0);
    }
    assert(d.next_match(h) == literal_match(h, p));
    match literal_match(h, p) {
        Some((a, b)) => {
            let tail = h.subrange(b, h.len() as int);
            lemma_join_literal_segments(d, p, tail);
            crate::splitter::lemma_segments_nonempty(d, tail);
            let segs = segments(d, h);
            assert(segs.drop_first() =~= segments(d, tail));
            assert(h.subrange(a, b) == p);
            assert(h =~= h.subrange(0, a) + p + tail);
        },
        None => {},
    }
}

/// Joining the segments of `text` split on the literal `d`, with `d` between
/// each two, gives `text` back; empty segments keep their places.
pub proof fn lemma_round_trip_str(text: &str, d: &str)
    ensures
        join(segments(&d, text.spec_bytes()), d.spec_bytes()) == text.spec_bytes(),
{
    lemma_join_literal_segments(&d, d.spec_bytes(), text.spec_bytes());
}

/// Joining the segments of `text` split on the character `c`, with `c`
/// between each two, gives `text` back; empty segments keep their places.
pub proof fn lemma_round_trip_char(text: &str, c: char)
    ensures
        join(segments(&c, text.spec_bytes()), char_bytes(c)) == text.spec_bytes(),
{
    lemma_join_literal_segments(&c, char_bytes(c), text.spec_bytes());
}

/// A text in which the literal `d` never occurs splits into one segment: the
/// whole text.
pub proof fn lemma_no_occurrence_str(text: &str, d: &str)
    requires
        forall|i: int|
            0 <= i && i + d.spec_bytes().len() <= text.spec_bytes().len()
                ==> #[trigger] text.spec_bytes().subrange(i, i + d.spec_bytes().len())
                != d.spec_bytes(),
    ensures
        segments(&d, text.spec_bytes()) == seq![text.spec_bytes()],
{
    lemma_first_occurrence_absent(text.spec_bytes(), d.spec_bytes(), 0);
}

/// Where the encoding of `c` starts on a character boundary of a text, `c` is
/// one of the text's characters.
proof fn lemma_char_occurrence_is_char(text: &str, c: char, i: int)
    requires
        occurs_at(text.spec_bytes(), char_bytes(c), i),
    ensures
        text@.contains(c),
{
    let t = text@;
    let h = text.spec_bytes();
    let cb = char_bytes(c);
    encode_utf8_valid_utf8(t);
    encode_utf8_decode_utf8(t);
    decode_utf8_split(h, i);
    valid_utf8_split(h, i);
    let head = h.subrange(0, i);
    let tail = h.subrange(i, h.len() as int);
    encode_utf8_first_scalar(seq![c]);
    char_is_scalar(c);
    char_u32_cast(c, c as u32);
    assert(cb.len() >= 1) by {
        reveal_with_fuel(encode_utf8, 2);
    }
    assert forall|k: int| 0 <= k < cb.len() implies tail[k] == cb[k] by {
        assert(h.subrange(i, i + cb.len())[k] == cb[k]);
    }
    assert(decode_first_scalar(tail) == decode_first_scalar(cb));
    assert(decode_utf8(tail)[0] == c);
    let n = decode_utf8(head).len() as int;
    assert(t[n] == c);
}

/// A text that does not hold the character `c` splits into one segment: the
/// whole text.
pub proof fn lemma_absent_char(text: &str, c: char)
    requires
        !text@.contains(c),
    ensures
        segments(&c, text.spec_bytes()) == seq![text.spec_bytes()],
{
    assert forall|i: int| !#[trigger] occurs_at(text.spec_bytes(), char_bytes(c), i) by {
        if occurs_at(text.spec_bytes(), char_bytes(c), i) {
            lemma_char_occurrence_is_char(text, c, i);
        }
    }
    lemma_first_occurrence_absent(text.spec_bytes(), char_bytes(c), 0);
}

/// The empty text splits into exactly one empty segment, whatever the
/// delimiter.
pub proof fn lemma_empty_text<D: Delimiter>(d: &D)
    ensures
        segments(d, Seq::<u8>::empty()) == seq![Seq::<u8>::empty()],
{
}

/// Two splitters built from the same text and delimiter produce the same
/// segments.
pub proof fn lemma_construction_deterministic<'a, D: Delimiter>(
    text: &'a str,
    d: D,
    s1: Splitter<'a, D>,
    s2: Splitter<'a, D>,
)
    requires
        s1.rest() == Some(text.spec_bytes()),
        s1.delim() == d,
        s2.rest() == Some(text.spec_bytes()),
        s2.delim() == d,
    ensures
        s1.remaining() == s2.remaining(),
        s1.remaining() == segments(&d, text.spec_bytes()),
{
}

} // verus!
