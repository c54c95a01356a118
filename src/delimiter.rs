use vstd::prelude::*;
use vstd::string::*;
use vstd::utf8::*;

verus! {

/// `p` occurs in `h` at byte offset `i`, starting and ending on character
/// boundaries of `h`.
pub open spec fn occurs_at(h: Seq<u8>, p: Seq<u8>, i: int) -> bool {
    &&& 0 <= i
    &&& i + p.len() <= h.len()
    &&& h.subrange(i, i + p.len()) == p
    &&& is_char_boundary(h, i)
    &&& is_char_boundary(h, i + p.len())
}

/// The first offset at or after `i` where `p` occurs in `h`.
pub open spec fn first_occurrence_from(h: Seq<u8>, p: Seq<u8>, i: int) -> Option<int>
    decreases h.len() + 1 - i,
{
    if i < 0 || i + p.len() > h.len() {
        None
    } else if occurs_at(h, p, i) {
        Some(i)
    } else {
        first_occurrence_from(h, p, i + 1)
    }
}

/// The span of the first occurrence of a non-empty pattern `p` in `h`; an
/// empty pattern never matches.
pub open spec fn literal_match(h: Seq<u8>, p: Seq<u8>) -> Option<(int, int)> {
    if p.len() == 0 {
        None
    } else {
        match first_occurrence_from(h, p, 0) {
            Some(i) => Some((i, i + p.len())),
            None => None,
        }
    }
}

/// A span `(a, b)` that a delimiter may report in `h`: non-empty, within `h`,
/// and on character boundaries.
pub open spec fn valid_span(h: Seq<u8>, a: int, b: int) -> bool {
    &&& 0 <= a < b <= h.len()
    &&& is_char_boundary(h, a)
    &&& is_char_boundary(h, b)
}

/// The UTF-8 encoding of a single character.
pub open spec fn char_bytes(c: char) -> Seq<u8> {
    encode_utf8(seq![c])
}

/// A pattern that can locate its next occurrence in a text.
pub trait Delimiter {
    /// The byte span of the next occurrence of this delimiter in `h`.
    spec fn next_match(&self, h: Seq<u8>) -> Option<(int, int)>;

    /// Finds the next occurrence of this delimiter in `s`, as a byte span.
    fn find_next(&self, s: &str) -> (r: Option<(usize, usize)>)
        ensures
            match r {
                Some((a, b)) => {
                    &&& self.next_match(s.spec_bytes()) == Some((a as int, b as int))
                    &&& valid_span(s.spec_bytes(), a as int, b as int)
                },
                None => self.next_match(s.spec_bytes()) is None,
            },
    ;
}

/// Byte offset of the first char-aligned occurrence of `p` in `s`.
fn find_bytes(s: &str, p: &[u8]) -> (r: Option<usize>)
    requires
        p@.len() > 0,
    ensures
        match r {
            Some(i) => {
                &&& first_occurrence_from(s.spec_bytes(), p@, 0) == Some(i as int)
                &&& occurs_at(s.spec_bytes(), p@, i as int)
            },
            None => first_occurrence_from(s.spec_bytes(), p@, 0) is None,
        },
{
    let h = s.as_bytes();
    let hlen = h.len();
    let plen = p.len();
    if plen > hlen {
        return None;
    }
    let mut i: usize = 0;
    while i <= hlen - plen
        invariant
            h@ == s.spec_bytes(),
            hlen == h@.len(),
            plen == p@.len(),
            0 < plen <= hlen,
            i <= hlen - plen + 1,
            first_occurrence_from(h@, p@, 0) == first_occurrence_from(h@, p@, i as int),
        decreases hlen - plen + 1 - i,
    {
        if s.is_char_boundary(i) && s.is_char_boundary(i + plen) {
            let mut k: usize = 0;
            while k < plen && h[i + k] == p[k]
                invariant
                    h@ == s.spec_bytes(),
                    hlen == h@.len(),
                    plen == p@.len(),
                    i + plen <= hlen,
                    k <= plen,
                    forall|j: int| 0 <= j < k ==> h@[i + j] == p@[j],
                decreases plen - k,
            {
                k = k + 1;
            }
            if k == plen {
                assert(h@.subrange(i as int, i + plen) =~= p@);
                return Some(i);
            }
            assert(h@.subrange(i as int, i + plen)[k as int] != p@[k as int]);
        }
        i = i + 1;
    }
    None
}

impl<'p> Delimiter for &'p str {
    open spec fn next_match(&self, h: Seq<u8>) -> Option<(int, int)> {
        literal_match(h, (**self).spec_bytes())
    }

    /// The first char-aligned occurrence of this literal; the empty literal
    /// never matches, so a text split on it stays whole.
    fn find_next(&self, s: &str) -> (r: Option<(usize, usize)>) {
        let p = self.as_bytes();
        if p.len() == 0 {
            return None;
        }
        let n = s.as_bytes().len();
        match find_bytes(s, p) {
            Some(i) => {
                assert(i + p@.len() <= n);
                Some((i, i + p.len()))
            },
            None => None,
        }
    }
}

/// The UTF-8 encoding of `c`.
fn encode_char(c: char) -> (r: Vec<u8>)
    ensures
        r@ == char_bytes(c),
{
    proof {
        char_is_scalar(c);
        reveal_with_fuel(encode_utf8, 2);
        assert(seq![c].drop_first() =~= Seq::<char>::empty());
        assert(char_bytes(c) =~= encode_scalar(c as u32));
    }
    let v = c as u32;
    if v <= 0x7F {
        vec![(v & 0x7F) as u8]
    } else if v <= 0x7FF {
        vec![0xC0 | ((v >> 6) & 0x1F) as u8, 0x80 | (v & 0x3F) as u8]
    } else if v <= 0xFFFF {
        vec![
            0xE0 | ((v >> 12) & 0x0F) as u8,
            0x80 | ((v >> 6) & 0x3F) as u8,
            0x80 | (v & 0x3F) as u8,
        ]
    } else {
        vec![
            0xF0 | ((v >> 18) & 0x7) as u8,
            0x80 | ((v >> 12) & 0x3F) as u8,
            0x80 | ((v >> 6) & 0x3F) as u8,
            0x80 | (v & 0x3F) as u8,
        ]
    }
}

impl Delimiter for char {
    open spec fn next_match(&self, h: Seq<u8>) -> Option<(int, int)> {
        literal_match(h, char_bytes(*self))
    }

    /// The first occurrence of this character, matched on character
    /// boundaries so that a multi-byte character is never split.
    fn find_next(&self, s: &str) -> (r: Option<(usize, usize)>) {
        let p = encode_char(*self);
        let n = s.as_bytes().len();
        match find_bytes(s, p.as_slice()) {
            Some(i) => {
                assert(i + p@.len() <= n);
                Some((i, i + p.len()))
            },
            None => None,
        }
    }
}

} // verus!
