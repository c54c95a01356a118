use vstd::prelude::*;
use vstd::string::*;

use crate::delimiter::Delimiter;

verus! {

/// The segments that splitting `h` on `d` produces, in order: the bytes before
/// each match, then everything after the last one.
pub open spec fn segments<D: Delimiter>(d: &D, h: Seq<u8>) -> Seq<Seq<u8>>
    decreases h.len(),
{
    match d.next_match(h) {
        Some((a, b)) => if 0 <= a < b <= h.len() {
            seq![h.subrange(0, a)] + segments(d, h.subrange(b, h.len() as int))
        } else {
            seq![h]
        },
        None => seq![h],
    }
}

/// A lazy, forward-only split of a borrowed text.
pub struct Splitter<'a, T> {
    remainder: Option<&'a str>,
    delimiter: T,
}

impl<'a, T> Splitter<'a, T> {
    /// The bytes not consumed yet; `None` once the last segment is out.
    pub closed spec fn rest(&self) -> Option<Seq<u8>> {
        match self.remainder {
            Some(r) => Some(r.spec_bytes()),
            None => None,
        }
    }

    /// The delimiter this splitter splits on.
    pub closed spec fn delim(&self) -> T {
        self.delimiter
    }

    /// Starts splitting `text` on `delimiter`.
    pub fn new(text: &'a str, delimiter: T) -> (r: Self)
        ensures
            r.rest() == Some(text.spec_bytes()),
            r.delim() == delimiter,
    {
        Self { remainder: Some(text), delimiter }
    }
}

impl<'a, T: Delimiter> Splitter<'a, T> {
    /// The segments this splitter has still to produce.
    pub open spec fn remaining(&self) -> Seq<Seq<u8>> {
        match self.rest() {
            Some(h) => segments(&self.delim(), h),
            None => seq![],
        }
    }

    /// Produces the next segment, or `None` once the text is used up.
    pub fn next(&mut self) -> (r: Option<&'a str>)
        ensures
            final(self).delim() == old(self).delim(),
            r is None <==> old(self).remaining().len() == 0,
            r is Some ==> r->0.spec_bytes() == old(self).remaining()[0],
            old(self).remaining().len() > 0 ==> final(self).remaining()
                == old(self).remaining().drop_first(),
            old(self).remaining().len() == 0 ==> final(self).remaining().len() == 0,
            old(self).rest() is None ==> final(self).rest() is None,
    {
        proof {
            lemma_segments_nonempty(&self.delimiter, self.rest().unwrap_or(Seq::empty()));
        }
        match self.remainder {
            Some(rem) => match self.delimiter.find_next(rem) {
                Some((start, end)) => {
                    let (before, _) = rem.split_at(start);
                    let (_, after) = rem.split_at(end);
                    proof {
                        let h = rem.spec_bytes();
                        assert(after.spec_bytes() == h.subrange(end as int, h.len() as int));
                        assert(self.remaining().drop_first() =~= segments(
                            &self.delimiter,
                            after.spec_bytes(),
                        ));
                    }
                    self.remainder = Some(after);
                    Some(before)
                },
                None => {
                    assert(seq![rem.spec_bytes()].drop_first() =~= Seq::<Seq<u8>>::empty());
                    self.remainder = None;
                    Some(rem)
                },
            },
            None => None,
        }
    }

    /// Produces every remaining segment, in order.
    pub fn collect(self) -> (r: Vec<&'a str>)
        ensures
            r@.len() == self.remaining().len(),
            forall|i: int| 0 <= i < r@.len() ==> #[trigger] r@[i].spec_bytes() == self.remaining()[i],
    {
        let mut it = self;
        let mut out: Vec<&'a str> = Vec::new();
        loop
            invariant
                out@.len() + it.remaining().len() == self.remaining().len(),
                forall|i: int| 0 <= i < out@.len() ==> #[trigger] out@[i].spec_bytes() == self.remaining()[i],
                forall|i: int| 0 <= i < it.remaining().len() ==>
                    #[trigger] it.remaining()[i] == self.remaining()[out@.len() + i],
            ensures
                out@.len() == self.remaining().len(),
                forall|i: int| 0 <= i < out@.len() ==> #[trigger] out@[i].spec_bytes() == self.remaining()[i],
            decreases it.remaining().len(),
        {
            let ghost pending = it.remaining();
            match it.next() {
                Some(seg) => {
                    out.push(seg);
                    assert(forall|i: int| 0 <= i < it.remaining().len() ==>
                        #[trigger] it.remaining()[i] == pending[i + 1]);
                },
                None => {
                    break;
                },
            }
        }
        out
    }
}

/// Every text splits into at least one segment.
pub proof fn lemma_segments_nonempty<D: Delimiter>(d: &D, h: Seq<u8>)
    ensures
        segments(d, h).len() >= 1,
    decreases h.len(),
{
    match d.next_match(h) {
        Some((a, b)) => if 0 <= a < b <= h.len() {
            lemma_segments_nonempty(d, h.subrange(b, h.len() as int));
        },
        None => {},
    }
}

/// The text of `s` up to the first occurrence of `c`, or all of it.
pub fn until_char(s: &str, c: char) -> (r: &str)
    ensures
        r.spec_bytes() == segments(&c, s.spec_bytes())[0],
{
    let mut it = Splitter::new(s, c);
    proof {
        lemma_segments_nonempty(&c, s.spec_bytes());
    }
    match it.next() {
        Some(seg) => seg,
        None => s,
    }
}

} // verus!
