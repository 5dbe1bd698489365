//! A cursor over the `-` / `_` separated subtags of a byte string.

use vstd::prelude::*;

verus! {

pub open spec fn is_separator(b: u8) -> bool {
    b == 45u8 || b == 95u8
}

/// The subtags of `s` from the one that starts at `start`, whose bytes so far
/// run up to `i`: `s` split at every separator, empty subtags included.
pub open spec fn split_from(s: Seq<u8>, start: int, i: int) -> Seq<Seq<u8>>
    decreases s.len() - i,
{
    if i >= s.len() {
        seq![s.subrange(start, s.len() as int)]
    } else if is_separator(s[i]) {
        seq![s.subrange(start, i)] + split_from(s, i + 1, i + 1)
    } else {
        split_from(s, start, i + 1)
    }
}

/// All subtags of `s`. An empty string has one, empty, subtag.
pub open spec fn subtags_of(s: Seq<u8>) -> Seq<Seq<u8>> {
    split_from(s, 0, 0)
}

/// A cursor over the subtags of a byte string that can look at the next
/// subtag without taking it.
#[derive(Clone, Copy, Debug)]
pub struct SubtagIterator<'a> {
    slice: &'a [u8],
    pos: usize,
    done: bool,
}

impl<'a> SubtagIterator<'a> {
    /// The bytes that the cursor walks.
    pub closed spec fn source(&self) -> Seq<u8> {
        self.slice@
    }

    /// The subtags not taken yet.
    pub closed spec fn rest(&self) -> Seq<Seq<u8>> {
        if self.done {
            seq![]
        } else {
            split_from(self.slice@, self.pos as int, self.pos as int)
        }
    }

    pub closed spec fn wf(&self) -> bool {
        self.pos <= self.slice@.len()
    }

    pub fn new(slice: &'a [u8]) -> (r: SubtagIterator<'a>)
        ensures
            r.wf(),
            r.source() == slice@,
            r.rest() == subtags_of(slice@),
    {
        SubtagIterator { slice, pos: 0, done: false }
    }

    /// The bytes that the cursor walks.
    pub fn source_bytes(&self) -> (r: &'a [u8])
        ensures
            r@ == self.source(),
    {
        self.slice
    }

    /// The end of the subtag that starts at `pos`.
    fn current_end(&self) -> (e: usize)
        requires
            self.wf(),
            !self.done,
        ensures
            self.pos <= e <= self.slice@.len(),
            self.rest() == seq![self.slice@.subrange(self.pos as int, e as int)] + (if e
                < self.slice@.len() {
                split_from(self.slice@, e + 1, e + 1)
            } else {
                seq![]
            }),
    {
        let mut e: usize = self.pos;
        while e < self.slice.len() && !(self.slice[e] == 45u8 || self.slice[e] == 95u8)
            invariant
                self.pos <= e <= self.slice@.len(),
                split_from(self.slice@, self.pos as int, self.pos as int) == split_from(
                    self.slice@,
                    self.pos as int,
                    e as int,
                ),
            decreases self.slice@.len() - e,
        {
            e = e + 1;
        }
        e
    }

    /// The bounds of the next subtag, which stays in place.
    pub fn peek_manual(&self) -> (r: Option<(usize, usize)>)
        requires
            self.wf(),
        ensures
            r is None <==> self.rest().len() == 0,
            r matches Some((s, e)) ==> s <= e <= self.source().len() && self.source().subrange(
                s as int,
                e as int,
            ) == self.rest()[0],
    {
        if self.done {
            None
        } else {
            let e = self.current_end();
            Some((self.pos, e))
        }
    }

    /// The bounds of the next subtag, which is taken.
    pub fn next_manual(&mut self) -> (r: Option<(usize, usize)>)
        requires
            old(self).wf(),
        ensures
            final(self).wf(),
            final(self).source() == old(self).source(),
            r is None <==> old(self).rest().len() == 0,
            r is None ==> final(self).rest() == old(self).rest(),
            r matches Some((s, e)) ==> s <= e <= old(self).source().len() && old(
                self,
            ).source().subrange(s as int, e as int) == old(self).rest()[0] && final(self).rest()
                == old(self).rest().drop_first(),
    {
        if self.done {
            None
        } else {
            let e = self.current_end();
            let s = self.pos;
            if e < self.slice.len() {
                self.pos = e + 1;
            } else {
                self.done = true;
            }
            Some((s, e))
        }
    }
}

} // verus!
