//! Lazy tokenization of comma-separated header values.
use vstd::prelude::*;
use vstd::slice::slice_subrange;
use crate::grammar::{first_not, trim_end, scan, trim_end_at, lemma_first_not_bounds, Class};

verus! {

/// Where the first element of `s` ends: the first comma, or the end of `s`.
pub open spec fn piece_end(s: Seq<u8>) -> int {
    let k = first_not(s, 0, Class::NotComma);
    if 0 <= k <= s.len() { k } else { s.len() as int }
}

/// Where the first element's text starts once leading white space is cut.
pub open spec fn piece_lo(s: Seq<u8>) -> int {
    let lo = first_not(s, 0, Class::Ows);
    if 0 <= lo <= piece_end(s) { lo } else { piece_end(s) }
}

/// The first element of `s`, with surrounding white space cut.
pub open spec fn first_piece(s: Seq<u8>) -> Seq<u8> {
    s.subrange(piece_lo(s), trim_end(s, piece_lo(s), piece_end(s)))
}

/// What follows the first element and its comma.
pub open spec fn after_piece(s: Seq<u8>) -> Seq<u8> {
    if piece_end(s) < s.len() {
        s.subrange(piece_end(s) + 1, s.len() as int)
    } else {
        Seq::empty()
    }
}

/// The tokens of a comma-separated value: each element trimmed, empty elements left out.
pub open spec fn tokens(s: Seq<u8>) -> Seq<Seq<u8>>
    decreases s.len(),
{
    if s.len() == 0 {
        Seq::empty()
    } else {
        let rest = tokens(after_piece(s));
        if first_piece(s).len() == 0 {
            rest
        } else {
            seq![first_piece(s)] + rest
        }
    }
}

/// Whether some token equals `w` up to ASCII case.
pub open spec fn has_token(s: Seq<u8>, w: Seq<u8>) -> bool {
    exists|i: int| 0 <= i < tokens(s).len() && crate::grammar::eq_no_case(#[trigger] tokens(s)[i], w)
}

/// Walks the tokens of a header value, one per call of `next`.
pub struct ValueIterator<'a> {
    data: &'a [u8],
}

impl<'a> View for ValueIterator<'a> {
    type V = Seq<u8>;

    /// The part of the value not handed out yet.
    closed spec fn view(&self) -> Seq<u8> {
        self.data@
    }
}

impl<'a> ValueIterator<'a> {
    pub fn new(data: &'a [u8]) -> (r: Self)
        ensures
            r@ == data@,
    {
        ValueIterator { data }
    }

    /// The next token, or `None` once all were handed out.
    pub fn next(&mut self) -> (r: Option<&'a [u8]>)
        ensures
            match r {
                None => tokens(old(self)@) == Seq::<Seq<u8>>::empty() && tokens(final(self)@) == Seq::<Seq<u8>>::empty(),
                Some(t) => tokens(old(self)@) == seq![t@] + tokens(final(self)@),
            },
            final(self)@.len() <= old(self)@.len(),
            r is Some ==> final(self)@.len() < old(self)@.len(),
    {
        while self.data.len() > 0
            invariant
                tokens(old(self)@) == tokens(self@),
                self@.len() <= old(self)@.len(),
            decreases self.data@.len(),
        {
            let data = self.data;
            let k = scan(data, 0, Class::NotComma);
            let lo0 = scan(data, 0, Class::Ows);
            proof {
                lemma_first_not_bounds(data@, 0, Class::NotComma);
                lemma_first_not_bounds(data@, 0, Class::Ows);
            }
            let lo = if lo0 <= k { lo0 } else { k };
            let hi = trim_end_at(data, lo, k);
            let piece = slice_subrange(data, lo, hi);
            if k < data.len() {
                self.data = slice_subrange(data, k + 1, data.len());
            } else {
                self.data = slice_subrange(data, data.len(), data.len());
            }
            proof {
                assert(self.data@ =~= after_piece(data@));
                assert(piece@ =~= first_piece(data@));
            }
            if hi > lo {
                return Some(piece);
            }
        }
        proof {
            assert(self.data@ =~= Seq::<u8>::empty());
        }
        None
    }
}

} // verus!
