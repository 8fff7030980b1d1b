//! The contract an edge payload must meet to ride through the text format:
//! a canonical text form with an exact parser, where the text is a single
//! whitespace-free token and parsing the text of a value gives that value
//! back.
//!
//! `u32` implements it with the decimal form of `crate::num`.

use vstd::prelude::*;
use crate::num::{dec_digits, dec_value, is_digit_seq, parse_u32, parse_u32_spec, push_dec_digits};
use crate::num::lemma_dec_digits_ok;
use crate::text::is_token;

verus! {

/// An edge payload with a canonical, round-tripping text form.
pub trait EdgeValue: Sized {
    /// The canonical text form of this value.
    spec fn text_of(self) -> Seq<u8>;

    /// What `from_text` returns on each input.
    spec fn of_text(s: Seq<u8>) -> Option<Self>;

    /// Produces the canonical text form.
    fn to_text(&self) -> (r: Vec<u8>)
        ensures
            r@ == self.text_of(),
    ;

    /// Parses a text form; `None` on text this type does not produce.
    fn from_text(s: &[u8]) -> (r: Option<Self>)
        ensures
            r == Self::of_text(s@),
    ;

    /// The canonical text is a single token and parses back to the value.
    proof fn lemma_text_round_trip(self)
        ensures
            is_token(self.text_of()),
            Self::of_text(self.text_of()) == Some(self),
    ;
}

impl EdgeValue for u32 {
    open spec fn text_of(self) -> Seq<u8> {
        dec_digits(self as nat)
    }

    open spec fn of_text(s: Seq<u8>) -> Option<u32> {
        parse_u32_spec(s)
    }

    fn to_text(&self) -> (r: Vec<u8>) {
        let mut out: Vec<u8> = Vec::new();
        push_dec_digits(*self, &mut out);
        out
    }

    fn from_text(s: &[u8]) -> (r: Option<u32>) {
        parse_u32(s)
    }

    proof fn lemma_text_round_trip(self) {
        lemma_dec_digits_ok(self as nat);
        let s = dec_digits(self as nat);
        assert(forall|i: int| 0 <= i < s.len() ==> 0x30 <= (#[trigger] s[i]) <= 0x39);
        assert(dec_value(s) <= u32::MAX);
    }
}

} // verus!
