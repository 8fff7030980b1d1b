//! Decimal text form of `u32` values: the canonical digit string written by
//! the serializer, and a parser that accepts any digit string whose value
//! fits in 32 bits (leading zeros included).

use vstd::prelude::*;

verus! {

/// `b` is an ASCII decimal digit.
pub open spec fn is_digit(b: u8) -> bool {
    0x30 <= b <= 0x39
}

/// Every byte of `s` is an ASCII decimal digit.
pub open spec fn is_digit_seq(s: Seq<u8>) -> bool {
    forall|i: int| 0 <= i < s.len() ==> is_digit(#[trigger] s[i])
}

/// Numeric value of a digit string, most significant digit first.
pub open spec fn dec_value(s: Seq<u8>) -> int
    decreases s.len(),
{
    if s.len() == 0 {
        0
    } else {
        dec_value(s.drop_last()) * 10 + (s.last() - 0x30)
    }
}

/// The canonical decimal digits of `n`: no sign, no leading zeros.
pub open spec fn dec_digits(n: nat) -> Seq<u8>
    decreases n,
{
    if n < 10 {
        seq![(0x30 + n) as u8]
    } else {
        dec_digits(n / 10).push((0x30 + n % 10) as u8)
    }
}

/// What `parse_u32` returns: the value of a nonempty all-digit string,
/// provided that value fits in a `u32`.
pub open spec fn parse_u32_spec(s: Seq<u8>) -> Option<u32> {
    if s.len() > 0 && is_digit_seq(s) && dec_value(s) <= u32::MAX {
        Some(dec_value(s) as u32)
    } else {
        None
    }
}

proof fn lemma_dec_value_nonneg(s: Seq<u8>)
    requires
        is_digit_seq(s),
    ensures
        dec_value(s) >= 0,
    decreases s.len(),
{
    if s.len() > 0 {
        assert(is_digit_seq(s.drop_last()));
        lemma_dec_value_nonneg(s.drop_last());
    }
}

/// Appending digits never decreases the value.
proof fn lemma_dec_value_append_ge(s: Seq<u8>, t: Seq<u8>)
    requires
        is_digit_seq(s),
        is_digit_seq(t),
    ensures
        dec_value(s + t) >= dec_value(s),
    decreases t.len(),
{
    if t.len() == 0 {
        assert(s + t =~= s);
    } else {
        assert(is_digit_seq(t.drop_last()));
        lemma_dec_value_append_ge(s, t.drop_last());
        assert((s + t).drop_last() =~= s + t.drop_last());
        assert(is_digit_seq(s + t.drop_last()));
        lemma_dec_value_nonneg(s + t.drop_last());
        assert(dec_value(s + t) == dec_value(s + t.drop_last()) * 10 + ((s + t).last() - 0x30));
    }
}

/// The canonical digits of `n` are a nonempty digit string that reads back
/// as `n`.
pub proof fn lemma_dec_digits_ok(n: nat)
    ensures
        dec_digits(n).len() >= 1,
        is_digit_seq(dec_digits(n)),
        dec_value(dec_digits(n)) == n,
    decreases n,
{
    if n < 10 {
        let s = dec_digits(n);
        assert(s =~= seq![(0x30 + n) as u8]);
        assert(s.drop_last() =~= Seq::<u8>::empty());
        assert(s.last() == (0x30 + n) as u8);
        assert(dec_value(s) == dec_value(s.drop_last()) * 10 + (s.last() - 0x30));
        assert(dec_value(s.drop_last()) == 0);
    } else {
        lemma_dec_digits_ok(n / 10);
        let s = dec_digits(n);
        let prefix = dec_digits(n / 10);
        assert(s =~= prefix.push((0x30 + n % 10) as u8));
        assert(s.drop_last() =~= prefix);
        assert(s.last() == (0x30 + n % 10) as u8);
        assert(dec_value(s) == dec_value(prefix) * 10 + n % 10);
        assert((n / 10) * 10 + n % 10 == n) by (nonlinear_arith);
        assert forall|i: int| 0 <= i < s.len() implies is_digit(#[trigger] s[i]) by {
            if i < prefix.len() {
                assert(s[i] == prefix[i]);
            }
        }
    }
}

/// Writes the canonical decimal digits of `n` after the bytes already in
/// `out`.
pub fn push_dec_digits(n: u32, out: &mut Vec<u8>)
    ensures
        final(out)@ == old(out)@ + dec_digits(n as nat),
    decreases n,
{
    if n >= 10 {
        push_dec_digits(n / 10, out);
    }
    let d: u8 = 0x30 + (n % 10) as u8;
    out.push(d);
    proof {
        if n < 10 {
            assert(old(out)@ + dec_digits(n as nat) =~= old(out)@.push(d));
        } else {
            assert(old(out)@ + dec_digits(n as nat) =~= (old(out)@ + dec_digits(
                (n / 10) as nat,
            )).push(d));
        }
    }
}

/// Parses a decimal `u32`, accepting exactly the strings that
/// `parse_u32_spec` accepts.
pub fn parse_u32(s: &[u8]) -> (r: Option<u32>)
    ensures
        r == parse_u32_spec(s@),
{
    if s.len() == 0 {
        return None;
    }
    let mut i: usize = 0;
    let mut acc: u32 = 0;
    while i < s.len()
        invariant
            0 <= i <= s@.len(),
            is_digit_seq(s@.take(i as int)),
            acc == dec_value(s@.take(i as int)),
        decreases s@.len() - i,
    {
        let b = s[i];
        proof {
            assert(s@.take(i as int + 1).drop_last() =~= s@.take(i as int));
            assert(s@.take(i as int + 1).last() == s@[i as int]);
        }
        if !(0x30 <= b && b <= 0x39) {
            assert(!is_digit(s@[i as int]));
            return None;
        }
        let d: u32 = (b - 0x30) as u32;
        if acc > 0xFFFF_FFFF / 10 || (acc == 0xFFFF_FFFF / 10 && d > 0xFFFF_FFFF % 10) {
            proof {
                let pre = s@.take(i as int + 1);
                assert(dec_value(pre) == acc * 10 + d);
                assert(dec_value(pre) > u32::MAX);
                if is_digit_seq(s@) {
                    assert forall|j: int| 0 <= j < s@.skip(i as int + 1).len() implies is_digit(
                        #[trigger] s@.skip(i as int + 1)[j],
                    ) by {
                        assert(s@.skip(i as int + 1)[j] == s@[j + i + 1]);
                    }
                    lemma_dec_value_append_ge(pre, s@.skip(i as int + 1));
                    assert(pre + s@.skip(i as int + 1) =~= s@);
                }
            }
            return None;
        }
        acc = acc * 10 + d;
        i = i + 1;
    }
    assert(s@.take(i as int) =~= s@);
    Some(acc)
}

} // verus!
