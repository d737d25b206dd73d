//! Fixed-point decimal parser: a byte field such as `-12.3` becomes the
//! integer `-123`, i.e. the value scaled so that one fractional digit turns
//! into a whole number of tenths.

use vstd::prelude::*;

verus! {

/// Value accumulated by folding the digit bytes of `s` left to right in base
/// ten, skipping minus signs (45) and decimal points (46).
pub open spec fn dec_digits_value(s: Seq<u8>) -> int
    decreases s.len(),
{
    if s.len() == 0 {
        0
    } else {
        let b = s.last();
        if b == 45 || b == 46 {
            dec_digits_value(s.drop_last())
        } else {
            dec_digits_value(s.drop_last()) * 10 + (b - 48)
        }
    }
}

/// Whether a minus sign occurs anywhere in the field.
pub open spec fn has_minus(s: Seq<u8>) -> bool {
    exists|i: int| 0 <= i < s.len() && s[i] == 45
}

/// Meaning of a raw decimal field: the digits folded in base ten (the
/// decimal point is only skipped, so a literal with one fractional digit
/// comes out in tenths), negated when a minus sign occurs in the field.
/// An empty field means zero.
pub open spec fn parse_decimal(s: Seq<u8>) -> int {
    if has_minus(s) {
        -dec_digits_value(s)
    } else {
        dec_digits_value(s)
    }
}

/// Bytes a decimal field may hold: minus sign, decimal point, or a digit.
pub open spec fn decimal_byte(b: u8) -> bool {
    b == 45 || b == 46 || (48 <= b && b <= 57)
}

/// The fields the executable parser accepts: sign, point and digit bytes
/// only, with a folded value small enough for `i32`.
pub open spec fn valid_decimal_bytes(s: Seq<u8>) -> bool {
    &&& forall|i: int| 0 <= i < s.len() ==> decimal_byte(#[trigger] s[i])
    &&& dec_digits_value(s) <= i32::MAX
}

pub proof fn lemma_dec_digits_nonneg(s: Seq<u8>)
    requires
        forall|i: int| 0 <= i < s.len() ==> decimal_byte(#[trigger] s[i]),
    ensures
        dec_digits_value(s) >= 0,
    decreases s.len(),
{
    if s.len() > 0 {
        assert forall|i: int| 0 <= i < s.drop_last().len() implies decimal_byte(
            #[trigger] s.drop_last()[i],
        ) by {
            assert(s.drop_last()[i] == s[i]);
        }
        lemma_dec_digits_nonneg(s.drop_last());
    }
}

/// The folded value of a prefix never exceeds the folded value of the whole
/// field, so no intermediate step of the left-to-right fold overflows when
/// the final value fits.
pub proof fn lemma_dec_digits_prefix(s: Seq<u8>, n: int)
    requires
        forall|i: int| 0 <= i < s.len() ==> decimal_byte(#[trigger] s[i]),
        0 <= n <= s.len(),
    ensures
        0 <= dec_digits_value(s.take(n)) <= dec_digits_value(s),
    decreases s.len() - n,
{
    assert forall|i: int| 0 <= i < s.take(n).len() implies decimal_byte(
        #[trigger] s.take(n)[i],
    ) by {
        assert(s.take(n)[i] == s[i]);
    }
    lemma_dec_digits_nonneg(s.take(n));
    if n == s.len() {
        assert(s.take(n) =~= s);
    } else {
        lemma_dec_digits_prefix(s, n + 1);
        assert(s.take(n + 1).drop_last() =~= s.take(n));
        assert(s.take(n + 1).last() == s[n]);
    }
}

/// Parses a raw decimal field into tenths: a minus sign anywhere negates,
/// a decimal point is skipped, every other byte is folded as a digit.
pub fn fast_parse_float_to_int(data: &[u8]) -> (r: i32)
    requires
        valid_decimal_bytes(data@),
    ensures
        r as int == parse_decimal(data@),
{
    let mut negative: bool = false;
    let mut result: i32 = 0;
    let n: usize = data.len();
    let mut i: usize = 0;
    while i < n
        invariant
            n == data@.len(),
            i <= n,
            valid_decimal_bytes(data@),
            result >= 0,
            result as int == dec_digits_value(data@.take(i as int)),
            negative == has_minus(data@.take(i as int)),
        decreases n - i,
    {
        let byte: u8 = data[i];
        proof {
            assert(decimal_byte(data@[i as int]));
            assert(data@.take(i + 1).drop_last() =~= data@.take(i as int));
            assert(data@.take(i + 1).last() == data@[i as int]);
            lemma_dec_digits_prefix(data@, i + 1);
            lemma_dec_digits_prefix(data@, i as int);
        }
        if byte == 45 {
            negative = true;
            proof {
                assert(data@.take(i + 1)[i as int] == 45);
            }
        } else {
            proof {
                assert(has_minus(data@.take(i + 1)) == has_minus(data@.take(i as int))) by {
                    if has_minus(data@.take(i + 1)) {
                        let j = choose|j: int|
                            0 <= j < data@.take(i + 1).len() && #[trigger] data@.take(i + 1)[j]
                                == 45;
                        assert(data@.take(i + 1)[j] == data@[j]);
                        assert(j != i as int);
                        assert(data@.take(i as int)[j] == 45);
                    }
                    if has_minus(data@.take(i as int)) {
                        let j = choose|j: int|
                            0 <= j < data@.take(i as int).len() && #[trigger] data@.take(
                                i as int,
                            )[j] == 45;
                        assert(data@.take(i + 1)[j] == 45);
                    }
                }
            }
            if byte != 46 {
                let digit: i32 = (byte - 48) as i32;
                proof {
                    assert(dec_digits_value(data@.take(i + 1)) == result * 10 + digit);
                }
                result = result * 10 + digit;
            }
        }
        i = i + 1;
    }
    proof {
        assert(data@.take(n as int) =~= data@);
    }
    if negative {
        -result
    } else {
        result
    }
}

} // verus!
