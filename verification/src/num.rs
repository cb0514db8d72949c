//! Decimal and boolean text codecs for scalar XML member values.
//!
//! Integers are written in plain decimal with an optional leading minus sign;
//! booleans are written `true`/`false` and are accepted in any ASCII case.

use vstd::prelude::*;
use vstd::arithmetic::div_mod::lemma_fundamental_div_mod;
use crate::text::{DIGIT_ZERO, DIGIT_NINE, MINUS, LOW_A, LOW_E, LOW_F, LOW_L, LOW_R, LOW_S, LOW_T,
    LOW_U, UP_A, UP_Z, eq_bytes};

verus! {

pub open spec fn is_digit(b: u8) -> bool {
    DIGIT_ZERO <= b <= DIGIT_NINE
}

pub open spec fn all_digits(s: Seq<u8>) -> bool {
    forall|i: int| 0 <= i < s.len() ==> is_digit(#[trigger] s[i])
}

/// Numeric value of one digit byte; non-digits count as zero.
pub open spec fn digit_val(b: u8) -> nat {
    if is_digit(b) {
        (b - DIGIT_ZERO) as nat
    } else {
        0
    }
}

/// Decimal text of a non-negative number, most significant digit first.
pub open spec fn dec_digits(n: nat) -> Seq<u8>
    decreases n,
{
    if n < 10 {
        seq![(DIGIT_ZERO + n) as u8]
    } else {
        dec_digits(n / 10) + seq![(DIGIT_ZERO + n % 10) as u8]
    }
}

/// Value of a digit string read most significant digit first.
pub open spec fn dec_val(s: Seq<u8>) -> nat
    decreases s.len(),
{
    if s.len() == 0 {
        0
    } else {
        dec_val(s.drop_last()) * 10 + digit_val(s.last())
    }
}

/// Decimal text of a signed number.
pub open spec fn int_text(n: int) -> Seq<u8> {
    if n < 0 {
        seq![MINUS] + dec_digits((-n) as nat)
    } else {
        dec_digits(n as nat)
    }
}

/// Whether `s` is well-formed signed decimal text.
pub open spec fn valid_int_text(s: Seq<u8>) -> bool {
    if s.len() > 0 && s[0] == MINUS {
        s.len() > 1 && all_digits(s.skip(1))
    } else {
        s.len() > 0 && all_digits(s)
    }
}

/// Signed value of well-formed decimal text.
pub open spec fn int_val(s: Seq<u8>) -> int {
    if s.len() > 0 && s[0] == MINUS {
        -(dec_val(s.skip(1)) as int)
    } else {
        dec_val(s) as int
    }
}

/// The decimal text of `n` is a non-empty digit string whose value is `n`.
pub proof fn lemma_dec_digits_val(n: nat)
    ensures
        dec_digits(n).len() >= 1,
        all_digits(dec_digits(n)),
        dec_val(dec_digits(n)) == n,
        dec_digits(n)[0] != MINUS,
    decreases n,
{
    if n < 10 {
        let s = dec_digits(n);
        assert(s.drop_last() =~= Seq::<u8>::empty());
        assert(dec_val(Seq::<u8>::empty()) == 0);
        assert(dec_val(s) == dec_val(s.drop_last()) * 10 + digit_val(s.last()));
        assert(s.last() == (DIGIT_ZERO + n) as u8);
        assert(digit_val(s.last()) == n);
    } else {
        lemma_dec_digits_val(n / 10);
        let p = dec_digits(n / 10);
        let d = (DIGIT_ZERO + n % 10) as u8;
        let s = dec_digits(n);
        assert(s == p + seq![d]);
        assert(s.drop_last() =~= p);
        assert(s.last() == d);
        assert(dec_val(s) == dec_val(p) * 10 + digit_val(d));
        lemma_fundamental_div_mod(n as int, 10);
        assert forall|i: int| 0 <= i < s.len() implies is_digit(#[trigger] s[i]) by {
            if i < p.len() {
                assert(s[i] == p[i]);
            } else {
                assert(s[i] == d);
            }
        }
    }
}

/// A digit-string prefix never exceeds the value of the whole string.
pub proof fn lemma_dec_val_prefix(s: Seq<u8>, i: int)
    requires
        0 <= i <= s.len(),
    ensures
        dec_val(s.take(i)) <= dec_val(s),
    decreases s.len() - i,
{
    if i < s.len() {
        lemma_dec_val_prefix(s, i + 1);
        assert(s.take(i + 1).drop_last() =~= s.take(i));
        assert(s.take(i + 1).last() == s[i]);
        assert(dec_val(s.take(i + 1)) == dec_val(s.take(i)) * 10 + digit_val(s[i]));
    } else {
        assert(s.take(i) =~= s);
    }
}

/// Append the decimal text of `n` to `buf`.
pub fn push_u64_dec(buf: &mut Vec<u8>, n: u64)
    ensures
        final(buf)@ == old(buf)@ + dec_digits(n as nat),
    decreases n,
{
    if n < 10 {
        buf.push(DIGIT_ZERO + (n as u8));
        proof {
            assert(buf@ =~= old(buf)@ + dec_digits(n as nat));
        }
    } else {
        push_u64_dec(buf, n / 10);
        buf.push(DIGIT_ZERO + ((n % 10) as u8));
        proof {
            assert(buf@ =~= old(buf)@ + dec_digits(n as nat));
        }
    }
}

/// Append the decimal text of a signed number to `buf`.
pub fn push_i64_dec(buf: &mut Vec<u8>, n: i64)
    ensures
        final(buf)@ == old(buf)@ + int_text(n as int),
{
    if n < 0 {
        let ghost orig = buf@;
        buf.push(MINUS);
        let mag: u64 = if n == i64::MIN {
            9223372036854775808u64
        } else {
            (-n) as u64
        };
        proof {
            assert(mag as int == -(n as int));
        }
        push_u64_dec(buf, mag);
        proof {
            assert(buf@ =~= orig + int_text(n as int));
        }
    } else {
        push_u64_dec(buf, n as u64);
    }
}

/// Parse an unsigned decimal number.
///
/// Returns the value exactly when the input is a non-empty digit string whose
/// value fits in `u64`.
pub fn parse_u64(s: &[u8]) -> (r: Option<u64>)
    ensures
        r is Some <==> s@.len() > 0 && all_digits(s@) && dec_val(s@) <= u64::MAX,
        r is Some ==> r->0 as nat == dec_val(s@),
{
    let n = s.len();
    if n == 0 {
        return None;
    }
    let mut acc: u64 = 0;
    let mut i: usize = 0;
    proof {
        assert(s@.take(0) =~= Seq::<u8>::empty());
    }
    while i < n
        invariant
            n == s@.len(),
            i <= n,
            all_digits(s@.take(i as int)),
            acc as nat == dec_val(s@.take(i as int)),
        decreases n - i,
    {
        let b = s[i];
        proof {
            assert(s@.take(i as int + 1).drop_last() =~= s@.take(i as int));
            assert(s@.take(i as int + 1).last() == s@[i as int]);
        }
        if b < DIGIT_ZERO || b > DIGIT_NINE {
            proof {
                assert(!is_digit(s@[i as int]));
            }
            return None;
        }
        let d = b - DIGIT_ZERO;
        let wide: u128 = (acc as u128) * 10 + (d as u128);
        if wide > u64::MAX as u128 {
            proof {
                assert(dec_val(s@.take(i as int + 1)) == acc as nat * 10 + digit_val(s@[i as int]));
                lemma_dec_val_prefix(s@, i as int + 1);
                assert(dec_val(s@) > u64::MAX);
            }
            return None;
        }
        acc = wide as u64;
        proof {
            assert(acc as nat == dec_val(s@.take(i as int + 1)));
            assert forall|j: int| 0 <= j < i + 1 implies is_digit(#[trigger] s@.take(i as int + 1)[j]) by {
                if j < i {
                    assert(s@.take(i as int + 1)[j] == s@.take(i as int)[j]);
                }
            }
        }
        i = i + 1;
    }
    proof {
        assert(s@.take(n as int) =~= s@);
    }
    Some(acc)
}

/// Parse a signed decimal number into `i64` range.
pub fn parse_i64(s: &[u8]) -> (r: Option<i64>)
    ensures
        r is Some <==> valid_int_text(s@) && i64::MIN <= int_val(s@) <= i64::MAX,
        r is Some ==> r->0 as int == int_val(s@),
{
    let n = s.len();
    if n > 0 && s[0] == MINUS {
        let rest: &[u8] = slice_suffix(s, 1);
        match parse_u64(rest) {
            Some(mag) => {
                if mag > 9223372036854775808u64 {
                    None
                } else if mag == 9223372036854775808u64 {
                    Some(i64::MIN)
                } else {
                    Some(-(mag as i64))
                }
            },
            None => None,
        }
    } else {
        match parse_u64(s) {
            Some(mag) => {
                if mag > i64::MAX as u64 {
                    None
                } else {
                    Some(mag as i64)
                }
            },
            None => None,
        }
    }
}

/// Parse a signed decimal number into `i32` range.
pub fn parse_i32(s: &[u8]) -> (r: Option<i32>)
    ensures
        r is Some <==> valid_int_text(s@) && i32::MIN <= int_val(s@) <= i32::MAX,
        r is Some ==> r->0 as int == int_val(s@),
{
    match parse_i64(s) {
        Some(v) => {
            if v < i32::MIN as i64 || v > i32::MAX as i64 {
                None
            } else {
                Some(v as i32)
            }
        },
        None => None,
    }
}

/// The decimal text of a signed number parses back to the same number.
pub proof fn lemma_int_text_roundtrip(n: int)
    ensures
        valid_int_text(int_text(n)),
        int_val(int_text(n)) == n,
{
    if n < 0 {
        lemma_dec_digits_val((-n) as nat);
        let s = int_text(n);
        assert(s[0] == MINUS);
        assert(s.skip(1) =~= dec_digits((-n) as nat));
    } else {
        lemma_dec_digits_val(n as nat);
        let s = int_text(n);
        assert(s == dec_digits(n as nat));
        assert(s[0] != MINUS);
    }
}

/// Subslice from `from` to the end.
pub fn slice_suffix(s: &[u8], from: usize) -> (r: &[u8])
    requires
        from <= s@.len(),
    ensures
        r@ == s@.skip(from as int),
{
    let r: &[u8] = &s[from..s.len()];
    proof {
        assert(r@ =~= s@.skip(from as int));
    }
    r
}

/// Subslice between two positions.
pub fn slice_range(s: &[u8], from: usize, to: usize) -> (r: &[u8])
    requires
        from <= to <= s@.len(),
    ensures
        r@ == s@.subrange(from as int, to as int),
{
    let r: &[u8] = &s[from..to];
    proof {
        assert(r@ =~= s@.subrange(from as int, to as int));
    }
    r
}

/// Lower-case an ASCII letter; other bytes are unchanged.
pub open spec fn to_lower(b: u8) -> u8 {
    if UP_A <= b <= UP_Z {
        (b + 0x20) as u8
    } else {
        b
    }
}

pub open spec fn lower_seq(s: Seq<u8>) -> Seq<u8> {
    s.map_values(|b: u8| to_lower(b))
}

/// Wire text of a boolean value.
pub open spec fn bool_text(v: bool) -> Seq<u8> {
    if v {
        seq![LOW_T, LOW_R, LOW_U, LOW_E]
    } else {
        seq![LOW_F, LOW_A, LOW_L, LOW_S, LOW_E]
    }
}

/// Boolean value of element text, compared ASCII-case-insensitively.
pub open spec fn bool_of_text(s: Seq<u8>) -> Option<bool> {
    if lower_seq(s) == bool_text(true) {
        Some(true)
    } else if lower_seq(s) == bool_text(false) {
        Some(false)
    } else {
        None
    }
}

/// Append the wire text of a boolean to `buf`.
pub fn push_bool(buf: &mut Vec<u8>, v: bool)
    ensures
        final(buf)@ == old(buf)@ + bool_text(v),
{
    if v {
        buf.push(LOW_T);
        buf.push(LOW_R);
        buf.push(LOW_U);
        buf.push(LOW_E);
    } else {
        buf.push(LOW_F);
        buf.push(LOW_A);
        buf.push(LOW_L);
        buf.push(LOW_S);
        buf.push(LOW_E);
    }
    proof {
        assert(buf@ =~= old(buf)@ + bool_text(v));
    }
}

/// Parse boolean element text, accepting any ASCII case.
pub fn parse_bool(s: &[u8]) -> (r: Option<bool>)
    ensures
        r == bool_of_text(s@),
{
    let mut lowered: Vec<u8> = Vec::new();
    let mut i: usize = 0;
    proof {
        assert(lower_seq(s@.take(0)) =~= Seq::<u8>::empty());
    }
    while i < s.len()
        invariant
            i <= s@.len(),
            lowered@ == lower_seq(s@.take(i as int)),
        decreases s@.len() - i,
    {
        let b = s[i];
        let lb = if b >= UP_A && b <= UP_Z {
            b + 0x20
        } else {
            b
        };
        lowered.push(lb);
        proof {
            assert(lowered@ =~= lower_seq(s@.take(i as int + 1)));
        }
        i = i + 1;
    }
    proof {
        assert(s@.take(s@.len() as int) =~= s@);
    }
    let word_true: [u8; 4] = [LOW_T, LOW_R, LOW_U, LOW_E];
    let word_false: [u8; 5] = [LOW_F, LOW_A, LOW_L, LOW_S, LOW_E];
    proof {
        assert(word_true@ =~= bool_text(true));
        assert(word_false@ =~= bool_text(false));
    }
    if eq_bytes(lowered.as_slice(), &word_true) {
        Some(true)
    } else if eq_bytes(lowered.as_slice(), &word_false) {
        Some(false)
    } else {
        None
    }
}

/// The wire text of a boolean parses back to the same boolean.
pub proof fn lemma_bool_text_roundtrip(v: bool)
    ensures
        bool_of_text(bool_text(v)) == Some(v),
{
    assert(lower_seq(bool_text(true)) =~= bool_text(true));
    assert(lower_seq(bool_text(false)) =~= bool_text(false));
}


/// Decimal digits are plain text: no byte of them needs escaping.
pub proof fn lemma_dec_digits_plain(n: nat)
    ensures
        crate::text::plain_text(dec_digits(n)),
{
    lemma_dec_digits_val(n);
    assert forall|i: int| 0 <= i < dec_digits(n).len() implies (#[trigger] dec_digits(n)[i])
        != crate::text::AMP && dec_digits(n)[i] != crate::text::LT && dec_digits(n)[i]
        != crate::text::GT && dec_digits(n)[i] != crate::text::QUOT && dec_digits(n)[i]
        != crate::text::APOS by {
        assert(is_digit(dec_digits(n)[i]));
    }
}

/// The decimal text of a signed number escapes to itself.
pub proof fn lemma_int_text_unescaped(n: int)
    ensures
        crate::text::escape_seq(int_text(n)) == int_text(n),
{
    if n < 0 {
        lemma_dec_digits_plain((-n) as nat);
        assert forall|i: int| 0 <= i < int_text(n).len() implies (#[trigger] int_text(n)[i])
            != crate::text::AMP && int_text(n)[i] != crate::text::LT && int_text(n)[i]
            != crate::text::GT && int_text(n)[i] != crate::text::QUOT && int_text(n)[i]
            != crate::text::APOS by {
            if i > 0 {
                assert(int_text(n)[i] == dec_digits((-n) as nat)[i - 1]);
            }
        }
        crate::text::lemma_escape_plain(int_text(n));
    } else {
        lemma_dec_digits_plain(n as nat);
        crate::text::lemma_escape_plain(int_text(n));
    }
}

/// The wire text of a boolean escapes to itself.
pub proof fn lemma_bool_text_unescaped(v: bool)
    ensures
        crate::text::escape_seq(bool_text(v)) == bool_text(v),
{
    assert forall|i: int| 0 <= i < bool_text(v).len() implies (#[trigger] bool_text(v)[i])
        != crate::text::AMP && bool_text(v)[i] != crate::text::LT && bool_text(v)[i]
        != crate::text::GT && bool_text(v)[i] != crate::text::QUOT && bool_text(v)[i]
        != crate::text::APOS by {
    }
    crate::text::lemma_escape_plain(bool_text(v));
}

} // verus!
