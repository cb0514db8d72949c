//! A verified UTF-8 validity check, used to decide whether an unrecognized
//! error-code byte string can be represented as text.
//!
//! `utf8_valid` is the standard definition: one-byte sequences below 0x80;
//! two- to four-byte sequences with continuation bytes in 0x80..=0xBF and
//! first-byte-dependent ranges that exclude overlong encodings, surrogates,
//! and code points above 0x10FFFF.

use vstd::prelude::*;

verus! {

/// A UTF-8 continuation byte: 0x80..=0xBF.
pub open spec fn is_cont(b: u8) -> bool {
    0x80 <= b <= 0xbf
}

/// Whether a byte string is valid UTF-8.
pub open spec fn utf8_valid(s: Seq<u8>) -> bool
    decreases s.len(),
{
    if s.len() == 0 {
        true
    } else if s[0] < 0x80 {
        utf8_valid(s.skip(1))
    } else if 0xc2 <= s[0] <= 0xdf {
        s.len() >= 2 && is_cont(s[1]) && utf8_valid(s.skip(2))
    } else if s[0] == 0xe0 {
        s.len() >= 3 && 0xa0 <= s[1] <= 0xbf && is_cont(s[2]) && utf8_valid(s.skip(3))
    } else if 0xe1 <= s[0] <= 0xec || s[0] == 0xee || s[0] == 0xef {
        s.len() >= 3 && is_cont(s[1]) && is_cont(s[2]) && utf8_valid(s.skip(3))
    } else if s[0] == 0xed {
        s.len() >= 3 && 0x80 <= s[1] <= 0x9f && is_cont(s[2]) && utf8_valid(s.skip(3))
    } else if s[0] == 0xf0 {
        s.len() >= 4 && 0x90 <= s[1] <= 0xbf && is_cont(s[2]) && is_cont(s[3]) && utf8_valid(
            s.skip(4),
        )
    } else if 0xf1 <= s[0] <= 0xf3 {
        s.len() >= 4 && is_cont(s[1]) && is_cont(s[2]) && is_cont(s[3]) && utf8_valid(s.skip(4))
    } else if s[0] == 0xf4 {
        s.len() >= 4 && 0x80 <= s[1] <= 0x8f && is_cont(s[2]) && is_cont(s[3]) && utf8_valid(
            s.skip(4),
        )
    } else {
        false
    }
}

fn is_cont_x(b: u8) -> (r: bool)
    ensures
        r == is_cont(b),
{
    0x80 <= b && b <= 0xbf
}

/// Check whether a byte string is valid UTF-8.
pub fn check_utf8(s: &[u8]) -> (r: bool)
    ensures
        r == utf8_valid(s@),
{
    let n = s.len();
    let mut pos: usize = 0;
    proof {
        assert(s@.skip(0) =~= s@);
    }
    while pos < n
        invariant
            n == s@.len(),
            pos <= n,
            utf8_valid(s@) == utf8_valid(s@.skip(pos as int)),
        decreases n - pos,
    {
        let ghost rem = s@.skip(pos as int);
        let b = s[pos];
        proof {
            assert(rem[0] == s@[pos as int]);
            if rem.len() >= 2 {
                assert(rem[1] == s@[pos as int + 1]);
            }
            if rem.len() >= 3 {
                assert(rem[2] == s@[pos as int + 2]);
            }
            if rem.len() >= 4 {
                assert(rem[3] == s@[pos as int + 3]);
            }
        }
        let step: usize = if b < 0x80 {
            1
        } else if 0xc2 <= b && b <= 0xdf {
            if n - pos < 2 || !is_cont_x(s[pos + 1]) {
                return false;
            }
            2
        } else if b == 0xe0 {
            if n - pos < 3 || !(0xa0 <= s[pos + 1] && s[pos + 1] <= 0xbf) || !is_cont_x(
                s[pos + 2],
            ) {
                return false;
            }
            3
        } else if (0xe1 <= b && b <= 0xec) || b == 0xee || b == 0xef {
            if n - pos < 3 || !is_cont_x(s[pos + 1]) || !is_cont_x(s[pos + 2]) {
                return false;
            }
            3
        } else if b == 0xed {
            if n - pos < 3 || !(0x80 <= s[pos + 1] && s[pos + 1] <= 0x9f) || !is_cont_x(
                s[pos + 2],
            ) {
                return false;
            }
            3
        } else if b == 0xf0 {
            if n - pos < 4 || !(0x90 <= s[pos + 1] && s[pos + 1] <= 0xbf) || !is_cont_x(
                s[pos + 2],
            ) || !is_cont_x(s[pos + 3]) {
                return false;
            }
            4
        } else if 0xf1 <= b && b <= 0xf3 {
            if n - pos < 4 || !is_cont_x(s[pos + 1]) || !is_cont_x(s[pos + 2]) || !is_cont_x(
                s[pos + 3],
            ) {
                return false;
            }
            4
        } else if b == 0xf4 {
            if n - pos < 4 || !(0x80 <= s[pos + 1] && s[pos + 1] <= 0x8f) || !is_cont_x(
                s[pos + 2],
            ) || !is_cont_x(s[pos + 3]) {
                return false;
            }
            4
        } else {
            return false;
        };
        proof {
            assert(rem.skip(step as int) =~= s@.skip(pos as int + step));
            assert(utf8_valid(rem) == utf8_valid(rem.skip(step as int)));
        }
        pos = pos + step;
    }
    proof {
        assert(s@.skip(n as int) =~= Seq::<u8>::empty());
    }
    true
}

} // verus!
