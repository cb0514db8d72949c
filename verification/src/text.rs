//! Byte-level text handling for the XML codec: whitespace classification and
//! escaping/unescaping of element and attribute text.
//!
//! Escaping replaces `&`, `<`, `>`, `"` and `'` with the five named XML
//! entities; unescaping reverses exactly those entities. Round-trip fidelity
//! (`unescape(escape(s)) == s`) is proved below.

use vstd::prelude::*;

verus! {

// ASCII bytes, named because Verus does not accept byte literals.
pub const AMP: u8 = 0x26;  // &
pub const LT: u8 = 0x3c;  // <
pub const GT: u8 = 0x3e;  // >
pub const QUOT: u8 = 0x22;  // "
pub const APOS: u8 = 0x27;  // '
pub const SEMI: u8 = 0x3b;  // ;
pub const SLASH: u8 = 0x2f;  // /
pub const EQ_SIGN: u8 = 0x3d;  // =
pub const MINUS: u8 = 0x2d;  // -
pub const SPACE: u8 = 0x20;
pub const TAB: u8 = 0x09;
pub const CR: u8 = 0x0d;
pub const NL: u8 = 0x0a;
pub const DIGIT_ZERO: u8 = 0x30;  // 0
pub const DIGIT_NINE: u8 = 0x39;  // 9

// Letters used by the entity names and the boolean literals.
pub const LOW_A: u8 = 0x61;
pub const LOW_E: u8 = 0x65;
pub const LOW_F: u8 = 0x66;
pub const LOW_G: u8 = 0x67;
pub const LOW_L: u8 = 0x6c;
pub const LOW_M: u8 = 0x6d;
pub const LOW_N: u8 = 0x6e;
pub const LOW_O: u8 = 0x6f;
pub const LOW_P: u8 = 0x70;
pub const LOW_Q: u8 = 0x71;
pub const LOW_R: u8 = 0x72;
pub const LOW_S: u8 = 0x73;
pub const LOW_T: u8 = 0x74;
pub const LOW_U: u8 = 0x75;
pub const LOW_X: u8 = 0x78;
pub const UP_A: u8 = 0x41;
pub const UP_Z: u8 = 0x5a;

/// XML whitespace: space, tab, carriage return, line feed.
pub open spec fn is_ws_spec(b: u8) -> bool {
    b == SPACE || b == TAB || b == CR || b == NL
}

pub fn is_ws(b: u8) -> (r: bool)
    ensures
        r == is_ws_spec(b),
{
    b == SPACE || b == TAB || b == CR || b == NL
}

/// What a single byte of raw text becomes in escaped form.
pub open spec fn escaped_byte(b: u8) -> Seq<u8> {
    if b == AMP {
        seq![AMP, LOW_A, LOW_M, LOW_P, SEMI]
    } else if b == LT {
        seq![AMP, LOW_L, LOW_T, SEMI]
    } else if b == GT {
        seq![AMP, LOW_G, LOW_T, SEMI]
    } else if b == QUOT {
        seq![AMP, LOW_Q, LOW_U, LOW_O, LOW_T, SEMI]
    } else if b == APOS {
        seq![AMP, LOW_A, LOW_P, LOW_O, LOW_S, SEMI]
    } else {
        seq![b]
    }
}

/// Escaped form of a whole text value.
pub open spec fn escape_seq(s: Seq<u8>) -> Seq<u8>
    decreases s.len(),
{
    if s.len() == 0 {
        Seq::empty()
    } else {
        escaped_byte(s[0]) + escape_seq(s.skip(1))
    }
}

/// Prepend one decoded byte to the result of unescaping a tail.
pub open spec fn unescape_cons(b: u8, rest: Option<Seq<u8>>) -> Option<Seq<u8>> {
    match rest {
        Some(t) => Some(seq![b] + t),
        None => None,
    }
}

/// Unescaped form of an escaped text value; `None` on a malformed entity.
pub open spec fn unescape_seq(s: Seq<u8>) -> Option<Seq<u8>>
    decreases s.len(),
{
    if s.len() == 0 {
        Some(Seq::empty())
    } else if s[0] == AMP {
        if s.len() >= 4 && s.subrange(0, 4) == seq![AMP, LOW_L, LOW_T, SEMI] {
            unescape_cons(LT, unescape_seq(s.skip(4)))
        } else if s.len() >= 4 && s.subrange(0, 4) == seq![AMP, LOW_G, LOW_T, SEMI] {
            unescape_cons(GT, unescape_seq(s.skip(4)))
        } else if s.len() >= 5 && s.subrange(0, 5) == seq![AMP, LOW_A, LOW_M, LOW_P, SEMI] {
            unescape_cons(AMP, unescape_seq(s.skip(5)))
        } else if s.len() >= 6 && s.subrange(0, 6) == seq![AMP, LOW_Q, LOW_U, LOW_O, LOW_T, SEMI] {
            unescape_cons(QUOT, unescape_seq(s.skip(6)))
        } else if s.len() >= 6 && s.subrange(0, 6) == seq![AMP, LOW_A, LOW_P, LOW_O, LOW_S, SEMI] {
            unescape_cons(APOS, unescape_seq(s.skip(6)))
        } else {
            None
        }
    } else {
        unescape_cons(s[0], unescape_seq(s.skip(1)))
    }
}

/// Escaping distributes over appending one byte.
pub proof fn lemma_escape_push(s: Seq<u8>, b: u8)
    ensures
        escape_seq(s.push(b)) == escape_seq(s) + escaped_byte(b),
    decreases s.len(),
{
    if s.len() == 0 {
        assert(s.push(b)[0] == b);
        assert(s.push(b).skip(1) =~= Seq::<u8>::empty());
        assert(escape_seq(Seq::<u8>::empty()) == Seq::<u8>::empty());
        assert(escape_seq(s.push(b)) == escaped_byte(b) + escape_seq(Seq::<u8>::empty()));
        assert(escape_seq(s.push(b)) =~= escaped_byte(b));
        assert(escape_seq(s) + escaped_byte(b) =~= escaped_byte(b));
    } else {
        assert(s.push(b).skip(1) =~= s.skip(1).push(b));
        lemma_escape_push(s.skip(1), b);
        assert(escape_seq(s.push(b)) =~= escape_seq(s) + escaped_byte(b));
    }
}

/// The escaped form of a text value never contains a literal `<`.
pub proof fn lemma_escape_no_lt(s: Seq<u8>)
    ensures
        forall|i: int| 0 <= i < escape_seq(s).len() ==> escape_seq(s)[i] != LT,
    decreases s.len(),
{
    if s.len() > 0 {
        lemma_escape_no_lt(s.skip(1));
        assert forall|i: int| 0 <= i < escape_seq(s).len() implies escape_seq(s)[i] != LT by {
            let e = escaped_byte(s[0]);
            if i < e.len() {
                assert(escape_seq(s)[i] == e[i]);
            } else {
                assert(escape_seq(s)[i] == escape_seq(s.skip(1))[i - e.len()]);
            }
        }
    }
}

/// Unescaping undoes escaping: the round-trip over text is the identity.
pub proof fn lemma_unescape_escape(s: Seq<u8>)
    ensures
        unescape_seq(escape_seq(s)) == Some(s),
    decreases s.len(),
{
    if s.len() == 0 {
        assert(escape_seq(s) =~= Seq::<u8>::empty());
    } else {
        lemma_unescape_escape(s.skip(1));
        let b = s[0];
        let e = escaped_byte(b);
        let rest = escape_seq(s.skip(1));
        let t = escape_seq(s);
        assert(t == e + rest);
        assert(t.len() == e.len() + rest.len());
        assert(t.skip(e.len() as int) =~= rest);
        assert(forall|i: int| 0 <= i < e.len() ==> t[i] == e[i]);
        if b == AMP {
            assert(t.subrange(0, 4) != seq![AMP, LOW_L, LOW_T, SEMI]) by {
                assert(t.subrange(0, 4)[1] == LOW_A);
            }
            assert(t.subrange(0, 4) != seq![AMP, LOW_G, LOW_T, SEMI]) by {
                assert(t.subrange(0, 4)[1] == LOW_A);
            }
            assert(t.subrange(0, 5) =~= seq![AMP, LOW_A, LOW_M, LOW_P, SEMI]);
            assert(unescape_seq(t) == unescape_cons(AMP, Some(s.skip(1))));
            assert(seq![AMP] + s.skip(1) =~= s);
        } else if b == LT {
            assert(t.subrange(0, 4) =~= seq![AMP, LOW_L, LOW_T, SEMI]);
            assert(unescape_seq(t) == unescape_cons(LT, Some(s.skip(1))));
            assert(seq![LT] + s.skip(1) =~= s);
        } else if b == GT {
            assert(t.subrange(0, 4) != seq![AMP, LOW_L, LOW_T, SEMI]) by {
                assert(t.subrange(0, 4)[1] == LOW_G);
            }
            assert(t.subrange(0, 4) =~= seq![AMP, LOW_G, LOW_T, SEMI]);
            assert(unescape_seq(t) == unescape_cons(GT, Some(s.skip(1))));
            assert(seq![GT] + s.skip(1) =~= s);
        } else if b == QUOT {
            assert(t.subrange(0, 4) != seq![AMP, LOW_L, LOW_T, SEMI]) by {
                assert(t.subrange(0, 4)[1] == LOW_Q);
            }
            assert(t.subrange(0, 4) != seq![AMP, LOW_G, LOW_T, SEMI]) by {
                assert(t.subrange(0, 4)[1] == LOW_Q);
            }
            assert(t.subrange(0, 5) != seq![AMP, LOW_A, LOW_M, LOW_P, SEMI]) by {
                assert(t.subrange(0, 5)[1] == LOW_Q);
            }
            assert(t.subrange(0, 6) =~= seq![AMP, LOW_Q, LOW_U, LOW_O, LOW_T, SEMI]);
            assert(unescape_seq(t) == unescape_cons(QUOT, Some(s.skip(1))));
            assert(seq![QUOT] + s.skip(1) =~= s);
        } else if b == APOS {
            assert(t.subrange(0, 4) != seq![AMP, LOW_L, LOW_T, SEMI]) by {
                assert(t.subrange(0, 4)[1] == LOW_A);
                assert(t.subrange(0, 4)[2] == LOW_P);
            }
            assert(t.subrange(0, 4) != seq![AMP, LOW_G, LOW_T, SEMI]) by {
                assert(t.subrange(0, 4)[1] == LOW_A);
            }
            assert(t.subrange(0, 5) != seq![AMP, LOW_A, LOW_M, LOW_P, SEMI]) by {
                assert(t.subrange(0, 5)[2] == LOW_P);
            }
            assert(t.subrange(0, 6) != seq![AMP, LOW_Q, LOW_U, LOW_O, LOW_T, SEMI]) by {
                assert(t.subrange(0, 6)[1] == LOW_A);
            }
            assert(t.subrange(0, 6) =~= seq![AMP, LOW_A, LOW_P, LOW_O, LOW_S, SEMI]);
            assert(unescape_seq(t) == unescape_cons(APOS, Some(s.skip(1))));
            assert(seq![APOS] + s.skip(1) =~= s);
        } else {
            assert(t[0] == b);
            assert(t.skip(1) =~= rest);
            assert(unescape_seq(t) == unescape_cons(b, Some(s.skip(1))));
            assert(seq![b] + s.skip(1) =~= s);
        }
    }
}

/// Append the escaped form of `s` to `buf`.
#[verifier::rlimit(30)]
pub fn escape_into(buf: &mut Vec<u8>, s: &[u8])
    ensures
        final(buf)@ == old(buf)@ + escape_seq(s@),
{
    let ghost orig = buf@;
    let mut i: usize = 0;
    while i < s.len()
        invariant
            i <= s@.len(),
            buf@ == orig + escape_seq(s@.take(i as int)),
        decreases s@.len() - i,
    {
        let b = s[i];
        proof {
            assert(s@.take(i as int + 1) =~= s@.take(i as int).push(s@[i as int]));
            lemma_escape_push(s@.take(i as int), s@[i as int]);
        }
        if b == AMP {
            buf.push(AMP);
            buf.push(LOW_A);
            buf.push(LOW_M);
            buf.push(LOW_P);
            buf.push(SEMI);
        } else if b == LT {
            buf.push(AMP);
            buf.push(LOW_L);
            buf.push(LOW_T);
            buf.push(SEMI);
        } else if b == GT {
            buf.push(AMP);
            buf.push(LOW_G);
            buf.push(LOW_T);
            buf.push(SEMI);
        } else if b == QUOT {
            buf.push(AMP);
            buf.push(LOW_Q);
            buf.push(LOW_U);
            buf.push(LOW_O);
            buf.push(LOW_T);
            buf.push(SEMI);
        } else if b == APOS {
            buf.push(AMP);
            buf.push(LOW_A);
            buf.push(LOW_P);
            buf.push(LOW_O);
            buf.push(LOW_S);
            buf.push(SEMI);
        } else {
            buf.push(b);
        }
        proof {
            assert(buf@ =~= orig + escape_seq(s@.take(i as int + 1)));
        }
        i = i + 1;
    }
    proof {
        assert(s@.take(s@.len() as int) =~= s@);
    }
}

/// Glue a decoded prefix onto the result of unescaping the remaining input.
pub open spec fn unescape_glue(prefix: Seq<u8>, rest: Option<Seq<u8>>) -> Option<Seq<u8>> {
    match rest {
        Some(t) => Some(prefix + t),
        None => None,
    }
}

proof fn lemma_unescape_glue_step(prefix: Seq<u8>, b: u8, rest: Option<Seq<u8>>)
    ensures
        unescape_glue(prefix, unescape_cons(b, rest)) == unescape_glue(prefix.push(b), rest),
{
    match rest {
        Some(t) => {
            assert(prefix + (seq![b] + t) =~= prefix.push(b) + t);
        },
        None => {},
    }
}

/// A subrange claim on a suffix restated over the whole input.
proof fn lemma_not_prefix(rem: Seq<u8>, pat: Seq<u8>, s: Seq<u8>, pos: int)
    requires
        0 <= pos <= s.len(),
        rem == s.skip(pos),
        !(pos + pat.len() <= s.len() && s.subrange(pos, pos + pat.len()) == pat),
    ensures
        !(rem.len() >= pat.len() && rem.subrange(0, pat.len() as int) == pat),
{
    if rem.len() >= pat.len() {
        assert(rem.subrange(0, pat.len() as int) =~= s.subrange(pos, pos + pat.len()));
    }
}

/// Unescape a whole escaped text value; `None` on a malformed entity.
pub fn unescape(s: &[u8]) -> (r: Option<Vec<u8>>)
    ensures
        match r {
            Some(v) => unescape_seq(s@) == Some(v@),
            None => unescape_seq(s@) is None,
        },
{
    let mut out: Vec<u8> = Vec::new();
    let mut pos: usize = 0;
    proof {
        assert(s@.skip(0) =~= s@);
        if unescape_seq(s@) is Some {
            let t = unescape_seq(s@)->Some_0;
            assert(Seq::<u8>::empty() + t =~= t);
        }
    }
    loop
        invariant
            pos <= s@.len(),
            unescape_seq(s@) == unescape_glue(out@, unescape_seq(s@.skip(pos as int))),
        decreases s@.len() - pos,
    {
        if pos >= s.len() {
            proof {
                assert(s@.skip(pos as int) =~= Seq::<u8>::empty());
                assert(out@ + Seq::<u8>::empty() =~= out@);
            }
            return Some(out);
        }
        let ghost rem = s@.skip(pos as int);
        proof {
            assert(rem[0] == s@[pos as int]);
        }
        let b = s[pos];
        if b == AMP {
            let ghost old_out = out@;
            let pat_lt: [u8; 4] = [AMP, LOW_L, LOW_T, SEMI];
            let pat_gt: [u8; 4] = [AMP, LOW_G, LOW_T, SEMI];
            let pat_amp: [u8; 5] = [AMP, LOW_A, LOW_M, LOW_P, SEMI];
            let pat_quot: [u8; 6] = [AMP, LOW_Q, LOW_U, LOW_O, LOW_T, SEMI];
            let pat_apos: [u8; 6] = [AMP, LOW_A, LOW_P, LOW_O, LOW_S, SEMI];
            proof {
                assert(pat_lt@ =~= seq![AMP, LOW_L, LOW_T, SEMI]);
                assert(pat_gt@ =~= seq![AMP, LOW_G, LOW_T, SEMI]);
                assert(pat_amp@ =~= seq![AMP, LOW_A, LOW_M, LOW_P, SEMI]);
                assert(pat_quot@ =~= seq![AMP, LOW_Q, LOW_U, LOW_O, LOW_T, SEMI]);
                assert(pat_apos@ =~= seq![AMP, LOW_A, LOW_P, LOW_O, LOW_S, SEMI]);
            }
            if starts_with_at(s, pos, &pat_lt) {
                proof {
                    assert(rem.subrange(0, 4) =~= s@.subrange(pos as int, pos as int + 4));
                    assert(rem.skip(4) =~= s@.skip(pos as int + 4));
                }
                out.push(LT);
                pos = pos + 4;
                proof {
                    lemma_unescape_glue_step(old_out, LT, unescape_seq(s@.skip(pos as int)));
                }
            } else if starts_with_at(s, pos, &pat_gt) {
                proof {
                    assert(rem.subrange(0, 4) =~= s@.subrange(pos as int, pos as int + 4));
                    assert(rem.skip(4) =~= s@.skip(pos as int + 4));
                    lemma_not_prefix(rem, pat_lt@, s@, pos as int);
                }
                out.push(GT);
                pos = pos + 4;
                proof {
                    lemma_unescape_glue_step(old_out, GT, unescape_seq(s@.skip(pos as int)));
                }
            } else if starts_with_at(s, pos, &pat_amp) {
                proof {
                    lemma_not_prefix(rem, pat_lt@, s@, pos as int);
                    lemma_not_prefix(rem, pat_gt@, s@, pos as int);
                    assert(rem.subrange(0, 5) =~= s@.subrange(pos as int, pos as int + 5));
                    assert(rem.skip(5) =~= s@.skip(pos as int + 5));
                }
                out.push(AMP);
                pos = pos + 5;
                proof {
                    lemma_unescape_glue_step(old_out, AMP, unescape_seq(s@.skip(pos as int)));
                }
            } else if starts_with_at(s, pos, &pat_quot) {
                proof {
                    lemma_not_prefix(rem, pat_lt@, s@, pos as int);
                    lemma_not_prefix(rem, pat_gt@, s@, pos as int);
                    lemma_not_prefix(rem, pat_amp@, s@, pos as int);
                    assert(rem.subrange(0, 6) =~= s@.subrange(pos as int, pos as int + 6));
                    assert(rem.skip(6) =~= s@.skip(pos as int + 6));
                }
                out.push(QUOT);
                pos = pos + 6;
                proof {
                    lemma_unescape_glue_step(old_out, QUOT, unescape_seq(s@.skip(pos as int)));
                }
            } else if starts_with_at(s, pos, &pat_apos) {
                proof {
                    lemma_not_prefix(rem, pat_lt@, s@, pos as int);
                    lemma_not_prefix(rem, pat_gt@, s@, pos as int);
                    lemma_not_prefix(rem, pat_amp@, s@, pos as int);
                    lemma_not_prefix(rem, pat_quot@, s@, pos as int);
                    assert(rem.subrange(0, 6) =~= s@.subrange(pos as int, pos as int + 6));
                    assert(rem.skip(6) =~= s@.skip(pos as int + 6));
                }
                out.push(APOS);
                pos = pos + 6;
                proof {
                    lemma_unescape_glue_step(old_out, APOS, unescape_seq(s@.skip(pos as int)));
                }
            } else {
                proof {
                    lemma_not_prefix(rem, pat_lt@, s@, pos as int);
                    lemma_not_prefix(rem, pat_gt@, s@, pos as int);
                    lemma_not_prefix(rem, pat_amp@, s@, pos as int);
                    lemma_not_prefix(rem, pat_quot@, s@, pos as int);
                    lemma_not_prefix(rem, pat_apos@, s@, pos as int);
                    assert(unescape_seq(rem) is None);
                }
                return None;
            }
        } else {
            let ghost old_out = out@;
            proof {
                assert(rem.skip(1) =~= s@.skip(pos as int + 1));
            }
            out.push(b);
            pos = pos + 1;
            proof {
                lemma_unescape_glue_step(old_out, b, unescape_seq(s@.skip(pos as int)));
            }
        }
    }
}

/// Whether `s[pos..]` starts with the byte pattern `pat`.
pub fn starts_with_at(s: &[u8], pos: usize, pat: &[u8]) -> (r: bool)
    requires
        pos <= s@.len(),
    ensures
        r == (pos + pat@.len() <= s@.len() && s@.subrange(pos as int, pos as int + pat@.len())
            == pat@),
{
    let n = s.len();
    if n - pos < pat.len() {
        return false;
    }
    let mut i: usize = 0;
    while i < pat.len()
        invariant
            n == s@.len(),
            pos + pat@.len() <= s@.len(),
            i <= pat@.len(),
            forall|j: int| 0 <= j < i ==> s@[pos + j] == pat@[j],
        decreases pat@.len() - i,
    {
        proof {
            assert(pos + i < s@.len());
        }
        if s[pos + i] != pat[i] {
            proof {
                assert(s@.subrange(pos as int, pos as int + pat@.len())[i as int] == s@[pos + i]);
            }
            return false;
        }
        i = i + 1;
    }
    proof {
        assert(s@.subrange(pos as int, pos as int + pat@.len()) =~= pat@);
    }
    true
}

/// Whether two byte strings are equal.
pub fn eq_bytes(a: &[u8], b: &[u8]) -> (r: bool)
    ensures
        r == (a@ == b@),
{
    if a.len() != b.len() {
        proof {
            assert(a@ != b@);
        }
        return false;
    }
    let mut i: usize = 0;
    while i < a.len()
        invariant
            a@.len() == b@.len(),
            i <= a@.len(),
            forall|j: int| 0 <= j < i ==> a@[j] == b@[j],
        decreases a@.len() - i,
    {
        if a[i] != b[i] {
            return false;
        }
        i = i + 1;
    }
    proof {
        assert(a@ =~= b@);
    }
    true
}


/// Append a byte slice to a vector.
pub fn append_bytes(dst: &mut Vec<u8>, src: &[u8])
    ensures
        final(dst)@ == old(dst)@ + src@,
{
    let ghost orig = dst@;
    let mut i: usize = 0;
    while i < src.len()
        invariant
            i <= src@.len(),
            dst@ == orig + src@.take(i as int),
        decreases src@.len() - i,
    {
        dst.push(src[i]);
        proof {
            assert(dst@ =~= orig + src@.take(i as int + 1));
        }
        i = i + 1;
    }
    proof {
        assert(src@.take(src@.len() as int) =~= src@);
    }
}


/// Whether no byte of a text needs escaping.
pub open spec fn plain_text(s: Seq<u8>) -> bool {
    forall|i: int|
        0 <= i < s.len() ==> (#[trigger] s[i]) != AMP && s[i] != LT && s[i] != GT && s[i] != QUOT
            && s[i] != APOS
}

/// Escaping leaves plain text unchanged.
pub proof fn lemma_escape_plain(s: Seq<u8>)
    requires
        plain_text(s),
    ensures
        escape_seq(s) == s,
    decreases s.len(),
{
    if s.len() > 0 {
        assert(s.skip(1)[0] == s[1] || s.len() == 1 || true);
        assert forall|i: int| 0 <= i < s.skip(1).len() implies (#[trigger] s.skip(1)[i]) != AMP
            && s.skip(1)[i] != LT && s.skip(1)[i] != GT && s.skip(1)[i] != QUOT && s.skip(1)[i]
            != APOS by {
            assert(s.skip(1)[i] == s[i + 1]);
        }
        lemma_escape_plain(s.skip(1));
        assert(escaped_byte(s[0]) =~= seq![s[0]]);
        assert(escape_seq(s) =~= s);
    } else {
        assert(escape_seq(s) =~= s);
    }
}


/// The escaped form of a text value never contains a literal `"`.
pub proof fn lemma_escape_no_quot(s: Seq<u8>)
    ensures
        forall|i: int| 0 <= i < escape_seq(s).len() ==> escape_seq(s)[i] != QUOT,
    decreases s.len(),
{
    if s.len() > 0 {
        lemma_escape_no_quot(s.skip(1));
        assert forall|i: int| 0 <= i < escape_seq(s).len() implies escape_seq(s)[i] != QUOT by {
            let e = escaped_byte(s[0]);
            if i < e.len() {
                assert(escape_seq(s)[i] == e[i]);
            } else {
                assert(escape_seq(s)[i] == escape_seq(s.skip(1))[i - e.len()]);
            }
        }
    }
}

} // verus!
