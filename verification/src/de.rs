//! XML deserializer: a cursor over one byte buffer holding a document or
//! document fragment.
//!
//! The scanning behaviour of every primitive is specified exactly by the
//! spec-level scan functions below (`ws_count`, `child_scan`, `close_scan`,
//! ...), so the per-type decoders can be proved to accept precisely the
//! documents the encoder produces.

use vstd::prelude::*;
use crate::text::{AMP, LT, GT, QUOT, APOS, EQ_SIGN, SLASH, is_ws_spec, is_ws, unescape_seq,
    unescape, eq_bytes, starts_with_at};
use crate::num::slice_range;

verus! {

/// A structured decode failure, reported to the caller as a typed result;
/// decoding never panics.
#[derive(Debug, Clone, Copy, PartialEq, Eq, Structural)]
pub enum DeError {
    /// Malformed XML syntax.
    Syntax,
    /// Input ended inside a document.
    UnexpectedEof,
    /// A required member was absent.
    MissingField,
    /// Element text was present but not convertible to its scalar type.
    InvalidContent,
    /// The root element's tag was not the expected one.
    UnexpectedTag,
    /// Non-whitespace content after the end of the document.
    TrailingContent,
}

pub type DeResult<T> = Result<T, DeError>;

/// Number of leading whitespace bytes.
pub open spec fn ws_count(s: Seq<u8>) -> nat
    decreases s.len(),
{
    if s.len() > 0 && is_ws_spec(s[0]) {
        (1 + ws_count(s.skip(1))) as nat
    } else {
        0
    }
}

/// Whether a byte can be part of a tag or attribute name.
pub open spec fn is_name_byte(b: u8) -> bool {
    !is_ws_spec(b) && b != LT && b != GT && b != SLASH && b != EQ_SIGN && b != QUOT && b != APOS
        && b != AMP
}

/// Number of leading name bytes.
pub open spec fn name_len(s: Seq<u8>) -> nat
    decreases s.len(),
{
    if s.len() > 0 && is_name_byte(s[0]) {
        (1 + name_len(s.skip(1))) as nat
    } else {
        0
    }
}

/// Number of leading bytes before the first occurrence of `stop`.
pub open spec fn until_count(s: Seq<u8>, stop: u8) -> nat
    decreases s.len(),
{
    if s.len() > 0 && s[0] != stop {
        (1 + until_count(s.skip(1), stop)) as nat
    } else {
        0
    }
}

/// Whether a byte string is all whitespace.
pub open spec fn all_ws(s: Seq<u8>) -> bool {
    forall|i: int| 0 <= i < s.len() ==> is_ws_spec(#[trigger] s[i])
}

pub proof fn lemma_ws_count_le(s: Seq<u8>)
    ensures
        ws_count(s) <= s.len(),
    decreases s.len(),
{
    if s.len() > 0 && is_ws_spec(s[0]) {
        lemma_ws_count_le(s.skip(1));
    }
}

pub proof fn lemma_name_len_le(s: Seq<u8>)
    ensures
        name_len(s) <= s.len(),
    decreases s.len(),
{
    if s.len() > 0 && is_name_byte(s[0]) {
        lemma_name_len_le(s.skip(1));
    }
}

pub proof fn lemma_until_count_le(s: Seq<u8>, stop: u8)
    ensures
        until_count(s, stop) <= s.len(),
        until_count(s, stop) < s.len() ==> s[until_count(s, stop) as int] == stop,
        forall|i: int| 0 <= i < until_count(s, stop) ==> s[i] != stop,
    decreases s.len(),
{
    if s.len() > 0 && s[0] != stop {
        lemma_until_count_le(s.skip(1), stop);
        assert forall|i: int| 0 <= i < until_count(s, stop) implies s[i] != stop by {
            if i > 0 {
                assert(s.skip(1)[i - 1] == s[i]);
            }
        }
        if until_count(s, stop) < s.len() {
            assert(s.skip(1)[until_count(s, stop) as int - 1] == s[until_count(s, stop) as int]);
        }
    }
}

/// `ws_count` of a string with no leading whitespace is zero; of `pad + rest`
/// where `pad` is all whitespace and `rest` starts with non-whitespace, it is
/// `pad.len()`.
pub proof fn lemma_ws_count_concat(pad: Seq<u8>, rest: Seq<u8>)
    requires
        all_ws(pad),
        rest.len() > 0 ==> !is_ws_spec(rest[0]),
    ensures
        ws_count(pad + rest) == pad.len(),
        (pad + rest).skip(pad.len() as int) == rest,
    decreases pad.len(),
{
    assert((pad + rest).skip(pad.len() as int) =~= rest);
    if pad.len() == 0 {
        assert(pad + rest =~= rest);
    } else {
        assert((pad + rest)[0] == pad[0]);
        assert((pad + rest).skip(1) =~= pad.skip(1) + rest);
        lemma_ws_count_concat(pad.skip(1), rest);
    }
}

/// `name_len` of `name + rest` where `name` is all name bytes and `rest`
/// does not begin with one is `name.len()`.
pub proof fn lemma_name_len_concat(name: Seq<u8>, rest: Seq<u8>)
    requires
        forall|i: int| 0 <= i < name.len() ==> is_name_byte(#[trigger] name[i]),
        rest.len() > 0 ==> !is_name_byte(rest[0]),
    ensures
        name_len(name + rest) == name.len(),
    decreases name.len(),
{
    if name.len() == 0 {
        assert(name + rest =~= rest);
    } else {
        assert((name + rest)[0] == name[0]);
        assert((name + rest).skip(1) =~= name.skip(1) + rest);
        lemma_name_len_concat(name.skip(1), rest);
    }
}

/// `until_count` of `body + rest` where `body` avoids `stop` and `rest`
/// begins with it is `body.len()`.
pub proof fn lemma_until_count_concat(body: Seq<u8>, rest: Seq<u8>, stop: u8)
    requires
        forall|i: int| 0 <= i < body.len() ==> #[trigger] body[i] != stop,
        rest.len() > 0 ==> rest[0] == stop,
    ensures
        until_count(body + rest, stop) == body.len(),
    decreases body.len(),
{
    if body.len() == 0 {
        assert(body + rest =~= rest);
    } else {
        assert((body + rest)[0] == body[0]);
        assert((body + rest).skip(1) =~= body.skip(1) + rest);
        lemma_until_count_concat(body.skip(1), rest, stop);
    }
}

/// Scan of what follows `<` + name inside an element open tag: whitespace
/// and `name="value"` attributes up to `>` (not self-closing) or `/>`
/// (self-closing). Returns the number of bytes consumed and the self-closing
/// flag, or `None` on malformed input.
pub open spec fn open_rest_scan(s: Seq<u8>) -> Option<(nat, bool)>
    decreases s.len(),
    via open_rest_scan_decreases
{
    let w = ws_count(s);
    let t = s.skip(w as int);
    if t.len() == 0 {
        None
    } else if t[0] == GT {
        Some(((w + 1) as nat, false))
    } else if t[0] == SLASH {
        if t.len() >= 2 && t[1] == GT {
            Some(((w + 2) as nat, true))
        } else {
            None
        }
    } else if w == 0 {
        None
    } else {
        let an = name_len(t);
        if an == 0 {
            None
        } else {
            let u = t.skip(an as int);
            if u.len() >= 2 && u[0] == EQ_SIGN && (u[1] == QUOT || u[1] == APOS) {
                let v = u.skip(2);
                let vl = until_count(v, u[1]);
                if vl < v.len() {
                    match open_rest_scan(v.skip(vl as int + 1)) {
                        Some((k, sc)) => Some(((w + an + 2 + vl + 1 + k) as nat, sc)),
                        None => None,
                    }
                } else {
                    None
                }
            } else {
                None
            }
        }
    }
}

#[via_fn]
proof fn open_rest_scan_decreases(s: Seq<u8>) {
    lemma_ws_count_le(s);
    let w = ws_count(s);
    let t = s.skip(w as int);
    lemma_name_len_le(t);
    let an = name_len(t);
    let u = t.skip(an as int);
    if u.len() >= 2 {
        let v = u.skip(2);
        lemma_until_count_le(v, u[1]);
    }
}

/// Scan at a position where a child element may begin: leading whitespace,
/// then either the end of the content (end of input or a closing tag, not
/// consumed) or one child open tag. Returns what was found and the number of
/// bytes consumed, or `None` on malformed input.
pub open spec fn child_scan(s: Seq<u8>) -> Option<(Option<(Seq<u8>, bool)>, nat)> {
    let w = ws_count(s);
    let t = s.skip(w as int);
    if t.len() == 0 {
        Some((None, w))
    } else if t[0] != LT {
        None
    } else if t.len() >= 2 && t[1] == SLASH {
        Some((None, w))
    } else {
        let nl = name_len(t.skip(1));
        if nl == 0 {
            None
        } else {
            match open_rest_scan(t.skip(1 + nl as int)) {
                Some((k, sc)) => Some(
                    (Some((t.skip(1).take(nl as int), sc)), (w + 1 + nl + k) as nat),
                ),
                None => None,
            }
        }
    }
}

/// Scan of a closing tag `</name>` (whitespace allowed before it and before
/// the final `>`). Returns the number of bytes consumed, or `None`.
pub open spec fn close_scan(s: Seq<u8>, name: Seq<u8>) -> Option<nat> {
    let w = ws_count(s);
    let t = s.skip(w as int);
    if t.len() >= name.len() + 3 && t[0] == LT && t[1] == SLASH && t.subrange(
        2,
        2 + name.len() as int,
    ) == name {
        let u = t.skip(2 + name.len() as int);
        let w2 = ws_count(u);
        if w2 < u.len() && u[w2 as int] == GT {
            Some((w + 2 + name.len() + w2 + 1) as nat)
        } else {
            None
        }
    } else {
        None
    }
}

/// Sizes reported by the scan functions stay within the scanned input.
pub proof fn lemma_open_rest_scan_bounds(s: Seq<u8>)
    ensures
        open_rest_scan(s) matches Some(p) ==> 1 <= p.0 <= s.len(),
    decreases s.len(),
{
    if open_rest_scan(s) is Some {
        lemma_ws_count_le(s);
        let w = ws_count(s);
        let t = s.skip(w as int);
        if t.len() == 0 || t[0] == GT || t[0] == SLASH || w == 0 {
        } else {
            lemma_name_len_le(t);
            let an = name_len(t);
            let u = t.skip(an as int);
            let v = u.skip(2);
            let vl = until_count(v, u[1]);
            lemma_until_count_le(v, u[1]);
            lemma_open_rest_scan_bounds(v.skip(vl as int + 1));
        }
    }
}

pub proof fn lemma_child_scan_bounds(s: Seq<u8>)
    ensures
        child_scan(s) matches Some(res) ==> res.1 <= s.len() && (res.0 is Some ==> 1 <= res.1),
{
    if child_scan(s) is Some {
        lemma_ws_count_le(s);
        let w = ws_count(s);
        let t = s.skip(w as int);
        if t.len() == 0 || (t.len() >= 2 && t[1] == SLASH && t[0] == LT) {
        } else {
            lemma_name_len_le(t.skip(1));
            lemma_open_rest_scan_bounds(t.skip(1 + name_len(t.skip(1)) as int));
        }
    }
}

pub proof fn lemma_close_scan_bounds(s: Seq<u8>, name: Seq<u8>)
    ensures
        close_scan(s, name) matches Some(c) ==> 1 <= c <= s.len(),
{
    if close_scan(s, name) is Some {
        lemma_ws_count_le(s);
        let w = ws_count(s);
        let t = s.skip(w as int);
        let u = t.skip(2 + name.len() as int);
        lemma_ws_count_le(u);
    }
}

/// Whether a byte can be part of a tag or attribute name.
pub fn is_name_byte_x(b: u8) -> (r: bool)
    ensures
        r == is_name_byte(b),
{
    !is_ws(b) && b != LT && b != GT && b != SLASH && b != EQ_SIGN && b != QUOT && b != APOS
        && b != AMP
}

/// Copy a byte slice into an owned vector.
pub fn bytes_to_vec(s: &[u8]) -> (r: Vec<u8>)
    ensures
        r@ == s@,
{
    let mut out: Vec<u8> = Vec::new();
    let mut i: usize = 0;
    while i < s.len()
        invariant
            i <= s@.len(),
            out@ == s@.take(i as int),
        decreases s@.len() - i,
    {
        out.push(s[i]);
        proof {
            assert(out@ =~= s@.take(i as int + 1));
        }
        i = i + 1;
    }
    proof {
        assert(s@.take(s@.len() as int) =~= s@);
    }
    out
}

/// One child element's open tag, as returned by `read_child_open`.
pub struct ChildOpen {
    pub name: Vec<u8>,
    pub self_closed: bool,
}

/// Streaming decoder state: a cursor into one input buffer, owned by a
/// single decode call.
pub struct Deserializer<'a> {
    input: &'a [u8],
    pos: usize,
}

impl<'a> Deserializer<'a> {
    pub closed spec fn wf(&self) -> bool {
        self.pos <= self.input@.len()
    }

    /// The input bytes not yet consumed.
    pub closed spec fn remaining(&self) -> Seq<u8> {
        self.input@.skip(self.pos as int)
    }

    pub fn new(input: &'a [u8]) -> (r: Self)
        ensures
            r.wf(),
            r.remaining() == input@,
    {
        let r = Deserializer { input, pos: 0 };
        proof {
            assert(r.remaining() =~= input@);
        }
        r
    }

    /// Succeeds exactly when only whitespace remains; trailing garbage after
    /// a decoded document is an error, not silently ignored.
    pub fn expect_eof(&self) -> (r: DeResult<()>)
        requires
            self.wf(),
        ensures
            r is Ok <==> all_ws(self.remaining()),
            r is Err ==> r->Err_0 == DeError::TrailingContent,
    {
        let n = self.input.len();
        let mut i: usize = self.pos;
        while i < n
            invariant
                self.wf(),
                n == self.input@.len(),
                self.pos <= i <= n,
                forall|j: int| self.pos <= j < i ==> is_ws_spec(#[trigger] self.input@[j]),
            decreases n - i,
        {
            if !is_ws(self.input[i]) {
                proof {
                    assert(self.remaining()[i - self.pos] == self.input@[i as int]);
                }
                return Err(DeError::TrailingContent);
            }
            i = i + 1;
        }
        proof {
            assert forall|j: int| 0 <= j < self.remaining().len() implies is_ws_spec(
                #[trigger] self.remaining()[j],
            ) by {
                assert(self.remaining()[j] == self.input@[self.pos + j]);
            }
        }
        Ok(())
    }

    /// Consume leading whitespace.
    fn skip_ws(&mut self)
        requires
            old(self).wf(),
        ensures
            final(self).wf(),
            final(self).input@ == old(self).input@,
            final(self).remaining() == old(self).remaining().skip(
                ws_count(old(self).remaining()) as int,
            ),
            final(self).remaining().len() == old(self).remaining().len() - ws_count(
                old(self).remaining(),
            ),
    {
        let ghost orig = self.remaining();
        let ghost pos0 = self.pos as int;
        proof {
            lemma_ws_count_le(orig);
            assert(orig.skip(0) =~= orig);
        }
        let n = self.input.len();
        while self.pos < n && is_ws(self.input[self.pos])
            invariant
                self.wf(),
                n == self.input@.len(),
                0 <= pos0 <= self.pos,
                self.input@ == old(self).input@,
                orig == self.input@.skip(pos0),
                self.remaining() == orig.skip(self.pos - pos0),
                ws_count(orig) == (self.pos - pos0) + ws_count(self.remaining()),
            decreases n - self.pos,
        {
            proof {
                let rem = self.remaining();
                assert(rem[0] == self.input@[self.pos as int]);
                assert(rem.skip(1) =~= self.input@.skip(self.pos as int + 1));
                vstd::seq_lib::lemma_seq_skip_of_skip(self.input@, pos0, self.pos + 1 - pos0);
                assert(orig.skip(self.pos + 1 - pos0) =~= rem.skip(1));
                assert(ws_count(rem) == 1 + ws_count(rem.skip(1)));
            }
            self.pos = self.pos + 1;
        }
        proof {
            if self.pos < n {
                assert(self.remaining()[0] == self.input@[self.pos as int]);
                assert(ws_count(self.remaining()) == 0);
            } else {
                assert(self.remaining() =~= Seq::<u8>::empty());
            }
        }
    }

    /// Read text content up to (not consuming) the next `<` or the end of
    /// input, and unescape it.
    pub fn read_text(&mut self) -> (r: DeResult<Vec<u8>>)
        requires
            old(self).wf(),
        ensures
            final(self).wf(),
            final(self).remaining().len() <= old(self).remaining().len(),
            final(self).remaining() == old(self).remaining().skip(
                until_count(old(self).remaining(), LT) as int,
            ),
            match r {
                Ok(v) => unescape_seq(
                    old(self).remaining().take(until_count(old(self).remaining(), LT) as int),
                ) == Some(v@),
                Err(e) => unescape_seq(
                    old(self).remaining().take(until_count(old(self).remaining(), LT) as int),
                ) is None && e == DeError::InvalidContent,
            },
    {
        let ghost orig = self.remaining();
        let ghost pos0 = self.pos as int;
        proof {
            lemma_until_count_le(orig, LT);
            assert(orig.skip(0) =~= orig);
        }
        let n = self.input.len();
        let start = self.pos;
        while self.pos < n && self.input[self.pos] != LT
            invariant
                self.wf(),
                n == self.input@.len(),
                0 <= pos0 <= self.pos,
                start == pos0,
                self.input@ == old(self).input@,
                orig == self.input@.skip(pos0),
                self.remaining() == orig.skip(self.pos - pos0),
                until_count(orig, LT) == (self.pos - pos0) + until_count(self.remaining(), LT),
            decreases n - self.pos,
        {
            proof {
                let rem = self.remaining();
                assert(rem[0] == self.input@[self.pos as int]);
                assert(rem.skip(1) =~= self.input@.skip(self.pos as int + 1));
                vstd::seq_lib::lemma_seq_skip_of_skip(self.input@, pos0, self.pos + 1 - pos0);
                assert(orig.skip(self.pos + 1 - pos0) =~= rem.skip(1));
                assert(until_count(rem, LT) == 1 + until_count(rem.skip(1), LT));
            }
            self.pos = self.pos + 1;
        }
        proof {
            if self.pos < n {
                assert(self.remaining()[0] == self.input@[self.pos as int]);
                assert(until_count(self.remaining(), LT) == 0);
            } else {
                assert(self.remaining() =~= Seq::<u8>::empty());
            }
            assert(until_count(orig, LT) == self.pos - pos0);
        }
        let seg: &[u8] = slice_range(self.input, start, self.pos);
        proof {
            assert(seg@ =~= orig.take(until_count(orig, LT) as int));
        }
        match unescape(seg) {
            Some(v) => Ok(v),
            None => Err(DeError::InvalidContent),
        }
    }

    /// Consume leading name bytes.
    fn skip_name(&mut self)
        requires
            old(self).wf(),
        ensures
            final(self).wf(),
            final(self).input@ == old(self).input@,
            final(self).remaining() == old(self).remaining().skip(
                name_len(old(self).remaining()) as int,
            ),
            final(self).remaining().len() == old(self).remaining().len() - name_len(
                old(self).remaining(),
            ),
    {
        let ghost orig = self.remaining();
        let ghost pos0 = self.pos as int;
        proof {
            lemma_name_len_le(orig);
            assert(orig.skip(0) =~= orig);
        }
        let n = self.input.len();
        while self.pos < n && is_name_byte_x(self.input[self.pos])
            invariant
                self.wf(),
                n == self.input@.len(),
                0 <= pos0 <= self.pos,
                self.input@ == old(self).input@,
                orig == self.input@.skip(pos0),
                self.remaining() == orig.skip(self.pos - pos0),
                name_len(orig) == (self.pos - pos0) + name_len(self.remaining()),
            decreases n - self.pos,
        {
            proof {
                let rem = self.remaining();
                assert(rem[0] == self.input@[self.pos as int]);
                assert(rem.skip(1) =~= self.input@.skip(self.pos as int + 1));
                vstd::seq_lib::lemma_seq_skip_of_skip(self.input@, pos0, self.pos + 1 - pos0);
                assert(orig.skip(self.pos + 1 - pos0) =~= rem.skip(1));
                assert(name_len(rem) == 1 + name_len(rem.skip(1)));
            }
            self.pos = self.pos + 1;
        }
        proof {
            if self.pos < n {
                assert(self.remaining()[0] == self.input@[self.pos as int]);
                assert(name_len(self.remaining()) == 0);
            } else {
                assert(self.remaining() =~= Seq::<u8>::empty());
            }
        }
    }

    /// Consume leading bytes up to (not consuming) the next `stop` byte.
    fn skip_until(&mut self, stop: u8)
        requires
            old(self).wf(),
        ensures
            final(self).wf(),
            final(self).input@ == old(self).input@,
            final(self).remaining() == old(self).remaining().skip(
                until_count(old(self).remaining(), stop) as int,
            ),
            final(self).remaining().len() == old(self).remaining().len() - until_count(
                old(self).remaining(),
                stop,
            ),
            final(self).remaining().len() > 0 ==> final(self).remaining()[0] == stop,
    {
        let ghost orig = self.remaining();
        let ghost pos0 = self.pos as int;
        proof {
            lemma_until_count_le(orig, stop);
            assert(orig.skip(0) =~= orig);
        }
        let n = self.input.len();
        while self.pos < n && self.input[self.pos] != stop
            invariant
                self.wf(),
                n == self.input@.len(),
                0 <= pos0 <= self.pos,
                self.input@ == old(self).input@,
                orig == self.input@.skip(pos0),
                self.remaining() == orig.skip(self.pos - pos0),
                until_count(orig, stop) == (self.pos - pos0) + until_count(self.remaining(), stop),
            decreases n - self.pos,
        {
            proof {
                let rem = self.remaining();
                assert(rem[0] == self.input@[self.pos as int]);
                assert(rem.skip(1) =~= self.input@.skip(self.pos as int + 1));
                vstd::seq_lib::lemma_seq_skip_of_skip(self.input@, pos0, self.pos + 1 - pos0);
                assert(orig.skip(self.pos + 1 - pos0) =~= rem.skip(1));
                assert(until_count(rem, stop) == 1 + until_count(rem.skip(1), stop));
            }
            self.pos = self.pos + 1;
        }
        proof {
            if self.pos < n {
                assert(self.remaining()[0] == self.input@[self.pos as int]);
                assert(until_count(self.remaining(), stop) == 0);
            } else {
                assert(self.remaining() =~= Seq::<u8>::empty());
            }
        }
    }

    /// Consume a closing tag `</name>`, whitespace allowed around it.
    pub fn expect_close(&mut self, name: &[u8]) -> (r: DeResult<()>)
        requires
            old(self).wf(),
        ensures
            final(self).wf(),
            final(self).remaining().len() <= old(self).remaining().len(),
            match close_scan(old(self).remaining(), name@) {
                Some(c) => r is Ok && final(self).remaining() == old(self).remaining().skip(
                    c as int,
                ),
                None => r is Err,
            },
    {
        let ghost orig = self.remaining();
        let ghost w = ws_count(orig);
        let n = self.input.len();
        self.skip_ws();
        let ghost t = self.remaining();
        let ghost pos1 = self.pos as int;
        proof {
            assert(t == self.input@.skip(pos1));
        }
        let two: [u8; 2] = [LT, SLASH];
        proof {
            assert(two@ =~= seq![LT, SLASH]);
        }
        if !starts_with_at(self.input, self.pos, &two) {
            proof {
                if t.len() >= name@.len() + 3 {
                    assert(t.subrange(0, 2) =~= self.input@.subrange(pos1, pos1 + 2));
                    assert(two@ =~= seq![LT, SLASH]);
                    if t[0] == LT && t[1] == SLASH {
                        assert(self.input@.subrange(pos1, pos1 + 2) =~= two@);
                    }
                }
            }
            return Err(DeError::Syntax);
        }
        proof {
            assert(self.pos + 2 <= n);
        }
        if !starts_with_at(self.input, self.pos + 2, name) {
            proof {
                if t.len() >= name@.len() + 3 && t.subrange(2, 2 + name@.len() as int) == name@ {
                    assert(t.subrange(2, 2 + name@.len() as int) =~= self.input@.subrange(
                        pos1 + 2,
                        pos1 + 2 + name@.len(),
                    ));
                }
            }
            return Err(DeError::Syntax);
        }
        proof {
            assert(t.subrange(0, 2) =~= self.input@.subrange(pos1, pos1 + 2));
            assert(t[0] == t.subrange(0, 2)[0]);
            assert(t[1] == t.subrange(0, 2)[1]);
            assert(t.subrange(2, 2 + name@.len() as int) =~= self.input@.subrange(
                pos1 + 2,
                pos1 + 2 + name@.len(),
            ));
        }
        self.pos = self.pos + 2 + name.len();
        let ghost u = self.remaining();
        proof {
            vstd::seq_lib::lemma_seq_skip_of_skip(self.input@, pos1, 2 + name@.len() as int);
            assert(u =~= t.skip(2 + name@.len() as int));
        }
        let ghost w2 = ws_count(u);
        self.skip_ws();
        let n = self.input.len();
        if self.pos >= n {
            proof {
                assert(self.remaining() =~= Seq::<u8>::empty());
                lemma_ws_count_le(u);
            }
            return Err(DeError::UnexpectedEof);
        }
        let b = self.input[self.pos];
        proof {
            assert(self.remaining()[0] == self.input@[self.pos as int]);
            assert(u.skip(w2 as int)[0] == u[w2 as int]);
            lemma_ws_count_le(u);
        }
        if b != GT {
            return Err(DeError::Syntax);
        }
        self.pos = self.pos + 1;
        proof {
            assert(close_scan(orig, name@) == Some((w + 2 + name@.len() + w2 + 1) as nat));
            vstd::seq_lib::lemma_seq_skip_of_skip(
                self.input@,
                pos1 + 2 + name@.len(),
                w2 as int + 1,
            );
            vstd::seq_lib::lemma_seq_skip_of_skip(
                self.input@,
                pos1 - w,
                (w + 2 + name@.len() + w2 + 1) as int,
            );
            assert(self.remaining() =~= orig.skip((w + 2 + name@.len() + w2 + 1) as int));
        }
        Ok(())
    }

    /// Consume the remainder of an element open tag after its name:
    /// attributes (recognized and discarded) up to `>` or `/>`. Returns the
    /// self-closing flag.
    #[verifier::rlimit(80)]
    fn scan_open_rest(&mut self) -> (r: DeResult<bool>)
        requires
            old(self).wf(),
        ensures
            final(self).wf(),
            final(self).input@ == old(self).input@,
            final(self).remaining().len() <= old(self).remaining().len(),
            match open_rest_scan(old(self).remaining()) {
                Some(p) => r matches Ok(b) && b == p.1 && final(self).remaining() == old(
                    self,
                ).remaining().skip(p.0 as int),
                None => r is Err,
            },
    {
        let ghost orig = self.remaining();
        let pos_start: usize = self.pos;
        proof {
            assert(orig.skip(0) =~= orig);
        }
        let n = self.input.len();
        loop
            invariant
                self.wf(),
                n == self.input@.len(),
                self.input@ == old(self).input@,
                pos_start <= self.pos,
                orig == old(self).remaining(),
                orig == self.input@.skip(pos_start as int),
                self.remaining() == orig.skip(self.pos - pos_start),
                match open_rest_scan(self.remaining()) {
                    Some(p) => open_rest_scan(orig) == Some(
                        ((self.pos - pos_start + p.0) as nat, p.1),
                    ),
                    None => open_rest_scan(orig) is None,
                },
            decreases self.remaining().len(),
        {
            let ghost cur = self.remaining();
            let pos_cur: usize = self.pos;
            let ghost consumed = pos_cur - pos_start;
            let ghost w = ws_count(cur);
            self.skip_ws();
            let ghost t = self.remaining();
            proof {
                lemma_ws_count_le(cur);
                assert(cur.len() == self.input@.len() - pos_cur);
                assert(self.remaining().len() == cur.len() - w);
                assert(self.remaining().len() == self.input@.len() - self.pos);
                assert(self.pos == pos_cur + w);
                vstd::seq_lib::lemma_seq_skip_of_skip(
                    self.input@,
                    pos_start as int,
                    consumed + w,
                );
                assert(t =~= orig.skip(consumed + w as int));
            }
            if self.pos >= n {
                proof {
                    assert(t =~= Seq::<u8>::empty());
                    assert(open_rest_scan(cur) is None);
                }
                return Err(DeError::UnexpectedEof);
            }
            let b = self.input[self.pos];
            proof {
                assert(t[0] == self.input@[self.pos as int]);
            }
            if b == GT {
                self.pos = self.pos + 1;
                proof {
                    assert(open_rest_scan(cur) == Some(((w + 1) as nat, false)));
                    vstd::seq_lib::lemma_seq_skip_of_skip(
                        self.input@,
                        pos_start as int,
                        consumed + w + 1,
                    );
                    assert(self.remaining() =~= orig.skip(consumed + w as int + 1));
                    assert(open_rest_scan(orig) == Some(((consumed + w + 1) as nat, false)));
                }
                return Ok(false);
            }
            if b == SLASH {
                if self.pos + 1 < n && self.input[self.pos + 1] == GT {
                    proof {
                        assert(t[1] == self.input@[self.pos as int + 1]);
                        assert(open_rest_scan(cur) == Some(((w + 2) as nat, true)));
                    }
                    self.pos = self.pos + 2;
                    proof {
                        vstd::seq_lib::lemma_seq_skip_of_skip(
                            self.input@,
                            pos_start as int,
                            consumed + w + 2,
                        );
                        assert(self.remaining() =~= orig.skip(consumed + w as int + 2));
                        assert(open_rest_scan(orig) == Some(((consumed + w + 2) as nat, true)));
                    }
                    return Ok(true);
                } else {
                    proof {
                        if t.len() >= 2 {
                            assert(t[1] == self.input@[self.pos as int + 1]);
                        }
                        assert(open_rest_scan(cur) is None);
                    }
                    return Err(DeError::Syntax);
                }
            }
            // an attribute must be separated by whitespace from what precedes
            if self.pos == pos_cur {
                proof {
                    assert(w == 0);
                    assert(open_rest_scan(cur) is None);
                }
                return Err(DeError::Syntax);
            }
            // attribute name
            let ghost an = name_len(t);
            let name_start = self.pos;
            self.skip_name();
            proof {
                lemma_name_len_le(t);
                assert(t.len() == self.input@.len() - name_start);
                assert(self.remaining().len() == t.len() - an);
                assert(self.remaining().len() == self.input@.len() - self.pos);
                assert(self.pos == name_start + an);
            }
            if self.pos == name_start {
                proof {
                    assert(an == 0);
                    assert(open_rest_scan(cur) is None);
                }
                return Err(DeError::Syntax);
            }
            let ghost u = self.remaining();
            proof {
                vstd::seq_lib::lemma_seq_skip_of_skip(
                    self.input@,
                    pos_cur + w as int,
                    an as int,
                );
                assert(u =~= t.skip(an as int));
            }
            if n - self.pos < 2 {
                proof {
                    assert(u.len() < 2);
                    assert(open_rest_scan(cur) is None);
                }
                return Err(DeError::UnexpectedEof);
            }
            let e = self.input[self.pos];
            let q = self.input[self.pos + 1];
            proof {
                assert(u[0] == self.input@[self.pos as int]);
                assert(u[1] == self.input@[self.pos as int + 1]);
            }
            if e != EQ_SIGN || (q != QUOT && q != APOS) {
                proof {
                    assert(open_rest_scan(cur) is None);
                }
                return Err(DeError::Syntax);
            }
            self.pos = self.pos + 2;
            let ghost v = self.remaining();
            proof {
                vstd::seq_lib::lemma_seq_skip_of_skip(
                    self.input@,
                    pos_cur + w + an as int,
                    2,
                );
                assert(v =~= u.skip(2));
            }
            let ghost vl = until_count(v, q);
            self.skip_until(q);
            proof {
                lemma_until_count_le(v, q);
            }
            if self.pos >= n {
                proof {
                    assert(self.remaining() =~= Seq::<u8>::empty());
                    assert(vl == v.len());
                    assert(open_rest_scan(cur) is None);
                }
                return Err(DeError::UnexpectedEof);
            }
            proof {
                assert(vl < v.len());
            }
            self.pos = self.pos + 1;
            let ghost step = w + an + 2 + vl + 1;
            proof {
                vstd::seq_lib::lemma_seq_skip_of_skip(
                    self.input@,
                    pos_cur + w + an + 2,
                    vl as int + 1,
                );
                assert(self.remaining() =~= v.skip(vl as int + 1));
                vstd::seq_lib::lemma_seq_skip_of_skip(
                    self.input@,
                    pos_start as int,
                    consumed + step,
                );
                assert(self.remaining() =~= orig.skip(consumed + step as int));
                assert(open_rest_scan(cur) == match open_rest_scan(v.skip(vl as int + 1)) {
                    Some((k, sc)) => Some(((step + k) as nat, sc)),
                    None => None::<(nat, bool)>,
                });
                assert(self.pos - pos_start == consumed + step);
                match open_rest_scan(self.remaining()) {
                    Some(p) => {
                        assert(open_rest_scan(orig) == Some(
                            ((self.pos - pos_start + p.0) as nat, p.1),
                        ));
                    },
                    None => {
                        assert(open_rest_scan(orig) is None);
                    },
                }
            }
        }
    }

    /// Read the next child element's open tag inside element content, or
    /// report the end of the content (end of input or a closing tag, which is
    /// not consumed). Unknown attributes, and the namespace declaration on a
    /// root element, are recognized and discarded.
    pub fn read_child_open(&mut self) -> (r: DeResult<Option<ChildOpen>>)
        requires
            old(self).wf(),
        ensures
            final(self).wf(),
            final(self).remaining().len() <= old(self).remaining().len(),
            match child_scan(old(self).remaining()) {
                Some(res) => {
                    &&& r is Ok
                    &&& final(self).remaining() == old(self).remaining().skip(res.1 as int)
                    &&& (match res.0 {
                        Some(nmsc) => r->Ok_0 is Some && r->Ok_0->Some_0.name@ == nmsc.0
                            && r->Ok_0->Some_0.self_closed == nmsc.1,
                        None => r->Ok_0 is None,
                    })
                },
                None => r is Err,
            },
            (r matches Ok(c) && c is Some) ==> final(self).remaining().len() < old(
                self,
            ).remaining().len(),
    {
        let ghost orig = self.remaining();
        let ghost w = ws_count(orig);
        proof {
            lemma_child_scan_bounds(orig);
            lemma_ws_count_le(orig);
        }
        self.skip_ws();
        let ghost t = self.remaining();
        let ghost pos1 = self.pos as int;
        let n = self.input.len();
        if self.pos >= n {
            proof {
                assert(t =~= Seq::<u8>::empty());
            }
            return Ok(None);
        }
        let b = self.input[self.pos];
        proof {
            assert(t[0] == self.input@[self.pos as int]);
        }
        if b != LT {
            return Err(DeError::Syntax);
        }
        if self.pos + 1 < n && self.input[self.pos + 1] == SLASH {
            proof {
                assert(t[1] == self.input@[self.pos as int + 1]);
            }
            return Ok(None);
        }
        proof {
            if t.len() >= 2 {
                assert(t[1] == self.input@[self.pos as int + 1]);
            }
        }
        self.pos = self.pos + 1;
        let ghost t1 = self.remaining();
        proof {
            vstd::seq_lib::lemma_seq_skip_of_skip(self.input@, pos1, 1);
            assert(t1 =~= t.skip(1));
        }
        let name_start = self.pos;
        let ghost nl = name_len(t1);
        self.skip_name();
        proof {
            lemma_name_len_le(t1);
            assert(t1.len() == self.input@.len() - name_start);
            assert(self.remaining().len() == t1.len() - nl);
            assert(self.remaining().len() == self.input@.len() - self.pos);
            assert(self.pos == name_start + nl);
        }
        if self.pos == name_start {
            proof {
                assert(nl == 0);
            }
            return Err(DeError::Syntax);
        }
        let name_slice: &[u8] = slice_range(self.input, name_start, self.pos);
        let name_vec = bytes_to_vec(name_slice);
        proof {
            lemma_name_len_le(t1);
            assert(name_vec@ =~= t1.take(nl as int));
        }
        let ghost after_name = self.remaining();
        proof {
            vstd::seq_lib::lemma_seq_skip_of_skip(self.input@, pos1 + 1, nl as int);
            assert(after_name =~= t.skip(1 + nl as int));
        }
        match self.scan_open_rest() {
            Ok(sc) => {
                proof {
                    let k = open_rest_scan(after_name)->Some_0.0;
                    vstd::seq_lib::lemma_seq_skip_of_skip(
                        self.input@,
                        pos1 - w,
                        (w + 1 + nl + k) as int,
                    );
                    assert(self.remaining() =~= orig.skip((w + 1 + nl + k) as int));
                    lemma_open_rest_scan_bounds(after_name);
                }
                Ok(Some(ChildOpen { name: name_vec, self_closed: sc }))
            },
            Err(e) => Err(e),
        }
    }

    /// Consume the rest of an element whose open tag was just read (and was
    /// not self-closing), including its matching close tag, skipping whatever
    /// it contains. Used to tolerate unknown members.
    pub fn skip_element(&mut self) -> (r: DeResult<()>)
        requires
            old(self).wf(),
        ensures
            final(self).wf(),
            final(self).remaining().len() <= old(self).remaining().len(),
    {
        let n = self.input.len();
        let mut depth: usize = 1;
        while depth > 0
            invariant
                self.wf(),
                n == self.input@.len(),
                self.input@ == old(self).input@,
                self.remaining().len() <= old(self).remaining().len(),
            decreases self.remaining().len(),
        {
            let ghost iter_len = self.remaining().len();
            if self.pos >= n {
                return Err(DeError::UnexpectedEof);
            }
            let b = self.input[self.pos];
            if b == LT {
                if self.pos + 1 < n && self.input[self.pos + 1] == SLASH {
                    self.pos = self.pos + 2;
                    self.skip_until(GT);
                    if self.pos >= n {
                        return Err(DeError::UnexpectedEof);
                    }
                    self.pos = self.pos + 1;
                    depth = depth - 1;
                } else {
                    self.pos = self.pos + 1;
                    let mut prev_slash = false;
                    let mut closed_here = false;
                    loop
                        invariant_except_break
                            self.wf(),
                            n == self.input@.len(),
                            self.input@ == old(self).input@,
                            iter_len <= old(self).remaining().len(),
                            self.remaining().len() < iter_len,
                        ensures
                            self.wf(),
                            n == self.input@.len(),
                            self.input@ == old(self).input@,
                            iter_len <= old(self).remaining().len(),
                            self.remaining().len() < iter_len,
                        decreases self.remaining().len(),
                    {
                        if self.pos >= n {
                            return Err(DeError::UnexpectedEof);
                        }
                        let c = self.input[self.pos];
                        if c == QUOT || c == APOS {
                            self.pos = self.pos + 1;
                            self.skip_until(c);
                            if self.pos >= n {
                                return Err(DeError::UnexpectedEof);
                            }
                            self.pos = self.pos + 1;
                            prev_slash = false;
                        } else if c == GT {
                            self.pos = self.pos + 1;
                            closed_here = prev_slash;
                            break;
                        } else {
                            prev_slash = c == SLASH;
                            self.pos = self.pos + 1;
                        }
                    }
                    if !closed_here {
                        if depth == usize::MAX {
                            return Err(DeError::Syntax);
                        }
                        depth = depth + 1;
                    }
                }
            } else {
                self.pos = self.pos + 1;
            }
        }
        Ok(())
    }

    /// Read the open tag of a whole-body document's root element, requiring
    /// the expected tag name. Returns the self-closing flag.
    pub fn read_root_open(&mut self, expected: &[u8]) -> (r: DeResult<bool>)
        requires
            old(self).wf(),
        ensures
            final(self).wf(),
            final(self).remaining().len() <= old(self).remaining().len(),
            match child_scan(old(self).remaining()) {
                Some(res) => match res.0 {
                    Some(nmsc) => if nmsc.0 == expected@ {
                        r matches Ok(b) && b == nmsc.1 && final(self).remaining() == old(
                            self,
                        ).remaining().skip(res.1 as int)
                    } else {
                        r is Err
                    },
                    None => r is Err,
                },
                None => r is Err,
            },
    {
        match self.read_child_open() {
            Ok(Some(c)) => {
                if eq_bytes(c.name.as_slice(), expected) {
                    Ok(c.self_closed)
                } else {
                    Err(DeError::UnexpectedTag)
                }
            },
            Ok(None) => Err(DeError::UnexpectedEof),
            Err(e) => Err(e),
        }
    }
}

/// Per-type mapping contract, decode side, for values decoded from element
/// content (member elements in any order, unknown members skipped).
pub trait DeserializeContent: Sized {
    fn deserialize_content<'a>(d: &mut Deserializer<'a>) -> (r: DeResult<Self>)
        requires
            old(d).wf(),
        ensures
            final(d).wf(),
            final(d).remaining().len() <= old(d).remaining().len(),
    ;
}

/// Decode side for whole request/response bodies: reads the value's own root
/// element and its content.
pub trait Deserialize: Sized {
    fn deserialize<'a>(d: &mut Deserializer<'a>) -> (r: DeResult<Self>)
        requires
            old(d).wf(),
        ensures
            final(d).wf(),
            final(d).remaining().len() <= old(d).remaining().len(),
    ;
}

} // verus!
