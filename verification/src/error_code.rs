//! The error taxonomy's runtime side: the table of known S3 error codes with
//! their canonical HTTP statuses, the closed-with-extension error identifier,
//! and the standard `<Error>` envelope serialized through the codec.

use vstd::prelude::*;
use crate::num::{is_digit, digit_val};
use crate::text::{SPACE, DIGIT_ZERO, eq_bytes};
use crate::utf8::{utf8_valid, check_utf8};
use crate::de::{Deserializer, DeserializeContent, Deserialize, DeError, DeResult, bytes_to_vec};
use crate::ser::{Serializer, SerializeContent, Serialize, element};
use crate::types::{opt_view, text_el, opt_text_el, write_opt_text, read_text_member, skip_member,
    decode_empty_content};
use crate::names::{n_error, t_error, n_code, t_code, n_message, t_message, n_key, t_key,
    n_version_id, t_version_id};

verus! {

/// Whether documentation status text is well-formed: a three-digit status
/// number not starting with zero, alone or followed by a space and a reason
/// phrase.
pub open spec fn status_text_valid(s: Seq<u8>) -> bool {
    &&& s.len() >= 3
    &&& is_digit(s[0])
    &&& is_digit(s[1])
    &&& is_digit(s[2])
    &&& s[0] != DIGIT_ZERO
    &&& (s.len() == 3 || s[3] == SPACE)
}

/// The status number of well-formed status text.
pub open spec fn status_val(s: Seq<u8>) -> u16 {
    (digit_val(s[0]) * 100 + digit_val(s[1]) * 10 + digit_val(s[2])) as u16
}

/// Parse a documented status line into its status number.
pub fn parse_status(s: &[u8]) -> (r: Option<u16>)
    ensures
        r is Some <==> status_text_valid(s@),
        r matches Some(v) ==> v == status_val(s@),
{
    if s.len() < 3 {
        return None;
    }
    let d0 = s[0];
    let d1 = s[1];
    let d2 = s[2];
    if d0 <= DIGIT_ZERO || d0 > 0x39 || d1 < DIGIT_ZERO || d1 > 0x39 || d2 < DIGIT_ZERO || d2
        > 0x39 {
        return None;
    }
    if s.len() > 3 && s[3] != SPACE {
        return None;
    }
    let v: u16 = (d0 - DIGIT_ZERO) as u16 * 100 + (d1 - DIGIT_ZERO) as u16 * 10 + (d2
        - DIGIT_ZERO) as u16;
    Some(v)
}

/// One known error code: its wire string, the description paragraphs the
/// documentation gives it, and its canonical HTTP status if it has one, both
/// as the documented text and as the parsed status number.
#[derive(Debug, Clone, PartialEq, Eq)]
pub struct ErrorEntry {
    pub code: Vec<u8>,
    pub descriptions: Vec<Vec<u8>>,
    pub status_text: Option<Vec<u8>>,
    pub status: Option<u16>,
}

impl ErrorEntry {
    /// The parsed status agrees with the documented status text.
    pub open spec fn wf(&self) -> bool {
        match self.status_text {
            Option::Some(t) => status_text_valid(t@) && self.status == Option::Some(status_val(t@)),
            Option::None => self.status is None,
        }
    }
}

/// The first entry of a sequence carrying the given code.
pub open spec fn find_spec(s: Seq<ErrorEntry>, code: Seq<u8>) -> Option<ErrorEntry>
    decreases s.len(),
{
    if s.len() == 0 {
        Option::None
    } else if s[0].code@ == code {
        Option::Some(s[0])
    } else {
        find_spec(s.skip(1), code)
    }
}

/// With no match among the first `i` entries, the search result is decided by
/// the rest.
pub proof fn lemma_find_spec_skip(s: Seq<ErrorEntry>, code: Seq<u8>, i: int)
    requires
        0 <= i <= s.len(),
        forall|j: int| 0 <= j < i ==> #[trigger] s[j].code@ != code,
    ensures
        find_spec(s, code) == find_spec(s.skip(i), code),
    decreases i,
{
    if i > 0 {
        assert(s[0].code@ != code);
        lemma_find_spec_skip(s.skip(1), code, i - 1);
        assert(s.skip(1).skip(i - 1) =~= s.skip(i));
        assert forall|j: int| 0 <= j < i - 1 implies #[trigger] s.skip(1)[j].code@ != code by {
            assert(s.skip(1)[j] == s[j + 1]);
        }
    } else {
        assert(s.skip(0) =~= s);
    }
}

/// A match is absent exactly when no entry carries the code.
pub proof fn lemma_find_spec_none(s: Seq<ErrorEntry>, code: Seq<u8>)
    ensures
        (find_spec(s, code) is None) <==> (forall|j: int|
            0 <= j < s.len() ==> #[trigger] s[j].code@ != code),
    decreases s.len(),
{
    if s.len() > 0 {
        lemma_find_spec_none(s.skip(1), code);
        if find_spec(s, code) is None {
            assert forall|j: int| 0 <= j < s.len() implies #[trigger] s[j].code@ != code by {
                if j > 0 {
                    assert(s.skip(1)[j - 1] == s[j]);
                }
            }
        } else {
            if s[0].code@ != code {
                let w = choose|j: int| 0 <= j < s.skip(1).len() && #[trigger] s.skip(1)[j].code@
                    == code;
                assert(s[w + 1] == s.skip(1)[w]);
            }
        }
    }
}

/// Appending an entry leaves earlier matches and adds one for its own code.
pub proof fn lemma_find_spec_push(s: Seq<ErrorEntry>, e: ErrorEntry, code: Seq<u8>)
    ensures
        find_spec(s.push(e), code) == (match find_spec(s, code) {
            Option::Some(x) => Option::Some(x),
            Option::None => if e.code@ == code {
                Option::Some(e)
            } else {
                Option::None
            },
        }),
    decreases s.len(),
{
    if s.len() == 0 {
        assert(s.push(e)[0] == e);
        assert(s.push(e).skip(1) =~= Seq::<ErrorEntry>::empty());
    } else {
        assert(s.push(e)[0] == s[0]);
        assert(s.push(e).skip(1) =~= s.skip(1).push(e));
        lemma_find_spec_push(s.skip(1), e, code);
    }
}

/// Replacing the entry that holds a code rewrites that code's match and no
/// other.
pub proof fn lemma_find_spec_update(s: Seq<ErrorEntry>, i: int, e: ErrorEntry, code: Seq<u8>)
    requires
        0 <= i < s.len(),
        s[i].code@ == e.code@,
        forall|j: int| 0 <= j < s.len() && j != i ==> #[trigger] s[j].code@ != e.code@,
    ensures
        find_spec(s.update(i, e), code) == (if code == e.code@ {
            Option::Some(e)
        } else {
            find_spec(s, code)
        }),
    decreases s.len(),
{
    let t = s.update(i, e);
    if i == 0 {
        assert(t[0] == e);
        assert(t.skip(1) =~= s.skip(1));
        if code == e.code@ {
        } else {
            assert(t[0].code@ == e.code@);
        }
    } else {
        assert(t[0] == s[0]);
        assert(t.skip(1) =~= s.skip(1).update(i - 1, e));
        assert(s.skip(1)[i - 1] == s[i]);
        assert forall|j: int| 0 <= j < s.skip(1).len() && j != i - 1 implies #[trigger] s.skip(
            1,
        )[j].code@ != e.code@ by {
            assert(s.skip(1)[j] == s[j + 1]);
        }
        lemma_find_spec_update(s.skip(1), i - 1, e, code);
        if code == e.code@ {
            assert(s[0].code@ != code);
        }
    }
}

/// The closed error-code table: one entry per known code. It is built once
/// from the service documentation and read-only thereafter.
#[derive(Debug, Clone, PartialEq, Eq)]
pub struct ErrorTable {
    pub entries: Vec<ErrorEntry>,
}

impl ErrorTable {
    /// Codes are unique and every entry's status agrees with its text.
    pub open spec fn wf(&self) -> bool {
        &&& forall|i: int, j: int|
            0 <= i < j < self.entries@.len() ==> (#[trigger] self.entries@[i].code@)
                != (#[trigger] self.entries@[j].code@)
        &&& forall|i: int| 0 <= i < self.entries@.len() ==> (#[trigger] self.entries@[i]).wf()
    }

    /// Whether a code string is in the closed set.
    pub open spec fn contains_code(&self, code: Seq<u8>) -> bool {
        find_spec(self.entries@, code) is Some
    }

    pub fn new() -> (r: Self)
        ensures
            r.wf(),
            r.entries@.len() == 0,
    {
        ErrorTable { entries: Vec::new() }
    }

    /// Find the entry holding a code.
    pub fn find_index(&self, code: &[u8]) -> (r: Option<usize>)
        ensures
            match r {
                Option::Some(i) => i < self.entries@.len() && self.entries@[i as int].code@
                    == code@ && find_spec(self.entries@, code@) == Option::Some(
                    self.entries@[i as int],
                ),
                Option::None => find_spec(self.entries@, code@) is None,
            },
    {
        let n = self.entries.len();
        let mut i: usize = 0;
        while i < n
            invariant
                n == self.entries@.len(),
                i <= n,
                forall|j: int| 0 <= j < i ==> #[trigger] self.entries@[j].code@ != code@,
            decreases n - i,
        {
            if eq_bytes(self.entries[i].code.as_slice(), code) {
                proof {
                    lemma_find_spec_skip(self.entries@, code@, i as int);
                    assert(self.entries@.skip(i as int)[0] == self.entries@[i as int]);
                }
                return Some(i);
            }
            i = i + 1;
        }
        proof {
            lemma_find_spec_skip(self.entries@, code@, n as int);
            assert(self.entries@.skip(n as int) =~= Seq::<ErrorEntry>::empty());
        }
        None
    }

    /// Insert an entry, replacing any entry that already holds its code.
    pub fn upsert(&mut self, entry: ErrorEntry)
        requires
            old(self).wf(),
            entry.wf(),
        ensures
            final(self).wf(),
            find_spec(final(self).entries@, entry.code@) == Option::Some(entry),
            forall|c: Seq<u8>|
                c != entry.code@ ==> #[trigger] find_spec(final(self).entries@, c) == find_spec(
                    old(self).entries@,
                    c,
                ),
    {
        let ghost olds = self.entries@;
        let ghost ec = entry.code@;
        match self.find_index(entry.code.as_slice()) {
            Option::Some(i) => {
                proof {
                    lemma_find_spec_none(olds, ec);
                    assert forall|j: int|
                        0 <= j < olds.len() && j != i implies (#[trigger] olds[j].code@) != ec by {
                        if olds[j].code@ == ec {
                            assert(olds[i as int].code@ == olds[j].code@);
                        }
                    }
                }
                proof {
                    lemma_find_spec_update(olds, i as int, entry, ec);
                }
                let slot = &mut self.entries[i];
                *slot = entry;
                proof {
                    assert(self.entries@ =~= olds.update(i as int, entry));
                    assert forall|c: Seq<u8>| c != ec implies #[trigger] find_spec(
                        self.entries@,
                        c,
                    ) == find_spec(olds, c) by {
                        lemma_find_spec_update(olds, i as int, entry, c);
                    }
                    assert(find_spec(self.entries@, ec) == Option::Some(entry)) by {
                        lemma_find_spec_update(olds, i as int, entry, ec);
                    }
                }
            },
            Option::None => {
                proof {
                    lemma_find_spec_none(olds, ec);
                }
                self.entries.push(entry);
                proof {
                    assert forall|c: Seq<u8>| c != ec implies #[trigger] find_spec(
                        self.entries@,
                        c,
                    ) == find_spec(olds, c) by {
                        lemma_find_spec_push(olds, entry, c);
                    }
                    assert(find_spec(self.entries@, ec) == Option::Some(entry)) by {
                        lemma_find_spec_push(olds, entry, ec);
                    }
                    assert forall|i: int, j: int|
                        0 <= i < j < self.entries@.len() implies (#[trigger] self.entries@[i].code@)
                        != (#[trigger] self.entries@[j].code@) by {
                        if j == self.entries@.len() - 1 {
                            assert(self.entries@[j] == entry);
                            assert(olds[i] == self.entries@[i]);
                        }
                    }
                }
            },
        }
    }

    /// Match raw bytes against the closed set byte-for-byte; on no match,
    /// bytes that are valid text become an extension identifier. Bytes that
    /// are neither a known code nor valid text have no identifier: the code
    /// value must be representable as text, so that is a caller error.
    pub fn resolve(&self, code: &[u8]) -> (r: Option<S3ErrorCode>)
        ensures
            r is Some <==> (self.contains_code(code@) || utf8_valid(code@)),
            match r {
                Option::Some(x) => x.code_spec() == code@ && ((x is Known) <==> self.contains_code(
                    code@,
                )),
                Option::None => true,
            },
    {
        match self.find_index(code) {
            Option::Some(i) => Some(S3ErrorCode::Known(bytes_to_vec(code))),
            Option::None => {
                if check_utf8(code) {
                    Some(S3ErrorCode::Custom(bytes_to_vec(code)))
                } else {
                    None
                }
            },
        }
    }

    /// The canonical HTTP status of an identifier: known codes with a single
    /// documented status carry it; known codes with no documented status, and
    /// all extension codes, have none, and the request-handling layer must
    /// supply a status itself.
    pub open spec fn spec_status_of(&self, code: S3ErrorCode) -> Option<u16> {
        match code {
            S3ErrorCode::Known(c) => match find_spec(self.entries@, c@) {
                Option::Some(e) => e.status,
                Option::None => Option::None,
            },
            S3ErrorCode::Custom(c) => Option::None,
        }
    }

    pub fn status_of(&self, code: &S3ErrorCode) -> (r: Option<u16>)
        ensures
            r == self.spec_status_of(*code),
    {
        match code {
            S3ErrorCode::Known(c) => match self.find_index(c.as_slice()) {
                Option::Some(i) => self.entries[i].status,
                Option::None => None,
            },
            S3ErrorCode::Custom(c) => None,
        }
    }
}

/// An S3 error identifier: one of the closed set of known codes, or the open
/// extension holding an arbitrary code string verbatim, so that codes the
/// table does not know still round-trip losslessly.
#[derive(Debug, Clone, PartialEq, Eq)]
pub enum S3ErrorCode {
    Known(Vec<u8>),
    Custom(Vec<u8>),
}

impl S3ErrorCode {
    /// The wire string of the identifier.
    pub open spec fn code_spec(&self) -> Seq<u8> {
        match self {
            S3ErrorCode::Known(c) => c@,
            S3ErrorCode::Custom(c) => c@,
        }
    }

    pub fn as_bytes(&self) -> (r: &[u8])
        ensures
            r@ == self.code_spec(),
    {
        match self {
            S3ErrorCode::Known(c) => c.as_slice(),
            S3ErrorCode::Custom(c) => c.as_slice(),
        }
    }
}

/// The standard S3 `<Error>` document body: a required `<Code>` and optional
/// `<Message>`, `<Key>` and `<VersionId>`.
#[derive(Debug, Clone, PartialEq, Eq)]
pub struct ErrorEnvelope {
    pub code: S3ErrorCode,
    pub message: Option<Vec<u8>>,
    pub key: Option<Vec<u8>>,
    pub version_id: Option<Vec<u8>>,
}

impl SerializeContent for ErrorEnvelope {
    open spec fn content_spec(&self) -> Seq<u8> {
        text_el(n_code(), self.code.code_spec()) + opt_text_el(n_message(), opt_view(self.message))
            + opt_text_el(n_key(), opt_view(self.key)) + opt_text_el(
            n_version_id(),
            opt_view(self.version_id),
        )
    }

    fn serialize_content(&self, s: &mut Serializer) {
        let ghost orig = s@;
        s.text_element(t_code(), self.code.as_bytes());
        write_opt_text(s, t_message(), &self.message);
        write_opt_text(s, t_key(), &self.key);
        write_opt_text(s, t_version_id(), &self.version_id);
        proof {
            assert(s@ =~= orig + self.content_spec());
        }
    }
}

impl Serialize for ErrorEnvelope {
    open spec fn full_spec(&self) -> Seq<u8> {
        element(n_error(), self.content_spec())
    }

    fn serialize(&self, s: &mut Serializer) {
        let ghost orig = s@;
        s.begin(t_error());
        self.serialize_content(s);
        s.end(t_error());
        proof {
            assert(s@ =~= orig + self.full_spec());
        }
    }
}

impl ErrorEnvelope {
    /// Decode a whole `<Error>` document, resolving the code against the
    /// table: a known code byte-for-byte, anything else the extension.
    pub fn deserialize_with<'a>(table: &ErrorTable, d: &mut Deserializer<'a>) -> (r: DeResult<
        ErrorEnvelope,
    >)
        requires
            old(d).wf(),
        ensures
            final(d).wf(),
            final(d).remaining().len() <= old(d).remaining().len(),
    {
        let sc = match d.read_root_open(t_error()) {
            Result::Ok(b) => b,
            Result::Err(e) => return Err(e),
        };
        if sc {
            return Err(DeError::MissingField);
        }
        let mut code_v: Option<S3ErrorCode> = None;
        let mut message_v: Option<Vec<u8>> = None;
        let mut key_v: Option<Vec<u8>> = None;
        let mut version_id_v: Option<Vec<u8>> = None;
        loop
            invariant
                d.wf(),
                d.remaining().len() <= old(d).remaining().len(),
            decreases d.remaining().len(),
        {
            let c = match d.read_child_open() {
                Result::Ok(x) => x,
                Result::Err(e) => return Err(e),
            };
            let c = match c {
                Option::Some(x) => x,
                Option::None => break,
            };
            if eq_bytes(c.name.as_slice(), t_code()) {
                let t = read_text_member(d, &c)?;
                match table.resolve(t.as_slice()) {
                    Option::Some(x) => {
                        code_v = Option::Some(x);
                    },
                    Option::None => {
                        return Err(DeError::InvalidContent);
                    },
                }
            } else if eq_bytes(c.name.as_slice(), t_message()) {
                let t = read_text_member(d, &c)?;
                message_v = Option::Some(t);
            } else if eq_bytes(c.name.as_slice(), t_key()) {
                let t = read_text_member(d, &c)?;
                key_v = Option::Some(t);
            } else if eq_bytes(c.name.as_slice(), t_version_id()) {
                let t = read_text_member(d, &c)?;
                version_id_v = Option::Some(t);
            } else {
                skip_member(d, &c)?;
            }
        }
        let code = match code_v {
            Option::Some(x) => x,
            Option::None => return Err(DeError::MissingField),
        };
        match d.expect_close(t_error()) {
            Result::Ok(u) => Ok(
                ErrorEnvelope { code, message: message_v, key: key_v, version_id: version_id_v },
            ),
            Result::Err(e) => Err(e),
        }
    }
}

} // verus!
