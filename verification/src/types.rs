//! Operation values: typed request, response, and configuration-fragment
//! types, each with its schema-declared XML mapping (member order, member
//! cardinality, wrapped/flattened list tagging) as a compile-time-checked
//! implementation of the codec's mapping contract.
//!
//! Encoding is specified exactly: each type's `content_spec` (and, for
//! whole-body types, `full_spec`) gives the precise bytes written. A required
//! member always emits its element; an optional member that is absent emits
//! nothing. Decoding accepts members in any order and skips unknown elements.

use vstd::prelude::*;
use crate::text::{escape_seq, eq_bytes};
use crate::num::{int_text, bool_text, parse_i32, parse_i64, parse_bool,
    lemma_int_text_roundtrip, lemma_bool_text_roundtrip, lemma_int_text_unescaped,
    lemma_bool_text_unescaped};
use crate::ser::{Serializer, SerializeContent, Serialize, element, element_ns, flat_list_spec,
    serialize_flat_list, open_tag, close_tag, open_tag_ns};
use crate::de::{Deserializer, DeserializeContent, Deserialize, DeError, DeResult, ChildOpen,
    child_scan, close_scan, open_rest_scan, ws_count, name_len, until_count, is_name_byte,
    lemma_name_len_concat, lemma_until_count_concat};
use crate::text::{LT, GT, SLASH, SPACE, EQ_SIGN, QUOT, LOW_X, LOW_M, LOW_L, LOW_N, LOW_S,
    unescape_seq, lemma_unescape_escape, lemma_escape_no_lt, lemma_escape_no_quot, is_ws_spec};
use crate::names::{n_location_constraint, t_location_constraint};
use crate::enums::{BucketLocationConstraint, ExpressionType, CompressionType, FileHeaderInfo,
    QuoteFields, JSONType, Event, lemma_expressiontype_known, lemma_compressiontype_known,
    lemma_fileheaderinfo_known, lemma_quotefields_known, lemma_jsontype_known, lemma_event_known};
use crate::names::{n_allow_quoted_record_delimiter, t_allow_quoted_record_delimiter,
    n_checksum_crc32, t_checksum_crc32, n_checksum_crc32c, t_checksum_crc32c, n_checksum_sha1,
    t_checksum_sha1, n_checksum_sha256, t_checksum_sha256, n_cloud_function, t_cloud_function,
    n_cloud_function_configuration, t_cloud_function_configuration, n_comments, t_comments,
    n_complete_multipart_upload, t_complete_multipart_upload, n_compression_type,
    t_compression_type, n_csv, t_csv, n_date, t_date, n_days, t_days, n_enabled, t_enabled,
    n_end, t_end, n_etag, t_etag, n_event, t_event, n_event_bridge_configuration,
    t_event_bridge_configuration, n_expired_object_delete_marker,
    t_expired_object_delete_marker, n_expression, t_expression, n_expression_type,
    t_expression_type, n_field_delimiter, t_field_delimiter, n_file_header_info,
    t_file_header_info, n_id, t_id, n_input_serialization, t_input_serialization, n_json,
    t_json, n_key, t_key, n_notification_configuration, t_notification_configuration,
    n_output_serialization, t_output_serialization, n_parquet, t_parquet, n_part, t_part,
    n_part_number, t_part_number, n_queue, t_queue, n_queue_configuration,
    t_queue_configuration, n_quote_character, t_quote_character, n_quote_escape_character,
    t_quote_escape_character, n_quote_fields, t_quote_fields, n_record_delimiter,
    t_record_delimiter, n_request_progress, t_request_progress, n_s3_ns, t_s3_ns, n_scan_range,
    t_scan_range, n_select_object_content_request, t_select_object_content_request, n_start,
    t_start, n_tag, t_tag, n_tag_set, t_tag_set, n_tagging, t_tagging, n_topic, t_topic,
    n_topic_configuration, t_topic_configuration, n_type_tag, t_type_tag, n_value, t_value};

verus! {

/// The view of an optional byte-string member.
pub open spec fn opt_view(v: Option<Vec<u8>>) -> Option<Seq<u8>> {
    match v {
        Option::Some(x) => Option::Some(x@),
        Option::None => Option::None,
    }
}

pub open spec fn opt_i32_view(v: Option<i32>) -> Option<int> {
    match v {
        Option::Some(x) => Option::Some(x as int),
        Option::None => Option::None,
    }
}

pub open spec fn opt_i64_view(v: Option<i64>) -> Option<int> {
    match v {
        Option::Some(x) => Option::Some(x as int),
        Option::None => Option::None,
    }
}

/// `<name>escaped text</name>`
pub open spec fn text_el(name: Seq<u8>, text: Seq<u8>) -> Seq<u8> {
    element(name, escape_seq(text))
}

/// An optional text member: its element when present, nothing when absent.
pub open spec fn opt_text_el(name: Seq<u8>, v: Option<Seq<u8>>) -> Seq<u8> {
    match v {
        Option::Some(t) => text_el(name, t),
        Option::None => Seq::empty(),
    }
}

/// `<name>decimal</name>`
pub open spec fn int_el(name: Seq<u8>, v: int) -> Seq<u8> {
    element(name, int_text(v))
}

/// An optional integer member.
pub open spec fn opt_int_el(name: Seq<u8>, v: Option<int>) -> Seq<u8> {
    match v {
        Option::Some(x) => int_el(name, x),
        Option::None => Seq::empty(),
    }
}

/// `<name>true|false</name>`
pub open spec fn bool_el(name: Seq<u8>, v: bool) -> Seq<u8> {
    element(name, bool_text(v))
}

/// An optional boolean member.
pub open spec fn opt_bool_el(name: Seq<u8>, v: Option<bool>) -> Seq<u8> {
    match v {
        Option::Some(x) => bool_el(name, x),
        Option::None => Seq::empty(),
    }
}

/// An optional nested member: its full element when present.
pub open spec fn opt_el_of<T: SerializeContent>(name: Seq<u8>, v: Option<T>) -> Seq<u8> {
    match v {
        Option::Some(x) => element(name, x.content_spec()),
        Option::None => Seq::empty(),
    }
}

/// An optional flattened list member: the bare item elements when present.
pub open spec fn opt_flat_of<T: SerializeContent>(tag: Seq<u8>, v: Option<Vec<T>>) -> Seq<u8> {
    match v {
        Option::Some(x) => flat_list_spec(tag, x@),
        Option::None => Seq::empty(),
    }
}

/// Write an optional text member.
pub fn write_opt_text(s: &mut Serializer, name: &[u8], v: &Option<Vec<u8>>)
    ensures
        final(s)@ == old(s)@ + opt_text_el(name@, opt_view(*v)),
{
    let ghost orig = s@;
    if let Option::Some(x) = v {
        s.text_element(name, x.as_slice());
    }
    proof {
        assert(s@ =~= orig + opt_text_el(name@, opt_view(*v)));
    }
}

/// Write an optional 32-bit integer member.
pub fn write_opt_i32(s: &mut Serializer, name: &[u8], v: Option<i32>)
    ensures
        final(s)@ == old(s)@ + opt_int_el(name@, opt_i32_view(v)),
{
    let ghost orig = s@;
    if let Option::Some(x) = v {
        s.i32_element(name, x);
    }
    proof {
        assert(s@ =~= orig + opt_int_el(name@, opt_i32_view(v)));
    }
}

/// Write an optional 64-bit integer member.
pub fn write_opt_i64(s: &mut Serializer, name: &[u8], v: Option<i64>)
    ensures
        final(s)@ == old(s)@ + opt_int_el(name@, opt_i64_view(v)),
{
    let ghost orig = s@;
    if let Option::Some(x) = v {
        s.i64_element(name, x);
    }
    proof {
        assert(s@ =~= orig + opt_int_el(name@, opt_i64_view(v)));
    }
}

/// Write an optional boolean member.
pub fn write_opt_bool(s: &mut Serializer, name: &[u8], v: Option<bool>)
    ensures
        final(s)@ == old(s)@ + opt_bool_el(name@, v),
{
    let ghost orig = s@;
    if let Option::Some(x) = v {
        s.bool_element(name, x);
    }
    proof {
        assert(s@ =~= orig + opt_bool_el(name@, v));
    }
}

/// Write a required nested member as a full element.
pub fn write_el<T: SerializeContent>(s: &mut Serializer, name: &[u8], v: &T)
    ensures
        final(s)@ == old(s)@ + element(name@, v.content_spec()),
{
    let ghost orig = s@;
    s.begin(name);
    v.serialize_content(s);
    s.end(name);
    proof {
        assert(s@ =~= orig + element(name@, v.content_spec()));
    }
}

/// Write an optional nested member.
pub fn write_opt_el<T: SerializeContent>(s: &mut Serializer, name: &[u8], v: &Option<T>)
    ensures
        final(s)@ == old(s)@ + opt_el_of(name@, *v),
{
    let ghost orig = s@;
    if let Option::Some(x) = v {
        write_el(s, name, x);
    }
    proof {
        assert(s@ =~= orig + opt_el_of(name@, *v));
    }
}

/// Write an optional flattened list member.
pub fn write_opt_flat<T: SerializeContent>(s: &mut Serializer, tag: &[u8], v: &Option<Vec<T>>)
    ensures
        final(s)@ == old(s)@ + opt_flat_of(tag@, *v),
{
    let ghost orig = s@;
    if let Option::Some(x) = v {
        serialize_flat_list(s, tag, x);
    }
    proof {
        assert(s@ =~= orig + opt_flat_of(tag@, *v));
    }
}

/// Read one scalar member's text: the empty text for a self-closed element,
/// otherwise the text content followed by the member's closing tag, both
/// exactly as the scan functions describe them.
pub fn read_text_member<'a>(d: &mut Deserializer<'a>, open: &ChildOpen) -> (r: DeResult<Vec<u8>>)
    requires
        old(d).wf(),
    ensures
        final(d).wf(),
        final(d).remaining().len() <= old(d).remaining().len(),
        open.self_closed ==> (r matches Ok(t) && t@ == Seq::<u8>::empty() && final(d).remaining()
            == old(d).remaining()),
        !open.self_closed ==> {
            let m = until_count(old(d).remaining(), LT) as int;
            let after_text = old(d).remaining().skip(m);
            match unescape_seq(old(d).remaining().take(m)) {
                Option::Some(txt) => match close_scan(after_text, open.name@) {
                    Option::Some(c) => (r matches Ok(t) && t@ == txt && final(d).remaining()
                        == after_text.skip(c as int)),
                    Option::None => r is Err,
                },
                Option::None => r is Err,
            }
        },
{
    if open.self_closed {
        return Ok(Vec::new());
    }
    let t = match d.read_text() {
        Result::Ok(t) => t,
        Result::Err(e) => return Err(e),
    };
    match d.expect_close(open.name.as_slice()) {
        Result::Ok(u) => Ok(t),
        Result::Err(e) => Err(e),
    }
}

/// How the scan functions evaluate on one encoded text member followed by
/// arbitrary input: the member's open tag, its escaped text, its close tag.
#[verifier::rlimit(100)]
pub proof fn lemma_text_member_shape(name: Seq<u8>, text: Seq<u8>, more: Seq<u8>)
    requires
        name.len() >= 1,
        forall|i: int| 0 <= i < name.len() ==> is_name_byte(#[trigger] name[i]),
    ensures
        ({
            let s = text_el(name, text) + more;
            let s1 = s.skip(open_tag(name).len() as int);
            let s2 = s1.skip(escape_seq(text).len() as int);
            &&& child_scan(s) == Some((Some((name, false)), open_tag(name).len() as nat))
            &&& until_count(s1, LT) == escape_seq(text).len()
            &&& unescape_seq(s1.take(escape_seq(text).len() as int)) == Some(text)
            &&& close_scan(s2, name) == Some((name.len() + 3) as nat)
            &&& s2.skip(name.len() as int + 3) == more
        }),
{
    let inner = escape_seq(text);
    let o = open_tag(name);
    let c = close_tag(name);
    let nl = name.len() as int;
    let s = text_el(name, text) + more;
    assert(o.len() == nl + 2);
    assert(c.len() == nl + 3);
    assert(s =~= o + (inner + (c + more)));
    lemma_escape_no_lt(text);

    // the open tag
    assert(s[0] == LT);
    assert(!is_ws_spec(LT));
    assert(ws_count(s) == 0);
    assert(s.skip(0) =~= s);
    assert(s[1] == name[0]);
    assert(s.skip(1) =~= name + (seq![GT] + (inner + (c + more))));
    lemma_name_len_concat(name, seq![GT] + (inner + (c + more)));
    assert(name_len(s.skip(1)) == name.len());
    assert(s.skip(1).take(nl) =~= name);
    let g = s.skip(1 + nl);
    assert(g =~= seq![GT] + (inner + (c + more)));
    assert(g[0] == GT);
    assert(ws_count(g) == 0);
    assert(g.skip(0) =~= g);
    assert(open_rest_scan(g) == Some((1 as nat, false)));
    assert(child_scan(s) == Some((Some((name, false)), (nl + 2) as nat)));

    // the inner text
    let s1 = s.skip(nl + 2);
    assert(s1 =~= inner + (c + more));
    assert((c + more)[0] == LT);
    lemma_until_count_concat(inner, c + more, LT);
    assert(until_count(s1, LT) == inner.len());
    assert(s1.take(inner.len() as int) =~= inner);
    lemma_unescape_escape(text);

    // the close tag
    let s2 = s1.skip(inner.len() as int);
    assert(s2 =~= c + more);
    assert(s2.len() >= nl + 3);
    assert(s2[0] == LT);
    assert(ws_count(s2) == 0);
    assert(s2.skip(0) =~= s2);
    assert(s2[1] == SLASH);
    assert(s2.subrange(2, 2 + nl) =~= name);
    let u = s2.skip(2 + nl);
    assert(u =~= seq![GT] + more);
    assert(u[0] == GT);
    assert(ws_count(u) == 0);
    assert(close_scan(s2, name) == Some((nl + 3) as nat));
    assert(s2.skip(nl + 3) =~= more);
}

/// How the child scan evaluates at any encoded full element: its open tag is
/// read, whatever its content is.
#[verifier::rlimit(100)]
pub proof fn lemma_element_open_shape(name: Seq<u8>, content: Seq<u8>, more: Seq<u8>)
    requires
        name.len() >= 1,
        forall|i: int| 0 <= i < name.len() ==> is_name_byte(#[trigger] name[i]),
    ensures
        ({
            let s = element(name, content) + more;
            &&& child_scan(s) == Some((Some((name, false)), open_tag(name).len() as nat))
            &&& s.skip(open_tag(name).len() as int) == content + (close_tag(name) + more)
        }),
{
    let nl = name.len() as int;
    let s = element(name, content) + more;
    assert(s =~= open_tag(name) + (content + (close_tag(name) + more)));
    assert(s[0] == LT);
    assert(!is_ws_spec(LT));
    assert(ws_count(s) == 0);
    assert(s.skip(0) =~= s);
    assert(s[1] == name[0]);
    assert(s.skip(1) =~= name + (seq![GT] + (content + (close_tag(name) + more))));
    lemma_name_len_concat(name, seq![GT] + (content + (close_tag(name) + more)));
    assert(name_len(s.skip(1)) == name.len());
    assert(s.skip(1).take(nl) =~= name);
    let g = s.skip(1 + nl);
    assert(g =~= seq![GT] + (content + (close_tag(name) + more)));
    assert(g[0] == GT);
    assert(ws_count(g) == 0);
    assert(g.skip(0) =~= g);
    assert(open_rest_scan(g) == Some((1 as nat, false)));
    assert(child_scan(s) == Some((Some((name, false)), (nl + 2) as nat)));
    assert(s.skip(nl + 2) =~= content + (close_tag(name) + more));
}

/// How the close scan evaluates at an encoded closing tag.
pub proof fn lemma_close_shape(name: Seq<u8>, more: Seq<u8>)
    requires
        name.len() >= 1,
        forall|i: int| 0 <= i < name.len() ==> is_name_byte(#[trigger] name[i]),
    ensures
        ({
            let s = close_tag(name) + more;
            &&& close_scan(s, name) == Some(close_tag(name).len() as nat)
            &&& s.skip(close_tag(name).len() as int) == more
        }),
{
    let nl = name.len() as int;
    let s = close_tag(name) + more;
    assert(s =~= seq![LT, SLASH] + (name + (seq![GT] + more)));
    assert(s[0] == LT);
    assert(!is_ws_spec(LT));
    assert(ws_count(s) == 0);
    assert(s.skip(0) =~= s);
    assert(s[1] == SLASH);
    assert(s.len() >= nl + 3);
    assert(s.subrange(2, 2 + nl) =~= name);
    let u = s.skip(2 + nl);
    assert(u =~= seq![GT] + more);
    assert(u[0] == GT);
    assert(ws_count(u) == 0);
    assert(close_scan(s, name) == Some((nl + 3) as nat));
    assert(s.skip(nl + 3) =~= more);
}


/// Multi-member optional omission: an optional member that is absent
/// contributes no bytes to its type's content encoding — no element at all,
/// not an empty one.
pub proof fn lemma_absent_member_omitted<T: SerializeContent>(name: Seq<u8>, tag: Seq<u8>)
    ensures
        opt_text_el(name, Option::None) == Seq::<u8>::empty(),
        opt_int_el(name, Option::None) == Seq::<u8>::empty(),
        opt_bool_el(name, Option::None) == Seq::<u8>::empty(),
        opt_el_of::<T>(name, Option::None) == Seq::<u8>::empty(),
        opt_flat_of::<T>(tag, Option::None) == Seq::<u8>::empty(),
{
}

/// Skip an unknown member: nothing is left to consume for a self-closed
/// element; otherwise consume through its matching close tag.
pub fn skip_member<'a>(d: &mut Deserializer<'a>, open: &ChildOpen) -> (r: DeResult<()>)
    requires
        old(d).wf(),
    ensures
        final(d).wf(),
        final(d).remaining().len() <= old(d).remaining().len(),
{
    if open.self_closed {
        Ok(())
    } else {
        d.skip_element()
    }
}

/// Decode a value from empty element content, as a self-closed element
/// carries; an error if the type has a required member.
pub fn decode_empty_content<T: DeserializeContent>() -> (r: DeResult<T>) {
    let empty: [u8; 0] = [];
    let mut d = Deserializer::new(&empty);
    T::deserialize_content(&mut d)
}

/// An enumerated value serialized as bare element text.
impl SerializeContent for BucketLocationConstraint {
    open spec fn content_spec(&self) -> Seq<u8> {
        escape_seq(self.wire_spec())
    }

    fn serialize_content(&self, s: &mut Serializer) {
        s.text(self.as_bytes());
    }
}

/// An enumerated value serialized as bare element text.
impl SerializeContent for ExpressionType {
    open spec fn content_spec(&self) -> Seq<u8> {
        escape_seq(self.wire_spec())
    }

    fn serialize_content(&self, s: &mut Serializer) {
        s.text(self.as_bytes());
    }
}

/// An enumerated value serialized as bare element text.
impl SerializeContent for CompressionType {
    open spec fn content_spec(&self) -> Seq<u8> {
        escape_seq(self.wire_spec())
    }

    fn serialize_content(&self, s: &mut Serializer) {
        s.text(self.as_bytes());
    }
}

/// An enumerated value serialized as bare element text.
impl SerializeContent for FileHeaderInfo {
    open spec fn content_spec(&self) -> Seq<u8> {
        escape_seq(self.wire_spec())
    }

    fn serialize_content(&self, s: &mut Serializer) {
        s.text(self.as_bytes());
    }
}

/// An enumerated value serialized as bare element text.
impl SerializeContent for QuoteFields {
    open spec fn content_spec(&self) -> Seq<u8> {
        escape_seq(self.wire_spec())
    }

    fn serialize_content(&self, s: &mut Serializer) {
        s.text(self.as_bytes());
    }
}

/// An enumerated value serialized as bare element text.
impl SerializeContent for JSONType {
    open spec fn content_spec(&self) -> Seq<u8> {
        escape_seq(self.wire_spec())
    }

    fn serialize_content(&self, s: &mut Serializer) {
        s.text(self.as_bytes());
    }
}

/// An enumerated value serialized as bare element text.
impl SerializeContent for Event {
    open spec fn content_spec(&self) -> Seq<u8> {
        escape_seq(self.wire_spec())
    }

    fn serialize_content(&self, s: &mut Serializer) {
        s.text(self.as_bytes());
    }
}

/// One completed part of a multipart upload.
#[derive(Debug, Clone, PartialEq, Eq)]
pub struct CompletedPart {
    pub checksum_crc32: Option<Vec<u8>>,
    pub checksum_crc32c: Option<Vec<u8>>,
    pub checksum_sha1: Option<Vec<u8>>,
    pub checksum_sha256: Option<Vec<u8>>,
    pub e_tag: Option<Vec<u8>>,
    pub part_number: Option<i32>,
}

impl SerializeContent for CompletedPart {
    open spec fn content_spec(&self) -> Seq<u8> {
        opt_text_el(n_checksum_crc32(), opt_view(self.checksum_crc32))
            + opt_text_el(n_checksum_crc32c(), opt_view(self.checksum_crc32c))
            + opt_text_el(n_checksum_sha1(), opt_view(self.checksum_sha1))
            + opt_text_el(n_checksum_sha256(), opt_view(self.checksum_sha256))
            + opt_text_el(n_etag(), opt_view(self.e_tag))
            + opt_int_el(n_part_number(), opt_i32_view(self.part_number))
    }

    #[verifier::rlimit(60)]
    fn serialize_content(&self, s: &mut Serializer) {
        let ghost orig = s@;
        write_opt_text(s, t_checksum_crc32(), &self.checksum_crc32);
        write_opt_text(s, t_checksum_crc32c(), &self.checksum_crc32c);
        write_opt_text(s, t_checksum_sha1(), &self.checksum_sha1);
        write_opt_text(s, t_checksum_sha256(), &self.checksum_sha256);
        write_opt_text(s, t_etag(), &self.e_tag);
        write_opt_i32(s, t_part_number(), self.part_number);
        proof {
            assert(s@ =~= orig + self.content_spec());
        }
    }
}

impl CompletedPart {
    /// Structurally valid: extension values hold only unrecognized text, and
    /// a present flattened list is non-empty (an empty one is
    /// indistinguishable on the wire from an absent member).
    pub open spec fn valid(&self) -> bool {
        true
    }

    /// Member-wise agreement: scalar members equal as values, text members
    /// equal as byte strings, enumerated members equal as wire strings on the
    /// same side of the known/extension split, nested members agreeing
    /// member-wise.
    pub open spec fn same_model(&self, other: &CompletedPart) -> bool {
        &&& opt_view(self.checksum_crc32) == opt_view(other.checksum_crc32)
        &&& opt_view(self.checksum_crc32c) == opt_view(other.checksum_crc32c)
        &&& opt_view(self.checksum_sha1) == opt_view(other.checksum_sha1)
        &&& opt_view(self.checksum_sha256) == opt_view(other.checksum_sha256)
        &&& opt_view(self.e_tag) == opt_view(other.e_tag)
        &&& self.part_number == other.part_number
    }
}

/// The content encoding of the members from index `i` on.
pub open spec fn suffix_completed_part(v: CompletedPart, i: int) -> Seq<u8> {
    if i <= 0 {
        opt_text_el(n_checksum_crc32(), opt_view(v.checksum_crc32)) + (opt_text_el(n_checksum_crc32c(), opt_view(v.checksum_crc32c)) + (opt_text_el(n_checksum_sha1(), opt_view(v.checksum_sha1)) + (opt_text_el(n_checksum_sha256(), opt_view(v.checksum_sha256)) + (opt_text_el(n_etag(), opt_view(v.e_tag)) + (opt_int_el(n_part_number(), opt_i32_view(v.part_number)) + (Seq::empty()))))))
    } else if i <= 1 {
        opt_text_el(n_checksum_crc32c(), opt_view(v.checksum_crc32c)) + (opt_text_el(n_checksum_sha1(), opt_view(v.checksum_sha1)) + (opt_text_el(n_checksum_sha256(), opt_view(v.checksum_sha256)) + (opt_text_el(n_etag(), opt_view(v.e_tag)) + (opt_int_el(n_part_number(), opt_i32_view(v.part_number)) + (Seq::empty())))))
    } else if i <= 2 {
        opt_text_el(n_checksum_sha1(), opt_view(v.checksum_sha1)) + (opt_text_el(n_checksum_sha256(), opt_view(v.checksum_sha256)) + (opt_text_el(n_etag(), opt_view(v.e_tag)) + (opt_int_el(n_part_number(), opt_i32_view(v.part_number)) + (Seq::empty()))))
    } else if i <= 3 {
        opt_text_el(n_checksum_sha256(), opt_view(v.checksum_sha256)) + (opt_text_el(n_etag(), opt_view(v.e_tag)) + (opt_int_el(n_part_number(), opt_i32_view(v.part_number)) + (Seq::empty())))
    } else if i <= 4 {
        opt_text_el(n_etag(), opt_view(v.e_tag)) + (opt_int_el(n_part_number(), opt_i32_view(v.part_number)) + (Seq::empty()))
    } else if i <= 5 {
        opt_int_el(n_part_number(), opt_i32_view(v.part_number)) + (Seq::empty())
    } else {
        Seq::empty()
    }
}

/// The first member at or after `i` that the next child element can belong
/// to.
pub open spec fn next_member_completed_part(v: CompletedPart, i: int) -> int {
    if i <= 0 && (v.checksum_crc32 is Some) {
        0
    } else if i <= 1 && (v.checksum_crc32c is Some) {
        1
    } else if i <= 2 && (v.checksum_sha1 is Some) {
        2
    } else if i <= 3 && (v.checksum_sha256 is Some) {
        3
    } else if i <= 4 && (v.e_tag is Some) {
        4
    } else if i <= 5 && (v.part_number is Some) {
        5
    } else {
        6
    }
}

/// What the decoder's state says after the members before `i` have been
/// dealt with.
pub open spec fn settled_completed_part(v: CompletedPart, i: int, checksum_crc32_s: Option<Vec<u8>>, checksum_crc32c_s: Option<Vec<u8>>, checksum_sha1_s: Option<Vec<u8>>, checksum_sha256_s: Option<Vec<u8>>, e_tag_s: Option<Vec<u8>>, part_number_s: Option<i32>) -> bool {
    &&& (0 < i ==> opt_view(checksum_crc32_s) == opt_view(v.checksum_crc32))
    &&& (0 >= i ==> checksum_crc32_s is None)
    &&& (1 < i ==> opt_view(checksum_crc32c_s) == opt_view(v.checksum_crc32c))
    &&& (1 >= i ==> checksum_crc32c_s is None)
    &&& (2 < i ==> opt_view(checksum_sha1_s) == opt_view(v.checksum_sha1))
    &&& (2 >= i ==> checksum_sha1_s is None)
    &&& (3 < i ==> opt_view(checksum_sha256_s) == opt_view(v.checksum_sha256))
    &&& (3 >= i ==> checksum_sha256_s is None)
    &&& (4 < i ==> opt_view(e_tag_s) == opt_view(v.e_tag))
    &&& (4 >= i ==> e_tag_s is None)
    &&& (5 < i ==> part_number_s == v.part_number)
    &&& (5 >= i ==> part_number_s is None)
}

proof fn lemma_completed_part_names()
    ensures
        n_checksum_crc32().len() >= 1,
        forall|ii: int| 0 <= ii < n_checksum_crc32().len() ==> is_name_byte(#[trigger] n_checksum_crc32()[ii]),
        n_checksum_crc32c().len() >= 1,
        forall|ii: int| 0 <= ii < n_checksum_crc32c().len() ==> is_name_byte(#[trigger] n_checksum_crc32c()[ii]),
        n_checksum_sha1().len() >= 1,
        forall|ii: int| 0 <= ii < n_checksum_sha1().len() ==> is_name_byte(#[trigger] n_checksum_sha1()[ii]),
        n_checksum_sha256().len() >= 1,
        forall|ii: int| 0 <= ii < n_checksum_sha256().len() ==> is_name_byte(#[trigger] n_checksum_sha256()[ii]),
        n_etag().len() >= 1,
        forall|ii: int| 0 <= ii < n_etag().len() ==> is_name_byte(#[trigger] n_etag()[ii]),
        n_part_number().len() >= 1,
        forall|ii: int| 0 <= ii < n_part_number().len() ==> is_name_byte(#[trigger] n_part_number()[ii]),
        n_checksum_crc32() != n_checksum_crc32c(),
        n_checksum_crc32() != n_checksum_sha1(),
        n_checksum_crc32() != n_checksum_sha256(),
        n_checksum_crc32() != n_etag(),
        n_checksum_crc32() != n_part_number(),
        n_checksum_crc32c() != n_checksum_sha1(),
        n_checksum_crc32c() != n_checksum_sha256(),
        n_checksum_crc32c() != n_etag(),
        n_checksum_crc32c() != n_part_number(),
        n_checksum_sha1() != n_checksum_sha256(),
        n_checksum_sha1() != n_etag(),
        n_checksum_sha1() != n_part_number(),
        n_checksum_sha256() != n_etag(),
        n_checksum_sha256() != n_part_number(),
        n_etag() != n_part_number(),
{
    assert(n_checksum_crc32().len() != n_checksum_crc32c().len());
    assert(n_checksum_crc32().len() != n_checksum_sha1().len());
    assert(n_checksum_crc32().len() != n_checksum_sha256().len());
    assert(n_checksum_crc32().len() != n_etag().len());
    assert(n_checksum_crc32().len() != n_part_number().len());
    assert(n_checksum_crc32c().len() != n_checksum_sha1().len());
    assert(n_checksum_crc32c()[8] == 0x43 && n_checksum_sha256()[8] == 0x53);
    assert(n_checksum_crc32c().len() != n_etag().len());
    assert(n_checksum_crc32c().len() != n_part_number().len());
    assert(n_checksum_sha1().len() != n_checksum_sha256().len());
    assert(n_checksum_sha1().len() != n_etag().len());
    assert(n_checksum_sha1().len() != n_part_number().len());
    assert(n_checksum_sha256().len() != n_etag().len());
    assert(n_checksum_sha256().len() != n_part_number().len());
    assert(n_etag().len() != n_part_number().len());
}

proof fn lemma_completed_part_walk(v: CompletedPart, i: int)
    requires
        0 <= i <= 6,
    ensures
        ({
            let p = next_member_completed_part(v, i);
            &&& i <= p <= 6
            &&& suffix_completed_part(v, i) == suffix_completed_part(v, p)
            &&& (i <= 0 && 0 < p ==> v.checksum_crc32 is None)
            &&& (i <= 1 && 1 < p ==> v.checksum_crc32c is None)
            &&& (i <= 2 && 2 < p ==> v.checksum_sha1 is None)
            &&& (i <= 3 && 3 < p ==> v.checksum_sha256 is None)
            &&& (i <= 4 && 4 < p ==> v.e_tag is None)
            &&& (i <= 5 && 5 < p ==> v.part_number is None)
            &&& (p == 0 ==> (v.checksum_crc32 is Some))
            &&& (p == 1 ==> (v.checksum_crc32c is Some))
            &&& (p == 2 ==> (v.checksum_sha1 is Some))
            &&& (p == 3 ==> (v.checksum_sha256 is Some))
            &&& (p == 4 ==> (v.e_tag is Some))
            &&& (p == 5 ==> (v.part_number is Some))
        }),
    decreases 6 - i,
{
    if i < 6 {
        if i == 0 {
            if !(v.checksum_crc32 is Some) {
                assert(suffix_completed_part(v, 0) =~= suffix_completed_part(v, 1));
                lemma_completed_part_walk(v, 1);
            }
        } else if i == 1 {
            if !(v.checksum_crc32c is Some) {
                assert(suffix_completed_part(v, 1) =~= suffix_completed_part(v, 2));
                lemma_completed_part_walk(v, 2);
            }
        } else if i == 2 {
            if !(v.checksum_sha1 is Some) {
                assert(suffix_completed_part(v, 2) =~= suffix_completed_part(v, 3));
                lemma_completed_part_walk(v, 3);
            }
        } else if i == 3 {
            if !(v.checksum_sha256 is Some) {
                assert(suffix_completed_part(v, 3) =~= suffix_completed_part(v, 4));
                lemma_completed_part_walk(v, 4);
            }
        } else if i == 4 {
            if !(v.e_tag is Some) {
                assert(suffix_completed_part(v, 4) =~= suffix_completed_part(v, 5));
                lemma_completed_part_walk(v, 5);
            }
        } else if i == 5 {
            if !(v.part_number is Some) {
                assert(suffix_completed_part(v, 5) =~= suffix_completed_part(v, 6));
                lemma_completed_part_walk(v, 6);
            }
        }
    }
}

#[verifier::rlimit(100)]
proof fn lemma_completed_part_member_0(v: CompletedPart, rest: Seq<u8>, cur: Seq<u8>)
    requires
        content_end(rest),
        v.checksum_crc32 is Some,
        cur == suffix_completed_part(v, 0) + rest,
    ensures
        ({
                let s1 = cur.skip(open_tag(n_checksum_crc32()).len() as int);
                let m = escape_seq(v.checksum_crc32->Some_0@).len() as int;
                &&& v.checksum_crc32 is Some
                &&& child_scan(cur) == Some((Some((n_checksum_crc32(), false)), open_tag(n_checksum_crc32()).len() as nat))
                &&& until_count(s1, LT) == m
                &&& unescape_seq(s1.take(m)) == Some(v.checksum_crc32->Some_0@)
                &&& close_scan(s1.skip(m), n_checksum_crc32()) == Some((n_checksum_crc32().len() + 3) as nat)
                &&& s1.skip(m).skip(n_checksum_crc32().len() as int + 3) == suffix_completed_part(v, 1) + rest
            }),
{
    lemma_completed_part_names();
    assert(suffix_completed_part(v, 0) =~= text_el(n_checksum_crc32(), v.checksum_crc32->Some_0@) + suffix_completed_part(v, 1));
    assert(cur =~= text_el(n_checksum_crc32(), v.checksum_crc32->Some_0@) + (suffix_completed_part(v, 1) + rest));
    lemma_text_member_shape(n_checksum_crc32(), v.checksum_crc32->Some_0@, suffix_completed_part(v, 1) + rest);
}

#[verifier::rlimit(100)]
proof fn lemma_completed_part_member_1(v: CompletedPart, rest: Seq<u8>, cur: Seq<u8>)
    requires
        content_end(rest),
        v.checksum_crc32c is Some,
        cur == suffix_completed_part(v, 1) + rest,
    ensures
        ({
                let s1 = cur.skip(open_tag(n_checksum_crc32c()).len() as int);
                let m = escape_seq(v.checksum_crc32c->Some_0@).len() as int;
                &&& v.checksum_crc32c is Some
                &&& child_scan(cur) == Some((Some((n_checksum_crc32c(), false)), open_tag(n_checksum_crc32c()).len() as nat))
                &&& until_count(s1, LT) == m
                &&& unescape_seq(s1.take(m)) == Some(v.checksum_crc32c->Some_0@)
                &&& close_scan(s1.skip(m), n_checksum_crc32c()) == Some((n_checksum_crc32c().len() + 3) as nat)
                &&& s1.skip(m).skip(n_checksum_crc32c().len() as int + 3) == suffix_completed_part(v, 2) + rest
            }),
{
    lemma_completed_part_names();
    assert(suffix_completed_part(v, 1) =~= text_el(n_checksum_crc32c(), v.checksum_crc32c->Some_0@) + suffix_completed_part(v, 2));
    assert(cur =~= text_el(n_checksum_crc32c(), v.checksum_crc32c->Some_0@) + (suffix_completed_part(v, 2) + rest));
    lemma_text_member_shape(n_checksum_crc32c(), v.checksum_crc32c->Some_0@, suffix_completed_part(v, 2) + rest);
}

#[verifier::rlimit(100)]
proof fn lemma_completed_part_member_2(v: CompletedPart, rest: Seq<u8>, cur: Seq<u8>)
    requires
        content_end(rest),
        v.checksum_sha1 is Some,
        cur == suffix_completed_part(v, 2) + rest,
    ensures
        ({
                let s1 = cur.skip(open_tag(n_checksum_sha1()).len() as int);
                let m = escape_seq(v.checksum_sha1->Some_0@).len() as int;
                &&& v.checksum_sha1 is Some
                &&& child_scan(cur) == Some((Some((n_checksum_sha1(), false)), open_tag(n_checksum_sha1()).len() as nat))
                &&& until_count(s1, LT) == m
                &&& unescape_seq(s1.take(m)) == Some(v.checksum_sha1->Some_0@)
                &&& close_scan(s1.skip(m), n_checksum_sha1()) == Some((n_checksum_sha1().len() + 3) as nat)
                &&& s1.skip(m).skip(n_checksum_sha1().len() as int + 3) == suffix_completed_part(v, 3) + rest
            }),
{
    lemma_completed_part_names();
    assert(suffix_completed_part(v, 2) =~= text_el(n_checksum_sha1(), v.checksum_sha1->Some_0@) + suffix_completed_part(v, 3));
    assert(cur =~= text_el(n_checksum_sha1(), v.checksum_sha1->Some_0@) + (suffix_completed_part(v, 3) + rest));
    lemma_text_member_shape(n_checksum_sha1(), v.checksum_sha1->Some_0@, suffix_completed_part(v, 3) + rest);
}

#[verifier::rlimit(100)]
proof fn lemma_completed_part_member_3(v: CompletedPart, rest: Seq<u8>, cur: Seq<u8>)
    requires
        content_end(rest),
        v.checksum_sha256 is Some,
        cur == suffix_completed_part(v, 3) + rest,
    ensures
        ({
                let s1 = cur.skip(open_tag(n_checksum_sha256()).len() as int);
                let m = escape_seq(v.checksum_sha256->Some_0@).len() as int;
                &&& v.checksum_sha256 is Some
                &&& child_scan(cur) == Some((Some((n_checksum_sha256(), false)), open_tag(n_checksum_sha256()).len() as nat))
                &&& until_count(s1, LT) == m
                &&& unescape_seq(s1.take(m)) == Some(v.checksum_sha256->Some_0@)
                &&& close_scan(s1.skip(m), n_checksum_sha256()) == Some((n_checksum_sha256().len() + 3) as nat)
                &&& s1.skip(m).skip(n_checksum_sha256().len() as int + 3) == suffix_completed_part(v, 4) + rest
            }),
{
    lemma_completed_part_names();
    assert(suffix_completed_part(v, 3) =~= text_el(n_checksum_sha256(), v.checksum_sha256->Some_0@) + suffix_completed_part(v, 4));
    assert(cur =~= text_el(n_checksum_sha256(), v.checksum_sha256->Some_0@) + (suffix_completed_part(v, 4) + rest));
    lemma_text_member_shape(n_checksum_sha256(), v.checksum_sha256->Some_0@, suffix_completed_part(v, 4) + rest);
}

#[verifier::rlimit(100)]
proof fn lemma_completed_part_member_4(v: CompletedPart, rest: Seq<u8>, cur: Seq<u8>)
    requires
        content_end(rest),
        v.e_tag is Some,
        cur == suffix_completed_part(v, 4) + rest,
    ensures
        ({
                let s1 = cur.skip(open_tag(n_etag()).len() as int);
                let m = escape_seq(v.e_tag->Some_0@).len() as int;
                &&& v.e_tag is Some
                &&& child_scan(cur) == Some((Some((n_etag(), false)), open_tag(n_etag()).len() as nat))
                &&& until_count(s1, LT) == m
                &&& unescape_seq(s1.take(m)) == Some(v.e_tag->Some_0@)
                &&& close_scan(s1.skip(m), n_etag()) == Some((n_etag().len() + 3) as nat)
                &&& s1.skip(m).skip(n_etag().len() as int + 3) == suffix_completed_part(v, 5) + rest
            }),
{
    lemma_completed_part_names();
    assert(suffix_completed_part(v, 4) =~= text_el(n_etag(), v.e_tag->Some_0@) + suffix_completed_part(v, 5));
    assert(cur =~= text_el(n_etag(), v.e_tag->Some_0@) + (suffix_completed_part(v, 5) + rest));
    lemma_text_member_shape(n_etag(), v.e_tag->Some_0@, suffix_completed_part(v, 5) + rest);
}

#[verifier::rlimit(100)]
proof fn lemma_completed_part_member_5(v: CompletedPart, rest: Seq<u8>, cur: Seq<u8>)
    requires
        content_end(rest),
        v.part_number is Some,
        cur == suffix_completed_part(v, 5) + rest,
    ensures
        ({
                let s1 = cur.skip(open_tag(n_part_number()).len() as int);
                let m = escape_seq(int_text(v.part_number->Some_0 as int)).len() as int;
                &&& v.part_number is Some
                &&& child_scan(cur) == Some((Some((n_part_number(), false)), open_tag(n_part_number()).len() as nat))
                &&& until_count(s1, LT) == m
                &&& unescape_seq(s1.take(m)) == Some(int_text(v.part_number->Some_0 as int))
                &&& close_scan(s1.skip(m), n_part_number()) == Some((n_part_number().len() + 3) as nat)
                &&& s1.skip(m).skip(n_part_number().len() as int + 3) == suffix_completed_part(v, 6) + rest
            }),
{
    lemma_completed_part_names();
    lemma_int_text_unescaped(v.part_number->Some_0 as int);
    assert(suffix_completed_part(v, 5) =~= text_el(n_part_number(), int_text(v.part_number->Some_0 as int)) + suffix_completed_part(v, 6));
    assert(cur =~= text_el(n_part_number(), int_text(v.part_number->Some_0 as int)) + (suffix_completed_part(v, 6) + rest));
    lemma_text_member_shape(n_part_number(), int_text(v.part_number->Some_0 as int), suffix_completed_part(v, 6) + rest);
}


impl CompletedPart {
    /// Decode this type's element content: members in any order, unknown
    /// members skipped, required members demanded.
    ///
    /// Round-trip: the exact content encoding of any structurally valid
    /// value, followed by the end of the enclosing content, decodes back to
    /// a value with the same members, consuming exactly the encoding.
    #[verifier::rlimit(100)]
    pub fn read_content<'a>(d: &mut Deserializer<'a>) -> (r: DeResult<CompletedPart>)
        requires
            old(d).wf(),
        ensures
            final(d).wf(),
            final(d).remaining().len() <= old(d).remaining().len(),
            forall|v: CompletedPart, rest: Seq<u8>|
                (v.valid() && old(d).remaining() == #[trigger] (v.content_spec() + rest)
                    && content_end(rest)) ==> (r matches Ok(res) && v.same_model(&res)
                    && final(d).remaining() == rest),
    {
        let ghost orig = d.remaining();
        let mut checksum_crc32_v: Option<Vec<u8>> = Option::None;
        let mut checksum_crc32c_v: Option<Vec<u8>> = Option::None;
        let mut checksum_sha1_v: Option<Vec<u8>> = Option::None;
        let mut checksum_sha256_v: Option<Vec<u8>> = Option::None;
        let mut e_tag_v: Option<Vec<u8>> = Option::None;
        let mut part_number_v: Option<i32> = Option::None;
        proof {
            assert forall|v: CompletedPart, rest: Seq<u8>|
                (v.valid() && orig == #[trigger] (v.content_spec() + rest) && content_end(rest)) implies exists|i: int|
                0 <= i <= 6 && orig == (#[trigger] suffix_completed_part(v, i)) + rest
                    && settled_completed_part(v, i, checksum_crc32_v, checksum_crc32c_v, checksum_sha1_v, checksum_sha256_v, e_tag_v, part_number_v) by {
                    assert(v.content_spec() =~= suffix_completed_part(v, 0));
                    assert(0 <= 0 <= 6 && orig == suffix_completed_part(v, 0) + rest && settled_completed_part(v, 0, checksum_crc32_v, checksum_crc32c_v, checksum_sha1_v, checksum_sha256_v, e_tag_v, part_number_v));
            }
        }
        loop
            invariant
                d.wf(),
                d.remaining().len() <= old(d).remaining().len(),
                orig == old(d).remaining(),
                forall|v: CompletedPart, rest: Seq<u8>|
                    (v.valid() && orig == #[trigger] (v.content_spec() + rest) && content_end(
                        rest,
                    )) ==> exists|i: int|
                        0 <= i <= 6 && d.remaining() == (#[trigger] suffix_completed_part(v, i))
                            + rest && settled_completed_part(v, i, checksum_crc32_v, checksum_crc32c_v, checksum_sha1_v, checksum_sha256_v, e_tag_v, part_number_v),
            decreases d.remaining().len(),
        {
            let ghost cur = d.remaining();
            let ghost g_checksum_crc32 = checksum_crc32_v;
            let ghost g_checksum_crc32c = checksum_crc32c_v;
            let ghost g_checksum_sha1 = checksum_sha1_v;
            let ghost g_checksum_sha256 = checksum_sha256_v;
            let ghost g_e_tag = e_tag_v;
            let ghost g_part_number = part_number_v;
            let c_opt = match d.read_child_open() {
                Result::Ok(x) => x,
                Result::Err(e) => {
                    proof {
                        assert forall|v: CompletedPart, rest: Seq<u8>|
                    (v.valid() && orig == #[trigger] (v.content_spec() + rest) && content_end(rest)) implies false by {
                        let i0 = choose|i: int| 0 <= i <= 6 && cur == (#[trigger] suffix_completed_part(v, i)) + rest && settled_completed_part(v, i, g_checksum_crc32, g_checksum_crc32c, g_checksum_sha1, g_checksum_sha256, g_e_tag, g_part_number);
                        lemma_completed_part_names();
                        lemma_completed_part_walk(v, i0);
                        let p0 = next_member_completed_part(v, i0);
                        assert(cur == suffix_completed_part(v, p0) + rest);
                        if p0 == 6 {
                            assert(suffix_completed_part(v, 6) + rest =~= rest);
                            lemma_content_end_scan(rest);
                        } else if p0 == 0 {
                            lemma_completed_part_member_0(v, rest, cur);
                        } else if p0 == 1 {
                            lemma_completed_part_member_1(v, rest, cur);
                        } else if p0 == 2 {
                            lemma_completed_part_member_2(v, rest, cur);
                        } else if p0 == 3 {
                            lemma_completed_part_member_3(v, rest, cur);
                        } else if p0 == 4 {
                            lemma_completed_part_member_4(v, rest, cur);
                        } else if p0 == 5 {
                            lemma_completed_part_member_5(v, rest, cur);
                        }
                }
                    }
                    return Err(e);
                },
            };
            match c_opt {
                Option::Some(c) => {
                    if eq_bytes(c.name.as_slice(), t_checksum_crc32()) {
                        let t = match read_text_member(d, &c) {
                            Result::Ok(t) => t,
                            Result::Err(e) => {
                                proof {
                                    assert forall|v: CompletedPart, rest: Seq<u8>|
                    (v.valid() && orig == #[trigger] (v.content_spec() + rest) && content_end(rest)) implies false by {
                        let i0 = choose|i: int| 0 <= i <= 6 && cur == (#[trigger] suffix_completed_part(v, i)) + rest && settled_completed_part(v, i, g_checksum_crc32, g_checksum_crc32c, g_checksum_sha1, g_checksum_sha256, g_e_tag, g_part_number);
                        lemma_completed_part_names();
                        lemma_completed_part_walk(v, i0);
                        let p0 = next_member_completed_part(v, i0);
                        assert(cur == suffix_completed_part(v, p0) + rest);
                        if p0 == 6 {
                            assert(suffix_completed_part(v, 6) + rest =~= rest);
                            lemma_content_end_scan(rest);
                        } else if p0 == 0 {
                            lemma_completed_part_member_0(v, rest, cur);
                        } else if p0 == 1 {
                            lemma_completed_part_member_1(v, rest, cur);
                        } else if p0 == 2 {
                            lemma_completed_part_member_2(v, rest, cur);
                        } else if p0 == 3 {
                            lemma_completed_part_member_3(v, rest, cur);
                        } else if p0 == 4 {
                            lemma_completed_part_member_4(v, rest, cur);
                        } else if p0 == 5 {
                            lemma_completed_part_member_5(v, rest, cur);
                        }
                }
                                }
                                return Err(e);
                            },
                        };
                        checksum_crc32_v = Option::Some(t);
                        proof {
                            assert forall|v: CompletedPart, rest: Seq<u8>|
                    (v.valid() && orig == #[trigger] (v.content_spec() + rest) && content_end(rest)) implies exists|i: int|
                    0 <= i <= 6 && d.remaining() == (#[trigger] suffix_completed_part(v, i)) + rest
                        && settled_completed_part(v, i, checksum_crc32_v, checksum_crc32c_v, checksum_sha1_v, checksum_sha256_v, e_tag_v, part_number_v) by {
                        let i0 = choose|i: int| 0 <= i <= 6 && cur == (#[trigger] suffix_completed_part(v, i)) + rest && settled_completed_part(v, i, g_checksum_crc32, g_checksum_crc32c, g_checksum_sha1, g_checksum_sha256, g_e_tag, g_part_number);
                        lemma_completed_part_names();
                        lemma_completed_part_walk(v, i0);
                        let p0 = next_member_completed_part(v, i0);
                        assert(cur == suffix_completed_part(v, p0) + rest);
                        if p0 == 6 {
                            assert(suffix_completed_part(v, 6) + rest =~= rest);
                            lemma_content_end_scan(rest);
                        } else if p0 == 0 {
                            lemma_completed_part_member_0(v, rest, cur);
                        } else if p0 == 1 {
                            lemma_completed_part_member_1(v, rest, cur);
                        } else if p0 == 2 {
                            lemma_completed_part_member_2(v, rest, cur);
                        } else if p0 == 3 {
                            lemma_completed_part_member_3(v, rest, cur);
                        } else if p0 == 4 {
                            lemma_completed_part_member_4(v, rest, cur);
                        } else if p0 == 5 {
                            lemma_completed_part_member_5(v, rest, cur);
                        }
                        assert(p0 == 0);
                        assert(0 <= 1 <= 6 && d.remaining() == suffix_completed_part(v, 1) + rest && settled_completed_part(v, 1, checksum_crc32_v, checksum_crc32c_v, checksum_sha1_v, checksum_sha256_v, e_tag_v, part_number_v));
                }
                        }
                    } else if eq_bytes(c.name.as_slice(), t_checksum_crc32c()) {
                        let t = match read_text_member(d, &c) {
                            Result::Ok(t) => t,
                            Result::Err(e) => {
                                proof {
                                    assert forall|v: CompletedPart, rest: Seq<u8>|
                    (v.valid() && orig == #[trigger] (v.content_spec() + rest) && content_end(rest)) implies false by {
                        let i0 = choose|i: int| 0 <= i <= 6 && cur == (#[trigger] suffix_completed_part(v, i)) + rest && settled_completed_part(v, i, g_checksum_crc32, g_checksum_crc32c, g_checksum_sha1, g_checksum_sha256, g_e_tag, g_part_number);
                        lemma_completed_part_names();
                        lemma_completed_part_walk(v, i0);
                        let p0 = next_member_completed_part(v, i0);
                        assert(cur == suffix_completed_part(v, p0) + rest);
                        if p0 == 6 {
                            assert(suffix_completed_part(v, 6) + rest =~= rest);
                            lemma_content_end_scan(rest);
                        } else if p0 == 0 {
                            lemma_completed_part_member_0(v, rest, cur);
                        } else if p0 == 1 {
                            lemma_completed_part_member_1(v, rest, cur);
                        } else if p0 == 2 {
                            lemma_completed_part_member_2(v, rest, cur);
                        } else if p0 == 3 {
                            lemma_completed_part_member_3(v, rest, cur);
                        } else if p0 == 4 {
                            lemma_completed_part_member_4(v, rest, cur);
                        } else if p0 == 5 {
                            lemma_completed_part_member_5(v, rest, cur);
                        }
                }
                                }
                                return Err(e);
                            },
                        };
                        checksum_crc32c_v = Option::Some(t);
                        proof {
                            assert forall|v: CompletedPart, rest: Seq<u8>|
                    (v.valid() && orig == #[trigger] (v.content_spec() + rest) && content_end(rest)) implies exists|i: int|
                    0 <= i <= 6 && d.remaining() == (#[trigger] suffix_completed_part(v, i)) + rest
                        && settled_completed_part(v, i, checksum_crc32_v, checksum_crc32c_v, checksum_sha1_v, checksum_sha256_v, e_tag_v, part_number_v) by {
                        let i0 = choose|i: int| 0 <= i <= 6 && cur == (#[trigger] suffix_completed_part(v, i)) + rest && settled_completed_part(v, i, g_checksum_crc32, g_checksum_crc32c, g_checksum_sha1, g_checksum_sha256, g_e_tag, g_part_number);
                        lemma_completed_part_names();
                        lemma_completed_part_walk(v, i0);
                        let p0 = next_member_completed_part(v, i0);
                        assert(cur == suffix_completed_part(v, p0) + rest);
                        if p0 == 6 {
                            assert(suffix_completed_part(v, 6) + rest =~= rest);
                            lemma_content_end_scan(rest);
                        } else if p0 == 0 {
                            lemma_completed_part_member_0(v, rest, cur);
                        } else if p0 == 1 {
                            lemma_completed_part_member_1(v, rest, cur);
                        } else if p0 == 2 {
                            lemma_completed_part_member_2(v, rest, cur);
                        } else if p0 == 3 {
                            lemma_completed_part_member_3(v, rest, cur);
                        } else if p0 == 4 {
                            lemma_completed_part_member_4(v, rest, cur);
                        } else if p0 == 5 {
                            lemma_completed_part_member_5(v, rest, cur);
                        }
                        assert(p0 == 1);
                        assert(0 <= 2 <= 6 && d.remaining() == suffix_completed_part(v, 2) + rest && settled_completed_part(v, 2, checksum_crc32_v, checksum_crc32c_v, checksum_sha1_v, checksum_sha256_v, e_tag_v, part_number_v));
                }
                        }
                    } else if eq_bytes(c.name.as_slice(), t_checksum_sha1()) {
                        let t = match read_text_member(d, &c) {
                            Result::Ok(t) => t,
                            Result::Err(e) => {
                                proof {
                                    assert forall|v: CompletedPart, rest: Seq<u8>|
                    (v.valid() && orig == #[trigger] (v.content_spec() + rest) && content_end(rest)) implies false by {
                        let i0 = choose|i: int| 0 <= i <= 6 && cur == (#[trigger] suffix_completed_part(v, i)) + rest && settled_completed_part(v, i, g_checksum_crc32, g_checksum_crc32c, g_checksum_sha1, g_checksum_sha256, g_e_tag, g_part_number);
                        lemma_completed_part_names();
                        lemma_completed_part_walk(v, i0);
                        let p0 = next_member_completed_part(v, i0);
                        assert(cur == suffix_completed_part(v, p0) + rest);
                        if p0 == 6 {
                            assert(suffix_completed_part(v, 6) + rest =~= rest);
                            lemma_content_end_scan(rest);
                        } else if p0 == 0 {
                            lemma_completed_part_member_0(v, rest, cur);
                        } else if p0 == 1 {
                            lemma_completed_part_member_1(v, rest, cur);
                        } else if p0 == 2 {
                            lemma_completed_part_member_2(v, rest, cur);
                        } else if p0 == 3 {
                            lemma_completed_part_member_3(v, rest, cur);
                        } else if p0 == 4 {
                            lemma_completed_part_member_4(v, rest, cur);
                        } else if p0 == 5 {
                            lemma_completed_part_member_5(v, rest, cur);
                        }
                }
                                }
                                return Err(e);
                            },
                        };
                        checksum_sha1_v = Option::Some(t);
                        proof {
                            assert forall|v: CompletedPart, rest: Seq<u8>|
                    (v.valid() && orig == #[trigger] (v.content_spec() + rest) && content_end(rest)) implies exists|i: int|
                    0 <= i <= 6 && d.remaining() == (#[trigger] suffix_completed_part(v, i)) + rest
                        && settled_completed_part(v, i, checksum_crc32_v, checksum_crc32c_v, checksum_sha1_v, checksum_sha256_v, e_tag_v, part_number_v) by {
                        let i0 = choose|i: int| 0 <= i <= 6 && cur == (#[trigger] suffix_completed_part(v, i)) + rest && settled_completed_part(v, i, g_checksum_crc32, g_checksum_crc32c, g_checksum_sha1, g_checksum_sha256, g_e_tag, g_part_number);
                        lemma_completed_part_names();
                        lemma_completed_part_walk(v, i0);
                        let p0 = next_member_completed_part(v, i0);
                        assert(cur == suffix_completed_part(v, p0) + rest);
                        if p0 == 6 {
                            assert(suffix_completed_part(v, 6) + rest =~= rest);
                            lemma_content_end_scan(rest);
                        } else if p0 == 0 {
                            lemma_completed_part_member_0(v, rest, cur);
                        } else if p0 == 1 {
                            lemma_completed_part_member_1(v, rest, cur);
                        } else if p0 == 2 {
                            lemma_completed_part_member_2(v, rest, cur);
                        } else if p0 == 3 {
                            lemma_completed_part_member_3(v, rest, cur);
                        } else if p0 == 4 {
                            lemma_completed_part_member_4(v, rest, cur);
                        } else if p0 == 5 {
                            lemma_completed_part_member_5(v, rest, cur);
                        }
                        assert(p0 == 2);
                        assert(0 <= 3 <= 6 && d.remaining() == suffix_completed_part(v, 3) + rest && settled_completed_part(v, 3, checksum_crc32_v, checksum_crc32c_v, checksum_sha1_v, checksum_sha256_v, e_tag_v, part_number_v));
                }
                        }
                    } else if eq_bytes(c.name.as_slice(), t_checksum_sha256()) {
                        let t = match read_text_member(d, &c) {
                            Result::Ok(t) => t,
                            Result::Err(e) => {
                                proof {
                                    assert forall|v: CompletedPart, rest: Seq<u8>|
                    (v.valid() && orig == #[trigger] (v.content_spec() + rest) && content_end(rest)) implies false by {
                        let i0 = choose|i: int| 0 <= i <= 6 && cur == (#[trigger] suffix_completed_part(v, i)) + rest && settled_completed_part(v, i, g_checksum_crc32, g_checksum_crc32c, g_checksum_sha1, g_checksum_sha256, g_e_tag, g_part_number);
                        lemma_completed_part_names();
                        lemma_completed_part_walk(v, i0);
                        let p0 = next_member_completed_part(v, i0);
                        assert(cur == suffix_completed_part(v, p0) + rest);
                        if p0 == 6 {
                            assert(suffix_completed_part(v, 6) + rest =~= rest);
                            lemma_content_end_scan(rest);
                        } else if p0 == 0 {
                            lemma_completed_part_member_0(v, rest, cur);
                        } else if p0 == 1 {
                            lemma_completed_part_member_1(v, rest, cur);
                        } else if p0 == 2 {
                            lemma_completed_part_member_2(v, rest, cur);
                        } else if p0 == 3 {
                            lemma_completed_part_member_3(v, rest, cur);
                        } else if p0 == 4 {
                            lemma_completed_part_member_4(v, rest, cur);
                        } else if p0 == 5 {
                            lemma_completed_part_member_5(v, rest, cur);
                        }
                }
                                }
                                return Err(e);
                            },
                        };
                        checksum_sha256_v = Option::Some(t);
                        proof {
                            assert forall|v: CompletedPart, rest: Seq<u8>|
                    (v.valid() && orig == #[trigger] (v.content_spec() + rest) && content_end(rest)) implies exists|i: int|
                    0 <= i <= 6 && d.remaining() == (#[trigger] suffix_completed_part(v, i)) + rest
                        && settled_completed_part(v, i, checksum_crc32_v, checksum_crc32c_v, checksum_sha1_v, checksum_sha256_v, e_tag_v, part_number_v) by {
                        let i0 = choose|i: int| 0 <= i <= 6 && cur == (#[trigger] suffix_completed_part(v, i)) + rest && settled_completed_part(v, i, g_checksum_crc32, g_checksum_crc32c, g_checksum_sha1, g_checksum_sha256, g_e_tag, g_part_number);
                        lemma_completed_part_names();
                        lemma_completed_part_walk(v, i0);
                        let p0 = next_member_completed_part(v, i0);
                        assert(cur == suffix_completed_part(v, p0) + rest);
                        if p0 == 6 {
                            assert(suffix_completed_part(v, 6) + rest =~= rest);
                            lemma_content_end_scan(rest);
                        } else if p0 == 0 {
                            lemma_completed_part_member_0(v, rest, cur);
                        } else if p0 == 1 {
                            lemma_completed_part_member_1(v, rest, cur);
                        } else if p0 == 2 {
                            lemma_completed_part_member_2(v, rest, cur);
                        } else if p0 == 3 {
                            lemma_completed_part_member_3(v, rest, cur);
                        } else if p0 == 4 {
                            lemma_completed_part_member_4(v, rest, cur);
                        } else if p0 == 5 {
                            lemma_completed_part_member_5(v, rest, cur);
                        }
                        assert(p0 == 3);
                        assert(0 <= 4 <= 6 && d.remaining() == suffix_completed_part(v, 4) + rest && settled_completed_part(v, 4, checksum_crc32_v, checksum_crc32c_v, checksum_sha1_v, checksum_sha256_v, e_tag_v, part_number_v));
                }
                        }
                    } else if eq_bytes(c.name.as_slice(), t_etag()) {
                        let t = match read_text_member(d, &c) {
                            Result::Ok(t) => t,
                            Result::Err(e) => {
                                proof {
                                    assert forall|v: CompletedPart, rest: Seq<u8>|
                    (v.valid() && orig == #[trigger] (v.content_spec() + rest) && content_end(rest)) implies false by {
                        let i0 = choose|i: int| 0 <= i <= 6 && cur == (#[trigger] suffix_completed_part(v, i)) + rest && settled_completed_part(v, i, g_checksum_crc32, g_checksum_crc32c, g_checksum_sha1, g_checksum_sha256, g_e_tag, g_part_number);
                        lemma_completed_part_names();
                        lemma_completed_part_walk(v, i0);
                        let p0 = next_member_completed_part(v, i0);
                        assert(cur == suffix_completed_part(v, p0) + rest);
                        if p0 == 6 {
                            assert(suffix_completed_part(v, 6) + rest =~= rest);
                            lemma_content_end_scan(rest);
                        } else if p0 == 0 {
                            lemma_completed_part_member_0(v, rest, cur);
                        } else if p0 == 1 {
                            lemma_completed_part_member_1(v, rest, cur);
                        } else if p0 == 2 {
                            lemma_completed_part_member_2(v, rest, cur);
                        } else if p0 == 3 {
                            lemma_completed_part_member_3(v, rest, cur);
                        } else if p0 == 4 {
                            lemma_completed_part_member_4(v, rest, cur);
                        } else if p0 == 5 {
                            lemma_completed_part_member_5(v, rest, cur);
                        }
                }
                                }
                                return Err(e);
                            },
                        };
                        e_tag_v = Option::Some(t);
                        proof {
                            assert forall|v: CompletedPart, rest: Seq<u8>|
                    (v.valid() && orig == #[trigger] (v.content_spec() + rest) && content_end(rest)) implies exists|i: int|
                    0 <= i <= 6 && d.remaining() == (#[trigger] suffix_completed_part(v, i)) + rest
                        && settled_completed_part(v, i, checksum_crc32_v, checksum_crc32c_v, checksum_sha1_v, checksum_sha256_v, e_tag_v, part_number_v) by {
                        let i0 = choose|i: int| 0 <= i <= 6 && cur == (#[trigger] suffix_completed_part(v, i)) + rest && settled_completed_part(v, i, g_checksum_crc32, g_checksum_crc32c, g_checksum_sha1, g_checksum_sha256, g_e_tag, g_part_number);
                        lemma_completed_part_names();
                        lemma_completed_part_walk(v, i0);
                        let p0 = next_member_completed_part(v, i0);
                        assert(cur == suffix_completed_part(v, p0) + rest);
                        if p0 == 6 {
                            assert(suffix_completed_part(v, 6) + rest =~= rest);
                            lemma_content_end_scan(rest);
                        } else if p0 == 0 {
                            lemma_completed_part_member_0(v, rest, cur);
                        } else if p0 == 1 {
                            lemma_completed_part_member_1(v, rest, cur);
                        } else if p0 == 2 {
                            lemma_completed_part_member_2(v, rest, cur);
                        } else if p0 == 3 {
                            lemma_completed_part_member_3(v, rest, cur);
                        } else if p0 == 4 {
                            lemma_completed_part_member_4(v, rest, cur);
                        } else if p0 == 5 {
                            lemma_completed_part_member_5(v, rest, cur);
                        }
                        assert(p0 == 4);
                        assert(0 <= 5 <= 6 && d.remaining() == suffix_completed_part(v, 5) + rest && settled_completed_part(v, 5, checksum_crc32_v, checksum_crc32c_v, checksum_sha1_v, checksum_sha256_v, e_tag_v, part_number_v));
                }
                        }
                    } else if eq_bytes(c.name.as_slice(), t_part_number()) {
                        let t = match read_text_member(d, &c) {
                            Result::Ok(t) => t,
                            Result::Err(e) => {
                                proof {
                                    assert forall|v: CompletedPart, rest: Seq<u8>|
                    (v.valid() && orig == #[trigger] (v.content_spec() + rest) && content_end(rest)) implies false by {
                        let i0 = choose|i: int| 0 <= i <= 6 && cur == (#[trigger] suffix_completed_part(v, i)) + rest && settled_completed_part(v, i, g_checksum_crc32, g_checksum_crc32c, g_checksum_sha1, g_checksum_sha256, g_e_tag, g_part_number);
                        lemma_completed_part_names();
                        lemma_completed_part_walk(v, i0);
                        let p0 = next_member_completed_part(v, i0);
                        assert(cur == suffix_completed_part(v, p0) + rest);
                        if p0 == 6 {
                            assert(suffix_completed_part(v, 6) + rest =~= rest);
                            lemma_content_end_scan(rest);
                        } else if p0 == 0 {
                            lemma_completed_part_member_0(v, rest, cur);
                        } else if p0 == 1 {
                            lemma_completed_part_member_1(v, rest, cur);
                        } else if p0 == 2 {
                            lemma_completed_part_member_2(v, rest, cur);
                        } else if p0 == 3 {
                            lemma_completed_part_member_3(v, rest, cur);
                        } else if p0 == 4 {
                            lemma_completed_part_member_4(v, rest, cur);
                        } else if p0 == 5 {
                            lemma_completed_part_member_5(v, rest, cur);
                        }
                }
                                }
                                return Err(e);
                            },
                        };
                        match parse_i32(t.as_slice()) {
                            Option::Some(x) => { part_number_v = Option::Some(x); },
                            Option::None => {
                                proof {
                                    assert forall|v: CompletedPart, rest: Seq<u8>|
                    (v.valid() && orig == #[trigger] (v.content_spec() + rest) && content_end(rest)) implies false by {
                        let i0 = choose|i: int| 0 <= i <= 6 && cur == (#[trigger] suffix_completed_part(v, i)) + rest && settled_completed_part(v, i, g_checksum_crc32, g_checksum_crc32c, g_checksum_sha1, g_checksum_sha256, g_e_tag, g_part_number);
                        lemma_completed_part_names();
                        lemma_completed_part_walk(v, i0);
                        let p0 = next_member_completed_part(v, i0);
                        assert(cur == suffix_completed_part(v, p0) + rest);
                        if p0 == 6 {
                            assert(suffix_completed_part(v, 6) + rest =~= rest);
                            lemma_content_end_scan(rest);
                        } else if p0 == 0 {
                            lemma_completed_part_member_0(v, rest, cur);
                        } else if p0 == 1 {
                            lemma_completed_part_member_1(v, rest, cur);
                        } else if p0 == 2 {
                            lemma_completed_part_member_2(v, rest, cur);
                        } else if p0 == 3 {
                            lemma_completed_part_member_3(v, rest, cur);
                        } else if p0 == 4 {
                            lemma_completed_part_member_4(v, rest, cur);
                        } else if p0 == 5 {
                            lemma_completed_part_member_5(v, rest, cur);
                        }
                        lemma_int_text_roundtrip(v.part_number->Some_0 as int);
                }
                                }
                                return Err(DeError::InvalidContent);
                            },
                        }
                        proof {
                            assert forall|v: CompletedPart, rest: Seq<u8>|
                    (v.valid() && orig == #[trigger] (v.content_spec() + rest) && content_end(rest)) implies exists|i: int|
                    0 <= i <= 6 && d.remaining() == (#[trigger] suffix_completed_part(v, i)) + rest
                        && settled_completed_part(v, i, checksum_crc32_v, checksum_crc32c_v, checksum_sha1_v, checksum_sha256_v, e_tag_v, part_number_v) by {
                        let i0 = choose|i: int| 0 <= i <= 6 && cur == (#[trigger] suffix_completed_part(v, i)) + rest && settled_completed_part(v, i, g_checksum_crc32, g_checksum_crc32c, g_checksum_sha1, g_checksum_sha256, g_e_tag, g_part_number);
                        lemma_completed_part_names();
                        lemma_completed_part_walk(v, i0);
                        let p0 = next_member_completed_part(v, i0);
                        assert(cur == suffix_completed_part(v, p0) + rest);
                        if p0 == 6 {
                            assert(suffix_completed_part(v, 6) + rest =~= rest);
                            lemma_content_end_scan(rest);
                        } else if p0 == 0 {
                            lemma_completed_part_member_0(v, rest, cur);
                        } else if p0 == 1 {
                            lemma_completed_part_member_1(v, rest, cur);
                        } else if p0 == 2 {
                            lemma_completed_part_member_2(v, rest, cur);
                        } else if p0 == 3 {
                            lemma_completed_part_member_3(v, rest, cur);
                        } else if p0 == 4 {
                            lemma_completed_part_member_4(v, rest, cur);
                        } else if p0 == 5 {
                            lemma_completed_part_member_5(v, rest, cur);
                        }
                        lemma_int_text_roundtrip(v.part_number->Some_0 as int);
                        assert(p0 == 5);
                        assert(0 <= 6 <= 6 && d.remaining() == suffix_completed_part(v, 6) + rest && settled_completed_part(v, 6, checksum_crc32_v, checksum_crc32c_v, checksum_sha1_v, checksum_sha256_v, e_tag_v, part_number_v));
                }
                        }
                    } else {
                        match skip_member(d, &c) {
                            Result::Ok(u) => {},
                            Result::Err(e) => {
                                proof {
                                    assert forall|v: CompletedPart, rest: Seq<u8>|
                    (v.valid() && orig == #[trigger] (v.content_spec() + rest) && content_end(rest)) implies false by {
                        let i0 = choose|i: int| 0 <= i <= 6 && cur == (#[trigger] suffix_completed_part(v, i)) + rest && settled_completed_part(v, i, g_checksum_crc32, g_checksum_crc32c, g_checksum_sha1, g_checksum_sha256, g_e_tag, g_part_number);
                        lemma_completed_part_names();
                        lemma_completed_part_walk(v, i0);
                        let p0 = next_member_completed_part(v, i0);
                        assert(cur == suffix_completed_part(v, p0) + rest);
                        if p0 == 6 {
                            assert(suffix_completed_part(v, 6) + rest =~= rest);
                            lemma_content_end_scan(rest);
                        } else if p0 == 0 {
                            lemma_completed_part_member_0(v, rest, cur);
                        } else if p0 == 1 {
                            lemma_completed_part_member_1(v, rest, cur);
                        } else if p0 == 2 {
                            lemma_completed_part_member_2(v, rest, cur);
                        } else if p0 == 3 {
                            lemma_completed_part_member_3(v, rest, cur);
                        } else if p0 == 4 {
                            lemma_completed_part_member_4(v, rest, cur);
                        } else if p0 == 5 {
                            lemma_completed_part_member_5(v, rest, cur);
                        }
                }
                                }
                                return Err(e);
                            },
                        }
                        proof {
                            assert forall|v: CompletedPart, rest: Seq<u8>|
                    (v.valid() && orig == #[trigger] (v.content_spec() + rest) && content_end(rest)) implies false by {
                        let i0 = choose|i: int| 0 <= i <= 6 && cur == (#[trigger] suffix_completed_part(v, i)) + rest && settled_completed_part(v, i, g_checksum_crc32, g_checksum_crc32c, g_checksum_sha1, g_checksum_sha256, g_e_tag, g_part_number);
                        lemma_completed_part_names();
                        lemma_completed_part_walk(v, i0);
                        let p0 = next_member_completed_part(v, i0);
                        assert(cur == suffix_completed_part(v, p0) + rest);
                        if p0 == 6 {
                            assert(suffix_completed_part(v, 6) + rest =~= rest);
                            lemma_content_end_scan(rest);
                        } else if p0 == 0 {
                            lemma_completed_part_member_0(v, rest, cur);
                        } else if p0 == 1 {
                            lemma_completed_part_member_1(v, rest, cur);
                        } else if p0 == 2 {
                            lemma_completed_part_member_2(v, rest, cur);
                        } else if p0 == 3 {
                            lemma_completed_part_member_3(v, rest, cur);
                        } else if p0 == 4 {
                            lemma_completed_part_member_4(v, rest, cur);
                        } else if p0 == 5 {
                            lemma_completed_part_member_5(v, rest, cur);
                        }
                }
                        }
                    }
                },
                Option::None => {
                    let checksum_crc32 = checksum_crc32_v;
                    let checksum_crc32c = checksum_crc32c_v;
                    let checksum_sha1 = checksum_sha1_v;
                    let checksum_sha256 = checksum_sha256_v;
                    let e_tag = e_tag_v;
                    let part_number = part_number_v;
                    let res = CompletedPart { checksum_crc32, checksum_crc32c, checksum_sha1, checksum_sha256, e_tag, part_number };
                    proof {
                        assert forall|v: CompletedPart, rest: Seq<u8>|
                        (v.valid() && orig == #[trigger] (v.content_spec() + rest) && content_end(rest)) implies (v.same_model(&res) && d.remaining() == rest) by {
                            let i0 = choose|i: int| 0 <= i <= 6 && cur == (#[trigger] suffix_completed_part(v, i)) + rest && settled_completed_part(v, i, g_checksum_crc32, g_checksum_crc32c, g_checksum_sha1, g_checksum_sha256, g_e_tag, g_part_number);
                            lemma_completed_part_names();
                            lemma_completed_part_walk(v, i0);
                            let p0 = next_member_completed_part(v, i0);
                            assert(cur == suffix_completed_part(v, p0) + rest);
                            if p0 == 6 {
                                assert(suffix_completed_part(v, 6) + rest =~= rest);
                                lemma_content_end_scan(rest);
                            } else if p0 == 0 {
                                lemma_completed_part_member_0(v, rest, cur);
                            } else if p0 == 1 {
                                lemma_completed_part_member_1(v, rest, cur);
                            } else if p0 == 2 {
                                lemma_completed_part_member_2(v, rest, cur);
                            } else if p0 == 3 {
                                lemma_completed_part_member_3(v, rest, cur);
                            } else if p0 == 4 {
                                lemma_completed_part_member_4(v, rest, cur);
                            } else if p0 == 5 {
                                lemma_completed_part_member_5(v, rest, cur);
                            }
                    }
                    }
                    return Ok(res);
                },
            }
        }
    }
}

impl DeserializeContent for CompletedPart {
    fn deserialize_content<'a>(d: &mut Deserializer<'a>) -> (r: DeResult<Self>) {
        CompletedPart::read_content(d)
    }
}

/// The part list of a multipart-upload completion request.
#[derive(Debug, Clone, PartialEq, Eq)]
pub struct CompletedMultipartUpload {
    pub parts: Option<Vec<CompletedPart>>,
}

impl SerializeContent for CompletedMultipartUpload {
    open spec fn content_spec(&self) -> Seq<u8> {
        opt_flat_of(n_part(), self.parts)
    }

    fn serialize_content(&self, s: &mut Serializer) {
        let ghost orig = s@;
        write_opt_flat(s, t_part(), &self.parts);
        proof {
            assert(s@ =~= orig + self.content_spec());
        }
    }
}

impl Serialize for CompletedMultipartUpload {
    open spec fn full_spec(&self) -> Seq<u8> {
        element_ns(n_complete_multipart_upload(), n_s3_ns(), self.content_spec())
    }

    #[verifier::rlimit(60)]
    fn serialize(&self, s: &mut Serializer) {
        let ghost orig = s@;
        s.begin_ns(t_complete_multipart_upload(), t_s3_ns());
        self.serialize_content(s);
        s.end(t_complete_multipart_upload());
        proof {
            assert(s@ =~= orig + self.full_spec());
        }
    }
}

impl CompletedMultipartUpload {
    /// Structurally valid: extension values hold only unrecognized text, and
    /// a present flattened list is non-empty (an empty one is
    /// indistinguishable on the wire from an absent member).
    pub open spec fn valid(&self) -> bool {
        &&& (match self.parts { Option::Some(l) => l@.len() > 0 && (forall|t: int| 0 <= t < l@.len() ==> (#[trigger] l@[t]).valid()), Option::None => true })
    }

    /// Member-wise agreement: scalar members equal as values, text members
    /// equal as byte strings, enumerated members equal as wire strings on the
    /// same side of the known/extension split, nested members agreeing
    /// member-wise.
    pub open spec fn same_model(&self, other: &CompletedMultipartUpload) -> bool {
        &&& (match (self.parts, other.parts) { (Option::Some(a), Option::Some(b)) => a@.len() == b@.len() && (forall|t: int| 0 <= t < a@.len() ==> (#[trigger] a@[t]).same_model(&b@[t])), (Option::None, Option::None) => true, _ => false })
    }
}

/// The content encoding of the members from index `i` on.
pub open spec fn suffix_completed_multipart_upload(v: CompletedMultipartUpload, i: int, j_parts: int) -> Seq<u8> {
    if i <= 0 {
        (match v.parts { Option::Some(l) => flat_list_spec(n_part(), l@.skip(j_parts)), Option::None => Seq::empty() }) + (Seq::empty())
    } else {
        Seq::empty()
    }
}

/// The first member at or after `i` that the next child element can belong
/// to.
pub open spec fn next_member_completed_multipart_upload(v: CompletedMultipartUpload, i: int, j_parts: int) -> int {
    if i <= 0 && ((match v.parts { Option::Some(l) => j_parts < l@.len(), Option::None => false })) {
        0
    } else {
        1
    }
}

/// What the decoder's state says after the members before `i` have been
/// dealt with.
pub open spec fn settled_completed_multipart_upload(v: CompletedMultipartUpload, i: int, parts_s: Seq<CompletedPart>) -> bool {
    &&& (match v.parts {
        Option::Some(l) => {
            &&& (0 < i ==> parts_s.len() == l@.len())
            &&& (0 == i ==> parts_s.len() <= l@.len())
            &&& (0 > i ==> parts_s.len() == 0)
            &&& (forall|t: int| 0 <= t < parts_s.len() ==> t < l@.len() && (#[trigger] parts_s[t]).same_model(&l@[t]))
        },
        Option::None => parts_s.len() == 0,
    })
}

proof fn lemma_completed_multipart_upload_names()
    ensures
        n_part().len() >= 1,
        forall|ii: int| 0 <= ii < n_part().len() ==> is_name_byte(#[trigger] n_part()[ii]),
{

}

proof fn lemma_completed_multipart_upload_walk(v: CompletedMultipartUpload, i: int, j_parts: int)
    requires
        0 <= i <= 1,
        (match v.parts { Option::Some(l) => 0 <= j_parts <= l@.len(), Option::None => j_parts == 0 }),
    ensures
        ({
            let p = next_member_completed_multipart_upload(v, i, j_parts);
            &&& i <= p <= 1
            &&& suffix_completed_multipart_upload(v, i, j_parts) == suffix_completed_multipart_upload(v, p, j_parts)
            &&& (i <= 0 && 0 < p ==> (match v.parts { Option::Some(l) => j_parts >= l@.len(), Option::None => true }))
            &&& (p == 0 ==> ((match v.parts { Option::Some(l) => j_parts < l@.len(), Option::None => false })))
        }),
    decreases 1 - i,
{
    if i < 1 {
        if i == 0 {
            if !((match v.parts { Option::Some(l) => j_parts < l@.len(), Option::None => false })) {
                if v.parts is Some {
                    let l = v.parts->Some_0;
                    assert(l@.skip(j_parts) =~= Seq::<CompletedPart>::empty());
                    assert(flat_list_spec(n_part(), l@.skip(j_parts)) == Seq::<u8>::empty());
                }
                assert(suffix_completed_multipart_upload(v, 0, j_parts) =~= suffix_completed_multipart_upload(v, 1, j_parts));
                lemma_completed_multipart_upload_walk(v, 1, j_parts);
            }
        }
    }
}

#[verifier::rlimit(100)]
proof fn lemma_completed_multipart_upload_member_0(v: CompletedMultipartUpload, rest: Seq<u8>, j_parts: int, cur: Seq<u8>)
    requires
        content_end(rest),
        (match v.parts { Option::Some(l) => 0 <= j_parts <= l@.len(), Option::None => j_parts == 0 }),
        (match v.parts { Option::Some(l) => j_parts < l@.len(), Option::None => false }),
        cur == suffix_completed_multipart_upload(v, 0, j_parts) + rest,
    ensures
        ({
                let l = v.parts->Some_0@;
                let s1 = cur.skip(open_tag(n_part()).len() as int);
                let after = suffix_completed_multipart_upload(v, 0, j_parts + 1) + rest;
                &&& v.parts is Some
                &&& j_parts < l.len()
                &&& child_scan(cur) == Some((Some((n_part(), false)), open_tag(n_part()).len() as nat))
                &&& s1 == l[j_parts].content_spec() + (close_tag(n_part()) + after)
                &&& content_end(close_tag(n_part()) + after)
                &&& close_scan(close_tag(n_part()) + after, n_part()) == Some((n_part().len() + 3) as nat)
                &&& (close_tag(n_part()) + after).skip(n_part().len() as int + 3) == after
            }),
{
    lemma_completed_multipart_upload_names();
    let l = v.parts->Some_0@;
    assert(l.skip(j_parts)[0] == l[j_parts]);
    assert(l.skip(j_parts).skip(1) =~= l.skip(j_parts + 1));
    assert(flat_list_spec(n_part(), l.skip(j_parts)) =~= element(n_part(), l[j_parts].content_spec()) + flat_list_spec(n_part(), l.skip(j_parts + 1)));
    let after = suffix_completed_multipart_upload(v, 0, j_parts + 1) + rest;
    assert(after =~= flat_list_spec(n_part(), l.skip(j_parts + 1)) + (suffix_completed_multipart_upload(v, 1, j_parts) + rest));
    assert(cur =~= element(n_part(), l[j_parts].content_spec()) + after);
    lemma_element_open_shape(n_part(), l[j_parts].content_spec(), after);
    lemma_close_is_content_end(n_part(), after);
    lemma_close_shape(n_part(), after);
}

#[verifier::rlimit(100)]
proof fn lemma_completed_multipart_upload_at(v: CompletedMultipartUpload, rest: Seq<u8>, i: int, j_parts: int, cur: Seq<u8>)
    requires
        0 <= i <= 1,
        content_end(rest),
        (match v.parts { Option::Some(l) => 0 <= j_parts <= l@.len(), Option::None => j_parts == 0 }),
        cur == suffix_completed_multipart_upload(v, i, j_parts) + rest,
    ensures
        ({
            let p = next_member_completed_multipart_upload(v, i, j_parts);
            &&& i <= p <= 1
            &&& (i <= 0 && 0 < p ==> (match v.parts { Option::Some(l) => j_parts >= l@.len(), Option::None => true }))
            &&& (p == 0 ==> ({
                let l = v.parts->Some_0@;
                let s1 = cur.skip(open_tag(n_part()).len() as int);
                let after = suffix_completed_multipart_upload(v, 0, j_parts + 1) + rest;
                &&& v.parts is Some
                &&& j_parts < l.len()
                &&& child_scan(cur) == Some((Some((n_part(), false)), open_tag(n_part()).len() as nat))
                &&& s1 == l[j_parts].content_spec() + (close_tag(n_part()) + after)
                &&& content_end(close_tag(n_part()) + after)
                &&& close_scan(close_tag(n_part()) + after, n_part()) == Some((n_part().len() + 3) as nat)
                &&& (close_tag(n_part()) + after).skip(n_part().len() as int + 3) == after
            }))
            &&& (p == 1 ==> cur == rest && child_scan(cur) == Some((Option::<(Seq<u8>, bool)>::None, 0 as nat)) && rest.skip(0) == rest)
        }),
{
    lemma_completed_multipart_upload_names();
    lemma_completed_multipart_upload_walk(v, i, j_parts);
    let p = next_member_completed_multipart_upload(v, i, j_parts);
    assert(cur == suffix_completed_multipart_upload(v, p, j_parts) + rest);
    if p == 1 {
        assert(suffix_completed_multipart_upload(v, 1, j_parts) + rest =~= rest);
        lemma_content_end_scan(rest);
    } else if p == 0 {
        lemma_completed_multipart_upload_member_0(v, rest, j_parts, cur);
    }
}


impl CompletedMultipartUpload {
    /// Decode this type's element content: members in any order, unknown
    /// members skipped, required members demanded.
    ///
    /// Round-trip: the exact content encoding of any structurally valid
    /// value, followed by the end of the enclosing content, decodes back to
    /// a value with the same members, consuming exactly the encoding.
    #[verifier::rlimit(100)]
    pub fn read_content<'a>(d: &mut Deserializer<'a>) -> (r: DeResult<CompletedMultipartUpload>)
        requires
            old(d).wf(),
        ensures
            final(d).wf(),
            final(d).remaining().len() <= old(d).remaining().len(),
            forall|v: CompletedMultipartUpload, rest: Seq<u8>|
                (v.valid() && old(d).remaining() == #[trigger] (v.content_spec() + rest)
                    && content_end(rest)) ==> (r matches Ok(res) && v.same_model(&res)
                    && final(d).remaining() == rest),
    {
        let ghost orig = d.remaining();
        let mut parts_items: Vec<CompletedPart> = Vec::new();
        proof {
            assert forall|v: CompletedMultipartUpload, rest: Seq<u8>|
                (v.valid() && orig == #[trigger] (v.content_spec() + rest) && content_end(rest)) implies exists|i: int|
                0 <= i <= 1 && orig == (#[trigger] suffix_completed_multipart_upload(v, i, parts_items@.len() as int)) + rest
                    && settled_completed_multipart_upload(v, i, parts_items@) by {
                    if v.parts is Some { assert(v.parts->Some_0@.skip(0) =~= v.parts->Some_0@); }
                    assert(v.content_spec() =~= suffix_completed_multipart_upload(v, 0, parts_items@.len() as int));
                    assert(0 <= 0 <= 1 && orig == suffix_completed_multipart_upload(v, 0, parts_items@.len() as int) + rest && settled_completed_multipart_upload(v, 0, parts_items@));
            }
        }
        loop
            invariant
                d.wf(),
                d.remaining().len() <= old(d).remaining().len(),
                orig == old(d).remaining(),
                forall|v: CompletedMultipartUpload, rest: Seq<u8>|
                    (v.valid() && orig == #[trigger] (v.content_spec() + rest) && content_end(
                        rest,
                    )) ==> exists|i: int|
                        0 <= i <= 1 && d.remaining() == (#[trigger] suffix_completed_multipart_upload(v, i, parts_items@.len() as int))
                            + rest && settled_completed_multipart_upload(v, i, parts_items@),
            decreases d.remaining().len(),
        {
            let ghost cur = d.remaining();
            let ghost g_parts = parts_items@;
            let c_opt = match d.read_child_open() {
                Result::Ok(x) => x,
                Result::Err(e) => {
                    proof {
                        assert forall|v: CompletedMultipartUpload, rest: Seq<u8>|
                    (v.valid() && orig == #[trigger] (v.content_spec() + rest) && content_end(rest)) implies false by {
                        let i0 = choose|i: int| 0 <= i <= 1 && cur == (#[trigger] suffix_completed_multipart_upload(v, i, g_parts.len() as int)) + rest && settled_completed_multipart_upload(v, i, g_parts);
                        assert(match v.parts { Option::Some(l) => 0 <= g_parts.len() <= l@.len(), Option::None => g_parts.len() == 0 });
                        lemma_completed_multipart_upload_names();
                        lemma_completed_multipart_upload_at(v, rest, i0, g_parts.len() as int, cur);
                }
                    }
                    return Err(e);
                },
            };
            match c_opt {
                Option::Some(c) => {
                    if eq_bytes(c.name.as_slice(), t_part()) {
                        let got = if c.self_closed {
                            let empty_in: [u8; 0] = [];
                            let mut d2 = Deserializer::new(&empty_in);
                            match CompletedPart::read_content(&mut d2) {
                                Result::Ok(x) => x,
                                Result::Err(e) => {
                                    proof {
                                        assert forall|v: CompletedMultipartUpload, rest: Seq<u8>|
                    (v.valid() && orig == #[trigger] (v.content_spec() + rest) && content_end(rest)) implies false by {
                        let i0 = choose|i: int| 0 <= i <= 1 && cur == (#[trigger] suffix_completed_multipart_upload(v, i, g_parts.len() as int)) + rest && settled_completed_multipart_upload(v, i, g_parts);
                        assert(match v.parts { Option::Some(l) => 0 <= g_parts.len() <= l@.len(), Option::None => g_parts.len() == 0 });
                        lemma_completed_multipart_upload_names();
                        lemma_completed_multipart_upload_at(v, rest, i0, g_parts.len() as int, cur);
                }
                                    }
                                    return Err(e);
                                },
                            }
                        } else {
                            let x = match CompletedPart::read_content(d) {
                                Result::Ok(x) => x,
                                Result::Err(e) => {
                                    proof {
                                        assert forall|v: CompletedMultipartUpload, rest: Seq<u8>|
                    (v.valid() && orig == #[trigger] (v.content_spec() + rest) && content_end(rest)) implies false by {
                        let i0 = choose|i: int| 0 <= i <= 1 && cur == (#[trigger] suffix_completed_multipart_upload(v, i, g_parts.len() as int)) + rest && settled_completed_multipart_upload(v, i, g_parts);
                        assert(match v.parts { Option::Some(l) => 0 <= g_parts.len() <= l@.len(), Option::None => g_parts.len() == 0 });
                        lemma_completed_multipart_upload_names();
                        lemma_completed_multipart_upload_at(v, rest, i0, g_parts.len() as int, cur);
                        assert(cur.skip(open_tag(n_part()).len() as int) == v.parts->Some_0@[g_parts.len() as int].content_spec() + (close_tag(n_part()) + (suffix_completed_multipart_upload(v, 0, g_parts.len() as int + 1) + rest)));
                }
                                    }
                                    return Err(e);
                                },
                            };
                            match d.expect_close(t_part()) {
                                Result::Ok(u) => {},
                                Result::Err(e) => {
                                    proof {
                                        assert forall|v: CompletedMultipartUpload, rest: Seq<u8>|
                    (v.valid() && orig == #[trigger] (v.content_spec() + rest) && content_end(rest)) implies false by {
                        let i0 = choose|i: int| 0 <= i <= 1 && cur == (#[trigger] suffix_completed_multipart_upload(v, i, g_parts.len() as int)) + rest && settled_completed_multipart_upload(v, i, g_parts);
                        assert(match v.parts { Option::Some(l) => 0 <= g_parts.len() <= l@.len(), Option::None => g_parts.len() == 0 });
                        lemma_completed_multipart_upload_names();
                        lemma_completed_multipart_upload_at(v, rest, i0, g_parts.len() as int, cur);
                        assert(cur.skip(open_tag(n_part()).len() as int) == v.parts->Some_0@[g_parts.len() as int].content_spec() + (close_tag(n_part()) + (suffix_completed_multipart_upload(v, 0, g_parts.len() as int + 1) + rest)));
                }
                                    }
                                    return Err(e);
                                },
                            }
                            x
                        };
                        parts_items.push(got);
                        proof {
                            assert forall|v: CompletedMultipartUpload, rest: Seq<u8>|
                    (v.valid() && orig == #[trigger] (v.content_spec() + rest) && content_end(rest)) implies exists|i: int|
                    0 <= i <= 1 && d.remaining() == (#[trigger] suffix_completed_multipart_upload(v, i, parts_items@.len() as int)) + rest
                        && settled_completed_multipart_upload(v, i, parts_items@) by {
                        let i0 = choose|i: int| 0 <= i <= 1 && cur == (#[trigger] suffix_completed_multipart_upload(v, i, g_parts.len() as int)) + rest && settled_completed_multipart_upload(v, i, g_parts);
                        assert(match v.parts { Option::Some(l) => 0 <= g_parts.len() <= l@.len(), Option::None => g_parts.len() == 0 });
                        lemma_completed_multipart_upload_names();
                        lemma_completed_multipart_upload_at(v, rest, i0, g_parts.len() as int, cur);
                        assert(cur.skip(open_tag(n_part()).len() as int) == v.parts->Some_0@[g_parts.len() as int].content_spec() + (close_tag(n_part()) + (suffix_completed_multipart_upload(v, 0, g_parts.len() as int + 1) + rest)));
                        assert(next_member_completed_multipart_upload(v, i0, g_parts.len() as int) == 0);
                        assert(0 <= 0 <= 1 && d.remaining() == suffix_completed_multipart_upload(v, 0, parts_items@.len() as int) + rest && settled_completed_multipart_upload(v, 0, parts_items@));
                }
                        }
                    } else {
                        match skip_member(d, &c) {
                            Result::Ok(u) => {},
                            Result::Err(e) => {
                                proof {
                                    assert forall|v: CompletedMultipartUpload, rest: Seq<u8>|
                    (v.valid() && orig == #[trigger] (v.content_spec() + rest) && content_end(rest)) implies false by {
                        let i0 = choose|i: int| 0 <= i <= 1 && cur == (#[trigger] suffix_completed_multipart_upload(v, i, g_parts.len() as int)) + rest && settled_completed_multipart_upload(v, i, g_parts);
                        assert(match v.parts { Option::Some(l) => 0 <= g_parts.len() <= l@.len(), Option::None => g_parts.len() == 0 });
                        lemma_completed_multipart_upload_names();
                        lemma_completed_multipart_upload_at(v, rest, i0, g_parts.len() as int, cur);
                }
                                }
                                return Err(e);
                            },
                        }
                        proof {
                            assert forall|v: CompletedMultipartUpload, rest: Seq<u8>|
                    (v.valid() && orig == #[trigger] (v.content_spec() + rest) && content_end(rest)) implies false by {
                        let i0 = choose|i: int| 0 <= i <= 1 && cur == (#[trigger] suffix_completed_multipart_upload(v, i, g_parts.len() as int)) + rest && settled_completed_multipart_upload(v, i, g_parts);
                        assert(match v.parts { Option::Some(l) => 0 <= g_parts.len() <= l@.len(), Option::None => g_parts.len() == 0 });
                        lemma_completed_multipart_upload_names();
                        lemma_completed_multipart_upload_at(v, rest, i0, g_parts.len() as int, cur);
                }
                        }
                    }
                },
                Option::None => {
                    let parts = if parts_items.len() > 0 {
                        Option::Some(parts_items)
                    } else {
                        Option::None
                    };
                    let res = CompletedMultipartUpload { parts };
                    proof {
                        assert forall|v: CompletedMultipartUpload, rest: Seq<u8>|
                        (v.valid() && orig == #[trigger] (v.content_spec() + rest) && content_end(rest)) implies (v.same_model(&res) && d.remaining() == rest) by {
                            let i0 = choose|i: int| 0 <= i <= 1 && cur == (#[trigger] suffix_completed_multipart_upload(v, i, g_parts.len() as int)) + rest && settled_completed_multipart_upload(v, i, g_parts);
                            assert(match v.parts { Option::Some(l) => 0 <= g_parts.len() <= l@.len(), Option::None => g_parts.len() == 0 });
                            lemma_completed_multipart_upload_names();
                            lemma_completed_multipart_upload_at(v, rest, i0, g_parts.len() as int, cur);
                            assert(match v.parts { Option::Some(l) => g_parts.len() == l@.len(), Option::None => g_parts.len() == 0 });
                    }
                    }
                    return Ok(res);
                },
            }
        }
    }
}

impl DeserializeContent for CompletedMultipartUpload {
    fn deserialize_content<'a>(d: &mut Deserializer<'a>) -> (r: DeResult<Self>) {
        CompletedMultipartUpload::read_content(d)
    }
}

impl Deserialize for CompletedMultipartUpload {
    fn deserialize<'a>(d: &mut Deserializer<'a>) -> (r: DeResult<Self>) {
        let sc = match d.read_root_open(t_complete_multipart_upload()) {
            Result::Ok(b) => b,
            Result::Err(e) => return Err(e),
        };
        if sc {
            return decode_empty_content::<CompletedMultipartUpload>();
        }
        let v = match CompletedMultipartUpload::deserialize_content(d) {
            Result::Ok(v) => v,
            Result::Err(e) => return Err(e),
        };
        match d.expect_close(t_complete_multipart_upload()) {
            Result::Ok(u) => Ok(v),
            Result::Err(e) => Err(e),
        }
    }
}

/// One key/value tag.
#[derive(Debug, Clone, PartialEq, Eq)]
pub struct Tag {
    pub key: Vec<u8>,
    pub value: Vec<u8>,
}

impl SerializeContent for Tag {
    open spec fn content_spec(&self) -> Seq<u8> {
        text_el(n_key(), self.key@)
            + text_el(n_value(), self.value@)
    }

    fn serialize_content(&self, s: &mut Serializer) {
        let ghost orig = s@;
        s.text_element(t_key(), self.key.as_slice());
        s.text_element(t_value(), self.value.as_slice());
        proof {
            assert(s@ =~= orig + self.content_spec());
        }
    }
}

/// Name-byte and distinctness facts about the two tag-member names.
proof fn lemma_tag_names()
    ensures
        n_key().len() >= 1,
        n_value().len() >= 1,
        forall|i: int| 0 <= i < n_key().len() ==> is_name_byte(#[trigger] n_key()[i]),
        forall|i: int| 0 <= i < n_value().len() ==> is_name_byte(#[trigger] n_value()[i]),
        n_key() != n_value(),
{
    assert(n_key().len() != n_value().len());
}

/// Whether content decoding stops at this trailing input without consuming
/// it: the end of input, or the enclosing element's closing tag.
pub open spec fn content_end(rest: Seq<u8>) -> bool {
    rest.len() == 0 || (rest.len() >= 2 && rest[0] == LT && rest[1] == SLASH)
}

/// At the end of element content, the child scan reports the end and
/// consumes nothing.
pub proof fn lemma_content_end_scan(rest: Seq<u8>)
    requires
        content_end(rest),
    ensures
        child_scan(rest) == Some((Option::<(Seq<u8>, bool)>::None, 0 as nat)),
        rest.skip(0) == rest,
{
    assert(rest.skip(0) =~= rest);
    if rest.len() > 0 {
        assert(!is_ws_spec(LT));
        assert(ws_count(rest) == 0);
    }
}

impl Tag {
    /// Decode tag content: the `Key` and `Value` members, in any order,
    /// unknown members skipped, both members required.
    ///
    /// Round-trip: the exact content encoding of any value, followed by the
    /// end of the enclosing content, decodes back to a value with the same
    /// members, consuming exactly the encoding.
    #[verifier::rlimit(100)]
    pub fn read_content<'a>(d: &mut Deserializer<'a>) -> (r: DeResult<Tag>)
        requires
            old(d).wf(),
        ensures
            final(d).wf(),
            final(d).remaining().len() <= old(d).remaining().len(),
            forall|v: Tag, rest: Seq<u8>|
                (old(d).remaining() == #[trigger] (v.content_spec() + rest) && content_end(rest))
                    ==> (r matches Ok(res) && res.key@ == v.key@ && res.value@ == v.value@
                        && final(d).remaining() == rest),
    {
        let ghost orig = d.remaining();
        let mut key_v: Option<Vec<u8>> = Option::None;
        let mut value_v: Option<Vec<u8>> = Option::None;
        loop
            invariant
                d.wf(),
                d.remaining().len() <= old(d).remaining().len(),
                orig == old(d).remaining(),
                forall|v: Tag, rest: Seq<u8>|
                    (orig == #[trigger] (v.content_spec() + rest) && content_end(rest)) ==> {
                        &&& (key_v is None && value_v is None ==> d.remaining() == v.content_spec()
                            + rest)
                        &&& (key_v is Some && value_v is None ==> key_v->Some_0@ == v.key@
                            && d.remaining() == text_el(n_value(), v.value@) + rest)
                        &&& (key_v is Some && value_v is Some ==> key_v->Some_0@ == v.key@
                            && value_v->Some_0@ == v.value@ && d.remaining() == rest)
                        &&& !(key_v is None && value_v is Some)
                    },
            decreases d.remaining().len(),
        {
            let ghost cur = d.remaining();
            let c_opt = match d.read_child_open() {
                Result::Ok(x) => x,
                Result::Err(e) => {
                    proof {
                        assert forall|v: Tag, rest: Seq<u8>|
                            (orig == #[trigger] (v.content_spec() + rest) && content_end(
                                rest,
                            )) implies false by {
                            lemma_tag_names();
                            assert(orig =~= text_el(n_key(), v.key@) + (text_el(
                                n_value(),
                                v.value@,
                            ) + rest));
                            lemma_text_member_shape(
                                n_key(),
                                v.key@,
                                text_el(n_value(), v.value@) + rest,
                            );
                            lemma_text_member_shape(n_value(), v.value@, rest);
                            lemma_content_end_scan(rest);
                        }
                    }
                    return Err(e);
                },
            };
            match c_opt {
                Option::Some(c) => {
                    if eq_bytes(c.name.as_slice(), t_key()) {
                        let t = match read_text_member(d, &c) {
                            Result::Ok(t) => t,
                            Result::Err(e) => {
                                proof {
                                    assert forall|v: Tag, rest: Seq<u8>|
                                        (orig == #[trigger] (v.content_spec() + rest)
                                            && content_end(rest)) implies false by {
                                        lemma_tag_names();
                                        assert(orig =~= text_el(n_key(), v.key@) + (text_el(
                                            n_value(),
                                            v.value@,
                                        ) + rest));
                                        lemma_text_member_shape(
                                            n_key(),
                                            v.key@,
                                            text_el(n_value(), v.value@) + rest,
                                        );
                                        lemma_text_member_shape(n_value(), v.value@, rest);
                                        lemma_content_end_scan(rest);
                                    }
                                }
                                return Err(e);
                            },
                        };
                        key_v = Option::Some(t);
                        proof {
                            assert forall|v: Tag, rest: Seq<u8>|
                                (orig == #[trigger] (v.content_spec() + rest) && content_end(
                                    rest,
                                )) implies {
                                &&& (key_v is Some && value_v is None ==> key_v->Some_0@ == v.key@
                                    && d.remaining() == text_el(n_value(), v.value@) + rest)
                                &&& (key_v is Some && value_v is Some ==> key_v->Some_0@ == v.key@
                                    && value_v->Some_0@ == v.value@ && d.remaining() == rest)
                            } by {
                                lemma_tag_names();
                                assert(orig =~= text_el(n_key(), v.key@) + (text_el(
                                    n_value(),
                                    v.value@,
                                ) + rest));
                                lemma_text_member_shape(
                                    n_key(),
                                    v.key@,
                                    text_el(n_value(), v.value@) + rest,
                                );
                                lemma_text_member_shape(n_value(), v.value@, rest);
                                lemma_content_end_scan(rest);
                            }
                        }
                    } else if eq_bytes(c.name.as_slice(), t_value()) {
                        let t = match read_text_member(d, &c) {
                            Result::Ok(t) => t,
                            Result::Err(e) => {
                                proof {
                                    assert forall|v: Tag, rest: Seq<u8>|
                                        (orig == #[trigger] (v.content_spec() + rest)
                                            && content_end(rest)) implies false by {
                                        lemma_tag_names();
                                        assert(orig =~= text_el(n_key(), v.key@) + (text_el(
                                            n_value(),
                                            v.value@,
                                        ) + rest));
                                        lemma_text_member_shape(
                                            n_key(),
                                            v.key@,
                                            text_el(n_value(), v.value@) + rest,
                                        );
                                        lemma_text_member_shape(n_value(), v.value@, rest);
                                        lemma_content_end_scan(rest);
                                    }
                                }
                                return Err(e);
                            },
                        };
                        value_v = Option::Some(t);
                        proof {
                            assert forall|v: Tag, rest: Seq<u8>|
                                (orig == #[trigger] (v.content_spec() + rest) && content_end(
                                    rest,
                                )) implies {
                                &&& (key_v is None ==> false)
                                &&& (key_v is Some ==> key_v->Some_0@ == v.key@
                                    && value_v->Some_0@ == v.value@ && d.remaining() == rest)
                            } by {
                                lemma_tag_names();
                                assert(orig =~= text_el(n_key(), v.key@) + (text_el(
                                    n_value(),
                                    v.value@,
                                ) + rest));
                                lemma_text_member_shape(
                                    n_key(),
                                    v.key@,
                                    text_el(n_value(), v.value@) + rest,
                                );
                                lemma_text_member_shape(n_value(), v.value@, rest);
                                lemma_content_end_scan(rest);
                            }
                        }
                    } else {
                        match skip_member(d, &c) {
                            Result::Ok(u) => {},
                            Result::Err(e) => {
                                proof {
                                    assert forall|v: Tag, rest: Seq<u8>|
                                        (orig == #[trigger] (v.content_spec() + rest)
                                            && content_end(rest)) implies false by {
                                        lemma_tag_names();
                                        assert(orig =~= text_el(n_key(), v.key@) + (text_el(
                                            n_value(),
                                            v.value@,
                                        ) + rest));
                                        lemma_text_member_shape(
                                            n_key(),
                                            v.key@,
                                            text_el(n_value(), v.value@) + rest,
                                        );
                                        lemma_text_member_shape(n_value(), v.value@, rest);
                                        lemma_content_end_scan(rest);
                                    }
                                }
                                return Err(e);
                            },
                        }
                        proof {
                            assert forall|v: Tag, rest: Seq<u8>|
                                (orig == #[trigger] (v.content_spec() + rest) && content_end(
                                    rest,
                                )) implies false by {
                                lemma_tag_names();
                                assert(orig =~= text_el(n_key(), v.key@) + (text_el(
                                    n_value(),
                                    v.value@,
                                ) + rest));
                                lemma_text_member_shape(
                                    n_key(),
                                    v.key@,
                                    text_el(n_value(), v.value@) + rest,
                                );
                                lemma_text_member_shape(n_value(), v.value@, rest);
                                lemma_content_end_scan(rest);
                            }
                        }
                    }
                },
                Option::None => {
                    let key = match key_v {
                        Option::Some(x) => x,
                        Option::None => {
                            proof {
                                assert forall|v: Tag, rest: Seq<u8>|
                                    (orig == #[trigger] (v.content_spec() + rest) && content_end(
                                        rest,
                                    )) implies false by {
                                    lemma_tag_names();
                                    assert(orig =~= text_el(n_key(), v.key@) + (text_el(
                                        n_value(),
                                        v.value@,
                                    ) + rest));
                                    lemma_text_member_shape(
                                        n_key(),
                                        v.key@,
                                        text_el(n_value(), v.value@) + rest,
                                    );
                                    lemma_text_member_shape(n_value(), v.value@, rest);
                                    lemma_content_end_scan(rest);
                                }
                            }
                            return Err(DeError::MissingField);
                        },
                    };
                    let value = match value_v {
                        Option::Some(x) => x,
                        Option::None => {
                            proof {
                                assert forall|v: Tag, rest: Seq<u8>|
                                    (orig == #[trigger] (v.content_spec() + rest) && content_end(
                                        rest,
                                    )) implies false by {
                                    lemma_tag_names();
                                    assert(orig =~= text_el(n_key(), v.key@) + (text_el(
                                        n_value(),
                                        v.value@,
                                    ) + rest));
                                    lemma_text_member_shape(
                                        n_key(),
                                        v.key@,
                                        text_el(n_value(), v.value@) + rest,
                                    );
                                    lemma_text_member_shape(n_value(), v.value@, rest);
                                    lemma_content_end_scan(rest);
                                }
                            }
                            return Err(DeError::MissingField);
                        },
                    };
                    let res = Tag { key, value };
                    proof {
                        assert forall|v: Tag, rest: Seq<u8>|
                            (orig == #[trigger] (v.content_spec() + rest) && content_end(
                                rest,
                            )) implies (res.key@ == v.key@ && res.value@ == v.value@
                            && d.remaining() == rest) by {
                            lemma_tag_names();
                            assert(orig =~= text_el(n_key(), v.key@) + (text_el(
                                n_value(),
                                v.value@,
                            ) + rest));
                            lemma_text_member_shape(
                                n_key(),
                                v.key@,
                                text_el(n_value(), v.value@) + rest,
                            );
                            lemma_text_member_shape(n_value(), v.value@, rest);
                            lemma_content_end_scan(rest);
                        }
                    }
                    return Ok(res);
                },
            }
        }
    }
}

impl DeserializeContent for Tag {
    fn deserialize_content<'a>(d: &mut Deserializer<'a>) -> (r: DeResult<Self>) {
        Tag::read_content(d)
    }
}

/// A tag set, the body of object- and bucket-tagging requests.
#[derive(Debug, Clone, PartialEq, Eq)]
pub struct Tagging {
    pub tag_set: Vec<Tag>,
}

impl SerializeContent for Tagging {
    open spec fn content_spec(&self) -> Seq<u8> {
        element(n_tag_set(), flat_list_spec(n_tag(), self.tag_set@))
    }

    fn serialize_content(&self, s: &mut Serializer) {
        let ghost orig = s@;
        s.begin(t_tag_set());
        serialize_flat_list(s, t_tag(), &self.tag_set);
        s.end(t_tag_set());
        proof {
            assert(s@ =~= orig + self.content_spec());
        }
    }
}

impl Serialize for Tagging {
    open spec fn full_spec(&self) -> Seq<u8> {
        element_ns(n_tagging(), n_s3_ns(), self.content_spec())
    }

    #[verifier::rlimit(60)]
    fn serialize(&self, s: &mut Serializer) {
        let ghost orig = s@;
        s.begin_ns(t_tagging(), t_s3_ns());
        self.serialize_content(s);
        s.end(t_tagging());
        proof {
            assert(s@ =~= orig + self.full_spec());
        }
    }
}

/// Name-byte and distinctness facts about the tag-set member names.
proof fn lemma_tagging_names()
    ensures
        n_tag_set().len() >= 1,
        n_tag().len() >= 1,
        forall|i: int| 0 <= i < n_tag_set().len() ==> is_name_byte(#[trigger] n_tag_set()[i]),
        forall|i: int| 0 <= i < n_tag().len() ==> is_name_byte(#[trigger] n_tag()[i]),
        n_tag_set() != n_tag(),
{
    assert(n_tag_set().len() != n_tag().len());
}

/// A closing tag is a point where content decoding stops.
proof fn lemma_close_is_content_end(name: Seq<u8>, more: Seq<u8>)
    ensures
        content_end(close_tag(name) + more),
{
    let s = close_tag(name) + more;
    assert(s[0] == LT);
    assert(s[1] == SLASH);
}

/// Unfolding one item of an encoded flattened tag list: the scans read the
/// item's open tag, its content follows, then its close tag and the rest of
/// the list.
proof fn lemma_flat_head(items: Seq<Tag>, k: int, more: Seq<u8>)
    requires
        0 <= k < items.len(),
    ensures
        ({
            let s = flat_list_spec(n_tag(), items.skip(k)) + more;
            let tail = flat_list_spec(n_tag(), items.skip(k + 1)) + more;
            &&& child_scan(s) == Some((Some((n_tag(), false)), open_tag(n_tag()).len() as nat))
            &&& s.skip(open_tag(n_tag()).len() as int) == items[k].content_spec() + (close_tag(
                n_tag(),
            ) + tail)
            &&& content_end(close_tag(n_tag()) + tail)
        }),
{
    lemma_tagging_names();
    let m = items.skip(k);
    let tail = flat_list_spec(n_tag(), items.skip(k + 1)) + more;
    assert(m[0] == items[k]);
    assert(m.skip(1) =~= items.skip(k + 1));
    assert(flat_list_spec(n_tag(), m) + more =~= element(n_tag(), items[k].content_spec())
        + tail);
    lemma_element_open_shape(n_tag(), items[k].content_spec(), tail);
    lemma_close_is_content_end(n_tag(), tail);
}

/// How the scans evaluate on encoded tag-set content followed by the end of
/// the enclosing content.
proof fn lemma_tagging_wire(v: Tagging, rest: Seq<u8>)
    requires
        content_end(rest),
    ensures
        ({
            let s = v.content_spec() + rest;
            &&& child_scan(s) == Some(
                (Some((n_tag_set(), false)), open_tag(n_tag_set()).len() as nat),
            )
            &&& s.skip(open_tag(n_tag_set()).len() as int) == flat_list_spec(
                n_tag(),
                v.tag_set@,
            ) + (close_tag(n_tag_set()) + rest)
            &&& child_scan(rest) == Some((Option::<(Seq<u8>, bool)>::None, 0 as nat))
            &&& rest.skip(0) == rest
            &&& v.tag_set@.skip(0) == v.tag_set@
        }),
{
    lemma_tagging_names();
    lemma_element_open_shape(n_tag_set(), flat_list_spec(n_tag(), v.tag_set@), rest);
    lemma_content_end_scan(rest);
    assert(v.tag_set@.skip(0) =~= v.tag_set@);
}

impl Tagging {
    /// Decode tag-set content: the required `TagSet` wrapper holding the
    /// repeated `Tag` items, unknown members skipped.
    ///
    /// Round-trip: the exact content encoding of any value, followed by the
    /// end of the enclosing content, decodes back to a tag list of the same
    /// length whose items carry the same keys and values, consuming exactly
    /// the encoding.
    #[verifier::rlimit(100)]
    pub fn read_content<'a>(d: &mut Deserializer<'a>) -> (r: DeResult<Tagging>)
        requires
            old(d).wf(),
        ensures
            final(d).wf(),
            final(d).remaining().len() <= old(d).remaining().len(),
            forall|v: Tagging, rest: Seq<u8>|
                (old(d).remaining() == #[trigger] (v.content_spec() + rest) && content_end(rest))
                    ==> (r matches Ok(res) && res.tag_set@.len() == v.tag_set@.len() && (forall|
                    j: int,
                |
                    0 <= j < v.tag_set@.len() ==> (#[trigger] res.tag_set@[j]).key@
                        == v.tag_set@[j].key@ && res.tag_set@[j].value@ == v.tag_set@[j].value@)
                    && final(d).remaining() == rest),
    {
        let ghost orig = d.remaining();
        let mut tag_set_v: Option<Vec<Tag>> = Option::None;
        loop
            invariant
                d.wf(),
                d.remaining().len() <= old(d).remaining().len(),
                orig == old(d).remaining(),
                forall|v: Tagging, rest: Seq<u8>|
                    (orig == #[trigger] (v.content_spec() + rest) && content_end(rest)) ==> {
                        &&& (tag_set_v is None ==> d.remaining() == v.content_spec() + rest)
                        &&& (tag_set_v is Some ==> tag_set_v->Some_0@.len() == v.tag_set@.len() && (
                        forall|j: int|
                            0 <= j < v.tag_set@.len() ==> (
                            #[trigger] tag_set_v->Some_0@[j]).key@ == v.tag_set@[j].key@
                                && tag_set_v->Some_0@[j].value@ == v.tag_set@[j].value@)
                            && d.remaining() == rest)
                    },
            decreases d.remaining().len(),
        {
            let ghost cur = d.remaining();
            let c_opt = match d.read_child_open() {
                Result::Ok(x) => x,
                Result::Err(e) => {
                    proof {
                        assert forall|v: Tagging, rest: Seq<u8>|
                            (orig == #[trigger] (v.content_spec() + rest) && content_end(
                                rest,
                            )) implies false by {
                            lemma_tagging_wire(v, rest);
                        }
                    }
                    return Err(e);
                },
            };
            match c_opt {
                Option::Some(c) => {
                    if eq_bytes(c.name.as_slice(), t_tag_set()) && !c.self_closed {
                        let mut items: Vec<Tag> = Vec::new();
                        let ghost arm_len = d.remaining().len();
                        proof {
                            assert forall|v: Tagging, rest: Seq<u8>|
                                (orig == #[trigger] (v.content_spec() + rest) && content_end(
                                    rest,
                                )) implies (items@.len() <= v.tag_set@.len() && d.remaining()
                                == flat_list_spec(n_tag(), v.tag_set@.skip(items@.len() as int)) + (
                            close_tag(n_tag_set()) + rest)) by {
                                lemma_tagging_wire(v, rest);
                            }
                        }
                        loop
                            invariant
                                d.wf(),
                                d.remaining().len() <= arm_len,
                                arm_len <= old(d).remaining().len(),
                                orig == old(d).remaining(),
                                forall|v: Tagging, rest: Seq<u8>|
                                    (orig == #[trigger] (v.content_spec() + rest) && content_end(
                                        rest,
                                    )) ==> {
                                        &&& items@.len() <= v.tag_set@.len()
                                        &&& (forall|j: int|
                                            0 <= j < items@.len() ==> (
                                            #[trigger] items@[j]).key@ == v.tag_set@[j].key@
                                                && items@[j].value@ == v.tag_set@[j].value@)
                                        &&& d.remaining() == flat_list_spec(
                                            n_tag(),
                                            v.tag_set@.skip(items@.len() as int),
                                        ) + (close_tag(n_tag_set()) + rest)
                                    },
                            ensures
                                d.wf(),
                                d.remaining().len() <= arm_len,
                                arm_len <= old(d).remaining().len(),
                                orig == old(d).remaining(),
                                forall|v: Tagging, rest: Seq<u8>|
                                    (orig == #[trigger] (v.content_spec() + rest) && content_end(
                                        rest,
                                    )) ==> (items@.len() == v.tag_set@.len() && (forall|j: int|
                                        0 <= j < items@.len() ==> (#[trigger] items@[j]).key@
                                            == v.tag_set@[j].key@ && items@[j].value@
                                            == v.tag_set@[j].value@) && d.remaining() == close_tag(
                                        n_tag_set(),
                                    ) + rest),
                            decreases d.remaining().len(),
                        {
                            let ghost icur = d.remaining();
                            let ghost k = items@.len() as int;
                            let ic_opt = match d.read_child_open() {
                                Result::Ok(x) => x,
                                Result::Err(e) => {
                                    proof {
                                        assert forall|v: Tagging, rest: Seq<u8>|
                                            (orig == #[trigger] (v.content_spec() + rest)
                                                && content_end(rest)) implies false by {
                                            lemma_tagging_wire(v, rest);
                                            if k < v.tag_set@.len() {
                                                lemma_flat_head(
                                                    v.tag_set@,
                                                    k,
                                                    close_tag(n_tag_set()) + rest,
                                                );
                                            } else {
                                                assert(v.tag_set@.skip(k) =~= Seq::<Tag>::empty());
                                                assert(icur =~= close_tag(n_tag_set()) + rest);
                                                lemma_close_is_content_end(n_tag_set(), rest);
                                                lemma_content_end_scan(icur);
                                            }
                                        }
                                    }
                                    return Err(e);
                                },
                            };
                            match ic_opt {
                                Option::Some(ic) => {
                                    if eq_bytes(ic.name.as_slice(), t_tag()) && !ic.self_closed {
                                        let tv = match Tag::read_content(d) {
                                            Result::Ok(x) => x,
                                            Result::Err(e) => {
                                                proof {
                                                    assert forall|v: Tagging, rest: Seq<u8>|
                                                        (orig == #[trigger] (v.content_spec()
                                                            + rest) && content_end(
                                                            rest,
                                                        )) implies false by {
                                                        lemma_tagging_wire(v, rest);
                                                        if k < v.tag_set@.len() {
                                                            lemma_flat_head(
                                                                v.tag_set@,
                                                                k,
                                                                close_tag(n_tag_set()) + rest,
                                                            );
                                                        } else {
                                                            assert(v.tag_set@.skip(k)
                                                                =~= Seq::<Tag>::empty());
                                                            assert(icur =~= close_tag(n_tag_set())
                                                                + rest);
                                                            lemma_close_is_content_end(
                                                                n_tag_set(),
                                                                rest,
                                                            );
                                                            lemma_content_end_scan(icur);
                                                        }
                                                    }
                                                }
                                                return Err(e);
                                            },
                                        };
                                        let res_close = d.expect_close(t_tag());
                                        match res_close {
                                            Result::Ok(u) => {},
                                            Result::Err(e) => {
                                                proof {
                                                    assert forall|v: Tagging, rest: Seq<u8>|
                                                        (orig == #[trigger] (v.content_spec()
                                                            + rest) && content_end(
                                                            rest,
                                                        )) implies false by {
                                                        lemma_tagging_wire(v, rest);
                                                        if k < v.tag_set@.len() {
                                                            lemma_flat_head(
                                                                v.tag_set@,
                                                                k,
                                                                close_tag(n_tag_set()) + rest,
                                                            );
                                                            lemma_close_shape(
                                                                n_tag(),
                                                                flat_list_spec(
                                                                    n_tag(),
                                                                    v.tag_set@.skip(k + 1),
                                                                ) + (close_tag(n_tag_set())
                                                                    + rest),
                                                            );
                                                        } else {
                                                            assert(v.tag_set@.skip(k)
                                                                =~= Seq::<Tag>::empty());
                                                            assert(icur =~= close_tag(n_tag_set())
                                                                + rest);
                                                            lemma_close_is_content_end(
                                                                n_tag_set(),
                                                                rest,
                                                            );
                                                            lemma_content_end_scan(icur);
                                                        }
                                                    }
                                                }
                                                return Err(e);
                                            },
                                        }
                                        items.push(tv);
                                        proof {
                                            assert forall|v: Tagging, rest: Seq<u8>|
                                                (orig == #[trigger] (v.content_spec() + rest)
                                                    && content_end(rest)) implies {
                                                &&& items@.len() <= v.tag_set@.len()
                                                &&& (forall|j: int|
                                                    0 <= j < items@.len() ==> (
                                                    #[trigger] items@[j]).key@
                                                        == v.tag_set@[j].key@ && items@[j].value@
                                                        == v.tag_set@[j].value@)
                                                &&& d.remaining() == flat_list_spec(
                                                    n_tag(),
                                                    v.tag_set@.skip(items@.len() as int),
                                                ) + (close_tag(n_tag_set()) + rest)
                                            } by {
                                                lemma_tagging_wire(v, rest);
                                                if k < v.tag_set@.len() {
                                                    lemma_flat_head(
                                                        v.tag_set@,
                                                        k,
                                                        close_tag(n_tag_set()) + rest,
                                                    );
                                                    lemma_close_shape(
                                                        n_tag(),
                                                        flat_list_spec(
                                                            n_tag(),
                                                            v.tag_set@.skip(k + 1),
                                                        ) + (close_tag(n_tag_set()) + rest),
                                                    );
                                                    assert(items@[k] == tv);
                                                } else {
                                                    assert(v.tag_set@.skip(k)
                                                        =~= Seq::<Tag>::empty());
                                                    assert(icur =~= close_tag(n_tag_set()) + rest);
                                                    lemma_close_is_content_end(n_tag_set(), rest);
                                                    lemma_content_end_scan(icur);
                                                }
                                            }
                                        }
                                    } else {
                                        match skip_member(d, &ic) {
                                            Result::Ok(u) => {},
                                            Result::Err(e) => {
                                                proof {
                                                    assert forall|v: Tagging, rest: Seq<u8>|
                                                        (orig == #[trigger] (v.content_spec()
                                                            + rest) && content_end(
                                                            rest,
                                                        )) implies false by {
                                                        lemma_tagging_wire(v, rest);
                                                        if k < v.tag_set@.len() {
                                                            lemma_flat_head(
                                                                v.tag_set@,
                                                                k,
                                                                close_tag(n_tag_set()) + rest,
                                                            );
                                                        } else {
                                                            assert(v.tag_set@.skip(k)
                                                                =~= Seq::<Tag>::empty());
                                                            assert(icur =~= close_tag(n_tag_set())
                                                                + rest);
                                                            lemma_close_is_content_end(
                                                                n_tag_set(),
                                                                rest,
                                                            );
                                                            lemma_content_end_scan(icur);
                                                        }
                                                    }
                                                }
                                                return Err(e);
                                            },
                                        }
                                        proof {
                                            assert forall|v: Tagging, rest: Seq<u8>|
                                                (orig == #[trigger] (v.content_spec() + rest)
                                                    && content_end(rest)) implies false by {
                                                lemma_tagging_wire(v, rest);
                                                if k < v.tag_set@.len() {
                                                    lemma_flat_head(
                                                        v.tag_set@,
                                                        k,
                                                        close_tag(n_tag_set()) + rest,
                                                    );
                                                } else {
                                                    assert(v.tag_set@.skip(k)
                                                        =~= Seq::<Tag>::empty());
                                                    assert(icur =~= close_tag(n_tag_set()) + rest);
                                                    lemma_close_is_content_end(n_tag_set(), rest);
                                                    lemma_content_end_scan(icur);
                                                }
                                            }
                                        }
                                    }
                                },
                                Option::None => {
                                    proof {
                                        assert forall|v: Tagging, rest: Seq<u8>|
                                            (orig == #[trigger] (v.content_spec() + rest)
                                                && content_end(rest)) implies (items@.len()
                                            == v.tag_set@.len() && d.remaining() == close_tag(
                                            n_tag_set(),
                                        ) + rest) by {
                                            lemma_tagging_wire(v, rest);
                                            if k < v.tag_set@.len() {
                                                lemma_flat_head(
                                                    v.tag_set@,
                                                    k,
                                                    close_tag(n_tag_set()) + rest,
                                                );
                                            } else {
                                                assert(v.tag_set@.skip(k) =~= Seq::<Tag>::empty());
                                                assert(icur =~= close_tag(n_tag_set()) + rest);
                                                lemma_close_is_content_end(n_tag_set(), rest);
                                                lemma_content_end_scan(icur);
                                                assert(icur.skip(0) =~= icur);
                                            }
                                        }
                                    }
                                    break;
                                },
                            }
                        }
                        let close_res = d.expect_close(t_tag_set());
                        match close_res {
                            Result::Ok(u) => {},
                            Result::Err(e) => {
                                proof {
                                    assert forall|v: Tagging, rest: Seq<u8>|
                                        (orig == #[trigger] (v.content_spec() + rest)
                                            && content_end(rest)) implies false by {
                                        lemma_tagging_names();
                                        lemma_close_shape(n_tag_set(), rest);
                                    }
                                }
                                return Err(e);
                            },
                        }
                        tag_set_v = Option::Some(items);
                        proof {
                            assert forall|v: Tagging, rest: Seq<u8>|
                                (orig == #[trigger] (v.content_spec() + rest) && content_end(
                                    rest,
                                )) implies (tag_set_v->Some_0@.len() == v.tag_set@.len() && (
                            forall|j: int|
                                0 <= j < v.tag_set@.len() ==> (
                                #[trigger] tag_set_v->Some_0@[j]).key@ == v.tag_set@[j].key@
                                    && tag_set_v->Some_0@[j].value@ == v.tag_set@[j].value@)
                                && d.remaining() == rest) by {
                                lemma_tagging_names();
                                lemma_close_shape(n_tag_set(), rest);
                            }
                        }
                    } else {
                        let skipped = if c.self_closed {
                            Result::<(), DeError>::Ok(())
                        } else {
                            d.skip_element()
                        };
                        match skipped {
                            Result::Ok(u) => {},
                            Result::Err(e) => {
                                proof {
                                    assert forall|v: Tagging, rest: Seq<u8>|
                                        (orig == #[trigger] (v.content_spec() + rest)
                                            && content_end(rest)) implies false by {
                                        lemma_tagging_wire(v, rest);
                                    }
                                }
                                return Err(e);
                            },
                        }
                        proof {
                            assert forall|v: Tagging, rest: Seq<u8>|
                                (orig == #[trigger] (v.content_spec() + rest) && content_end(
                                    rest,
                                )) implies false by {
                                lemma_tagging_wire(v, rest);
                            }
                        }
                    }
                },
                Option::None => {
                    let tag_set = match tag_set_v {
                        Option::Some(x) => x,
                        Option::None => {
                            proof {
                                assert forall|v: Tagging, rest: Seq<u8>|
                                    (orig == #[trigger] (v.content_spec() + rest) && content_end(
                                        rest,
                                    )) implies false by {
                                    lemma_tagging_wire(v, rest);
                                }
                            }
                            return Err(DeError::MissingField);
                        },
                    };
                    let res = Tagging { tag_set };
                    proof {
                        assert forall|v: Tagging, rest: Seq<u8>|
                            (orig == #[trigger] (v.content_spec() + rest) && content_end(
                                rest,
                            )) implies (res.tag_set@.len() == v.tag_set@.len() && (forall|j: int|
                            0 <= j < v.tag_set@.len() ==> (#[trigger] res.tag_set@[j]).key@
                                == v.tag_set@[j].key@ && res.tag_set@[j].value@
                                == v.tag_set@[j].value@) && d.remaining() == rest) by {
                            lemma_tagging_wire(v, rest);
                        }
                    }
                    return Ok(res);
                },
            }
        }
    }
}

impl DeserializeContent for Tagging {
    fn deserialize_content<'a>(d: &mut Deserializer<'a>) -> (r: DeResult<Self>) {
        Tagging::read_content(d)
    }
}

impl Deserialize for Tagging {
    fn deserialize<'a>(d: &mut Deserializer<'a>) -> (r: DeResult<Self>) {
        let sc = match d.read_root_open(t_tagging()) {
            Result::Ok(b) => b,
            Result::Err(e) => return Err(e),
        };
        if sc {
            return decode_empty_content::<Tagging>();
        }
        let v = match Tagging::deserialize_content(d) {
            Result::Ok(v) => v,
            Result::Err(e) => return Err(e),
        };
        match d.expect_close(t_tagging()) {
            Result::Ok(u) => Ok(v),
            Result::Err(e) => Err(e),
        }
    }
}

/// Expiration settings of a lifecycle rule.
#[derive(Debug, Clone, PartialEq, Eq)]
pub struct LifecycleExpiration {
    pub date: Option<Vec<u8>>,
    pub days: Option<i32>,
    pub expired_object_delete_marker: Option<bool>,
}

impl SerializeContent for LifecycleExpiration {
    open spec fn content_spec(&self) -> Seq<u8> {
        opt_text_el(n_date(), opt_view(self.date))
            + opt_int_el(n_days(), opt_i32_view(self.days))
            + opt_bool_el(n_expired_object_delete_marker(), self.expired_object_delete_marker)
    }

    fn serialize_content(&self, s: &mut Serializer) {
        let ghost orig = s@;
        write_opt_text(s, t_date(), &self.date);
        write_opt_i32(s, t_days(), self.days);
        write_opt_bool(s, t_expired_object_delete_marker(), self.expired_object_delete_marker);
        proof {
            assert(s@ =~= orig + self.content_spec());
        }
    }
}

impl LifecycleExpiration {
    /// Structurally valid: extension values hold only unrecognized text, and
    /// a present flattened list is non-empty (an empty one is
    /// indistinguishable on the wire from an absent member).
    pub open spec fn valid(&self) -> bool {
        true
    }

    /// Member-wise agreement: scalar members equal as values, text members
    /// equal as byte strings, enumerated members equal as wire strings on the
    /// same side of the known/extension split, nested members agreeing
    /// member-wise.
    pub open spec fn same_model(&self, other: &LifecycleExpiration) -> bool {
        &&& opt_view(self.date) == opt_view(other.date)
        &&& self.days == other.days
        &&& self.expired_object_delete_marker == other.expired_object_delete_marker
    }
}

/// The content encoding of the members from index `i` on.
pub open spec fn suffix_lifecycle_expiration(v: LifecycleExpiration, i: int) -> Seq<u8> {
    if i <= 0 {
        opt_text_el(n_date(), opt_view(v.date)) + (opt_int_el(n_days(), opt_i32_view(v.days)) + (opt_bool_el(n_expired_object_delete_marker(), v.expired_object_delete_marker) + (Seq::empty())))
    } else if i <= 1 {
        opt_int_el(n_days(), opt_i32_view(v.days)) + (opt_bool_el(n_expired_object_delete_marker(), v.expired_object_delete_marker) + (Seq::empty()))
    } else if i <= 2 {
        opt_bool_el(n_expired_object_delete_marker(), v.expired_object_delete_marker) + (Seq::empty())
    } else {
        Seq::empty()
    }
}

/// The first member at or after `i` that the next child element can belong
/// to.
pub open spec fn next_member_lifecycle_expiration(v: LifecycleExpiration, i: int) -> int {
    if i <= 0 && (v.date is Some) {
        0
    } else if i <= 1 && (v.days is Some) {
        1
    } else if i <= 2 && (v.expired_object_delete_marker is Some) {
        2
    } else {
        3
    }
}

/// What the decoder's state says after the members before `i` have been
/// dealt with.
pub open spec fn settled_lifecycle_expiration(v: LifecycleExpiration, i: int, date_s: Option<Vec<u8>>, days_s: Option<i32>, expired_object_delete_marker_s: Option<bool>) -> bool {
    &&& (0 < i ==> opt_view(date_s) == opt_view(v.date))
    &&& (0 >= i ==> date_s is None)
    &&& (1 < i ==> days_s == v.days)
    &&& (1 >= i ==> days_s is None)
    &&& (2 < i ==> expired_object_delete_marker_s == v.expired_object_delete_marker)
    &&& (2 >= i ==> expired_object_delete_marker_s is None)
}

proof fn lemma_lifecycle_expiration_names()
    ensures
        n_date().len() >= 1,
        forall|ii: int| 0 <= ii < n_date().len() ==> is_name_byte(#[trigger] n_date()[ii]),
        n_days().len() >= 1,
        forall|ii: int| 0 <= ii < n_days().len() ==> is_name_byte(#[trigger] n_days()[ii]),
        n_expired_object_delete_marker().len() >= 1,
        forall|ii: int| 0 <= ii < n_expired_object_delete_marker().len() ==> is_name_byte(#[trigger] n_expired_object_delete_marker()[ii]),
        n_date() != n_days(),
        n_date() != n_expired_object_delete_marker(),
        n_days() != n_expired_object_delete_marker(),
{
    assert(n_date()[2] == 0x74 && n_days()[2] == 0x79);
    assert(n_date().len() != n_expired_object_delete_marker().len());
    assert(n_days().len() != n_expired_object_delete_marker().len());
}

#[verifier::rlimit(100)]
proof fn lemma_lifecycle_expiration_at(v: LifecycleExpiration, rest: Seq<u8>, i: int, cur: Seq<u8>)
    requires
        0 <= i <= 3,
        content_end(rest),
        cur == suffix_lifecycle_expiration(v, i) + rest,
    ensures
        ({
            let p = next_member_lifecycle_expiration(v, i);
            &&& i <= p <= 3
            &&& (i <= 0 && 0 < p ==> v.date is None)
            &&& (i <= 1 && 1 < p ==> v.days is None)
            &&& (i <= 2 && 2 < p ==> v.expired_object_delete_marker is None)
            &&& (p == 0 ==> ({
                let s1 = cur.skip(open_tag(n_date()).len() as int);
                let m = escape_seq(v.date->Some_0@).len() as int;
                &&& v.date is Some
                &&& child_scan(cur) == Some((Some((n_date(), false)), open_tag(n_date()).len() as nat))
                &&& until_count(s1, LT) == m
                &&& unescape_seq(s1.take(m)) == Some(v.date->Some_0@)
                &&& close_scan(s1.skip(m), n_date()) == Some((n_date().len() + 3) as nat)
                &&& s1.skip(m).skip(n_date().len() as int + 3) == suffix_lifecycle_expiration(v, 1) + rest
            }))
            &&& (p == 1 ==> ({
                let s1 = cur.skip(open_tag(n_days()).len() as int);
                let m = escape_seq(int_text(v.days->Some_0 as int)).len() as int;
                &&& v.days is Some
                &&& child_scan(cur) == Some((Some((n_days(), false)), open_tag(n_days()).len() as nat))
                &&& until_count(s1, LT) == m
                &&& unescape_seq(s1.take(m)) == Some(int_text(v.days->Some_0 as int))
                &&& close_scan(s1.skip(m), n_days()) == Some((n_days().len() + 3) as nat)
                &&& s1.skip(m).skip(n_days().len() as int + 3) == suffix_lifecycle_expiration(v, 2) + rest
            }))
            &&& (p == 2 ==> ({
                let s1 = cur.skip(open_tag(n_expired_object_delete_marker()).len() as int);
                let m = escape_seq(bool_text(v.expired_object_delete_marker->Some_0)).len() as int;
                &&& v.expired_object_delete_marker is Some
                &&& child_scan(cur) == Some((Some((n_expired_object_delete_marker(), false)), open_tag(n_expired_object_delete_marker()).len() as nat))
                &&& until_count(s1, LT) == m
                &&& unescape_seq(s1.take(m)) == Some(bool_text(v.expired_object_delete_marker->Some_0))
                &&& close_scan(s1.skip(m), n_expired_object_delete_marker()) == Some((n_expired_object_delete_marker().len() + 3) as nat)
                &&& s1.skip(m).skip(n_expired_object_delete_marker().len() as int + 3) == suffix_lifecycle_expiration(v, 3) + rest
            }))
            &&& (p == 3 ==> cur == rest && child_scan(cur) == Some((Option::<(Seq<u8>, bool)>::None, 0 as nat)) && rest.skip(0) == rest)
        }),
    decreases 3 - i,
{
    lemma_lifecycle_expiration_names();
    if i == 3 {
        assert(suffix_lifecycle_expiration(v, 3) + rest =~= rest);
        assert(cur == rest);
        lemma_content_end_scan(rest);
    } else {
        if i == 0 {
            if v.date is Some {
                assert(suffix_lifecycle_expiration(v, 0) =~= text_el(n_date(), v.date->Some_0@) + suffix_lifecycle_expiration(v, 1));
                assert(cur =~= text_el(n_date(), v.date->Some_0@) + (suffix_lifecycle_expiration(v, 1) + rest));
                lemma_text_member_shape(n_date(), v.date->Some_0@, suffix_lifecycle_expiration(v, 1) + rest);
            } else {
                assert(suffix_lifecycle_expiration(v, 0) =~= suffix_lifecycle_expiration(v, 1));
                assert(suffix_lifecycle_expiration(v, 0) + rest == suffix_lifecycle_expiration(v, 1) + rest);
                lemma_lifecycle_expiration_at(v, rest, 1, cur);
            }
        } else if i == 1 {
            if v.days is Some {
                lemma_int_text_unescaped(v.days->Some_0 as int);
                assert(suffix_lifecycle_expiration(v, 1) =~= text_el(n_days(), int_text(v.days->Some_0 as int)) + suffix_lifecycle_expiration(v, 2));
                assert(cur =~= text_el(n_days(), int_text(v.days->Some_0 as int)) + (suffix_lifecycle_expiration(v, 2) + rest));
                lemma_text_member_shape(n_days(), int_text(v.days->Some_0 as int), suffix_lifecycle_expiration(v, 2) + rest);
            } else {
                assert(suffix_lifecycle_expiration(v, 1) =~= suffix_lifecycle_expiration(v, 2));
                assert(suffix_lifecycle_expiration(v, 1) + rest == suffix_lifecycle_expiration(v, 2) + rest);
                lemma_lifecycle_expiration_at(v, rest, 2, cur);
            }
        } else if i == 2 {
            if v.expired_object_delete_marker is Some {
                lemma_bool_text_unescaped(v.expired_object_delete_marker->Some_0);
                assert(suffix_lifecycle_expiration(v, 2) =~= text_el(n_expired_object_delete_marker(), bool_text(v.expired_object_delete_marker->Some_0)) + suffix_lifecycle_expiration(v, 3));
                assert(cur =~= text_el(n_expired_object_delete_marker(), bool_text(v.expired_object_delete_marker->Some_0)) + (suffix_lifecycle_expiration(v, 3) + rest));
                lemma_text_member_shape(n_expired_object_delete_marker(), bool_text(v.expired_object_delete_marker->Some_0), suffix_lifecycle_expiration(v, 3) + rest);
            } else {
                assert(suffix_lifecycle_expiration(v, 2) =~= suffix_lifecycle_expiration(v, 3));
                assert(suffix_lifecycle_expiration(v, 2) + rest == suffix_lifecycle_expiration(v, 3) + rest);
                lemma_lifecycle_expiration_at(v, rest, 3, cur);
            }
        }
    }
}

impl LifecycleExpiration {
    /// Decode this type's element content: members in any order, unknown
    /// members skipped, required members demanded.
    ///
    /// Round-trip: the exact content encoding of any structurally valid
    /// value, followed by the end of the enclosing content, decodes back to
    /// a value with the same members, consuming exactly the encoding.
    #[verifier::rlimit(100)]
    pub fn read_content<'a>(d: &mut Deserializer<'a>) -> (r: DeResult<LifecycleExpiration>)
        requires
            old(d).wf(),
        ensures
            final(d).wf(),
            final(d).remaining().len() <= old(d).remaining().len(),
            forall|v: LifecycleExpiration, rest: Seq<u8>|
                (v.valid() && old(d).remaining() == #[trigger] (v.content_spec() + rest)
                    && content_end(rest)) ==> (r matches Ok(res) && v.same_model(&res)
                    && final(d).remaining() == rest),
    {
        let ghost orig = d.remaining();
        let mut date_v: Option<Vec<u8>> = Option::None;
        let mut days_v: Option<i32> = Option::None;
        let mut expired_object_delete_marker_v: Option<bool> = Option::None;
        proof {
            assert forall|v: LifecycleExpiration, rest: Seq<u8>|
                (v.valid() && orig == #[trigger] (v.content_spec() + rest) && content_end(rest)) implies exists|i: int|
                0 <= i <= 3 && orig == (#[trigger] suffix_lifecycle_expiration(v, i)) + rest
                    && settled_lifecycle_expiration(v, i, date_v, days_v, expired_object_delete_marker_v) by {
                    assert(v.content_spec() =~= suffix_lifecycle_expiration(v, 0));
                    assert(0 <= 0 <= 3 && orig == suffix_lifecycle_expiration(v, 0) + rest && settled_lifecycle_expiration(v, 0, date_v, days_v, expired_object_delete_marker_v));
            }
        }
        loop
            invariant
                d.wf(),
                d.remaining().len() <= old(d).remaining().len(),
                orig == old(d).remaining(),
                forall|v: LifecycleExpiration, rest: Seq<u8>|
                    (v.valid() && orig == #[trigger] (v.content_spec() + rest) && content_end(
                        rest,
                    )) ==> exists|i: int|
                        0 <= i <= 3 && d.remaining() == (#[trigger] suffix_lifecycle_expiration(v, i))
                            + rest && settled_lifecycle_expiration(v, i, date_v, days_v, expired_object_delete_marker_v),
            decreases d.remaining().len(),
        {
            let ghost cur = d.remaining();
            let ghost g_date = date_v;
            let ghost g_days = days_v;
            let ghost g_expired_object_delete_marker = expired_object_delete_marker_v;
            let c_opt = match d.read_child_open() {
                Result::Ok(x) => x,
                Result::Err(e) => {
                    proof {
                        assert forall|v: LifecycleExpiration, rest: Seq<u8>|
                    (v.valid() && orig == #[trigger] (v.content_spec() + rest) && content_end(rest)) implies false by {
                        let i0 = choose|i: int| 0 <= i <= 3 && cur == (#[trigger] suffix_lifecycle_expiration(v, i)) + rest && settled_lifecycle_expiration(v, i, g_date, g_days, g_expired_object_delete_marker);
                        lemma_lifecycle_expiration_at(v, rest, i0, cur);
                }
                    }
                    return Err(e);
                },
            };
            match c_opt {
                Option::Some(c) => {
                    if eq_bytes(c.name.as_slice(), t_date()) {
                        let t = match read_text_member(d, &c) {
                            Result::Ok(t) => t,
                            Result::Err(e) => {
                                proof {
                                    assert forall|v: LifecycleExpiration, rest: Seq<u8>|
                    (v.valid() && orig == #[trigger] (v.content_spec() + rest) && content_end(rest)) implies false by {
                        let i0 = choose|i: int| 0 <= i <= 3 && cur == (#[trigger] suffix_lifecycle_expiration(v, i)) + rest && settled_lifecycle_expiration(v, i, g_date, g_days, g_expired_object_delete_marker);
                        lemma_lifecycle_expiration_at(v, rest, i0, cur);
                }
                                }
                                return Err(e);
                            },
                        };
                        date_v = Option::Some(t);
                        proof {
                            assert forall|v: LifecycleExpiration, rest: Seq<u8>|
                    (v.valid() && orig == #[trigger] (v.content_spec() + rest) && content_end(rest)) implies exists|i: int|
                    0 <= i <= 3 && d.remaining() == (#[trigger] suffix_lifecycle_expiration(v, i)) + rest
                        && settled_lifecycle_expiration(v, i, date_v, days_v, expired_object_delete_marker_v) by {
                        let i0 = choose|i: int| 0 <= i <= 3 && cur == (#[trigger] suffix_lifecycle_expiration(v, i)) + rest && settled_lifecycle_expiration(v, i, g_date, g_days, g_expired_object_delete_marker);
                        lemma_lifecycle_expiration_at(v, rest, i0, cur);
                        assert(next_member_lifecycle_expiration(v, i0) == 0);
                        assert(0 <= 1 <= 3 && d.remaining() == suffix_lifecycle_expiration(v, 1) + rest && settled_lifecycle_expiration(v, 1, date_v, days_v, expired_object_delete_marker_v));
                }
                        }
                    } else if eq_bytes(c.name.as_slice(), t_days()) {
                        let t = match read_text_member(d, &c) {
                            Result::Ok(t) => t,
                            Result::Err(e) => {
                                proof {
                                    assert forall|v: LifecycleExpiration, rest: Seq<u8>|
                    (v.valid() && orig == #[trigger] (v.content_spec() + rest) && content_end(rest)) implies false by {
                        let i0 = choose|i: int| 0 <= i <= 3 && cur == (#[trigger] suffix_lifecycle_expiration(v, i)) + rest && settled_lifecycle_expiration(v, i, g_date, g_days, g_expired_object_delete_marker);
                        lemma_lifecycle_expiration_at(v, rest, i0, cur);
                }
                                }
                                return Err(e);
                            },
                        };
                        match parse_i32(t.as_slice()) {
                            Option::Some(x) => { days_v = Option::Some(x); },
                            Option::None => {
                                proof {
                                    assert forall|v: LifecycleExpiration, rest: Seq<u8>|
                    (v.valid() && orig == #[trigger] (v.content_spec() + rest) && content_end(rest)) implies false by {
                        let i0 = choose|i: int| 0 <= i <= 3 && cur == (#[trigger] suffix_lifecycle_expiration(v, i)) + rest && settled_lifecycle_expiration(v, i, g_date, g_days, g_expired_object_delete_marker);
                        lemma_lifecycle_expiration_at(v, rest, i0, cur);
                        lemma_int_text_roundtrip(v.days->Some_0 as int);
                }
                                }
                                return Err(DeError::InvalidContent);
                            },
                        }
                        proof {
                            assert forall|v: LifecycleExpiration, rest: Seq<u8>|
                    (v.valid() && orig == #[trigger] (v.content_spec() + rest) && content_end(rest)) implies exists|i: int|
                    0 <= i <= 3 && d.remaining() == (#[trigger] suffix_lifecycle_expiration(v, i)) + rest
                        && settled_lifecycle_expiration(v, i, date_v, days_v, expired_object_delete_marker_v) by {
                        let i0 = choose|i: int| 0 <= i <= 3 && cur == (#[trigger] suffix_lifecycle_expiration(v, i)) + rest && settled_lifecycle_expiration(v, i, g_date, g_days, g_expired_object_delete_marker);
                        lemma_lifecycle_expiration_at(v, rest, i0, cur);
                        lemma_int_text_roundtrip(v.days->Some_0 as int);
                        assert(next_member_lifecycle_expiration(v, i0) == 1);
                        assert(0 <= 2 <= 3 && d.remaining() == suffix_lifecycle_expiration(v, 2) + rest && settled_lifecycle_expiration(v, 2, date_v, days_v, expired_object_delete_marker_v));
                }
                        }
                    } else if eq_bytes(c.name.as_slice(), t_expired_object_delete_marker()) {
                        let t = match read_text_member(d, &c) {
                            Result::Ok(t) => t,
                            Result::Err(e) => {
                                proof {
                                    assert forall|v: LifecycleExpiration, rest: Seq<u8>|
                    (v.valid() && orig == #[trigger] (v.content_spec() + rest) && content_end(rest)) implies false by {
                        let i0 = choose|i: int| 0 <= i <= 3 && cur == (#[trigger] suffix_lifecycle_expiration(v, i)) + rest && settled_lifecycle_expiration(v, i, g_date, g_days, g_expired_object_delete_marker);
                        lemma_lifecycle_expiration_at(v, rest, i0, cur);
                }
                                }
                                return Err(e);
                            },
                        };
                        match parse_bool(t.as_slice()) {
                            Option::Some(x) => { expired_object_delete_marker_v = Option::Some(x); },
                            Option::None => {
                                proof {
                                    assert forall|v: LifecycleExpiration, rest: Seq<u8>|
                    (v.valid() && orig == #[trigger] (v.content_spec() + rest) && content_end(rest)) implies false by {
                        let i0 = choose|i: int| 0 <= i <= 3 && cur == (#[trigger] suffix_lifecycle_expiration(v, i)) + rest && settled_lifecycle_expiration(v, i, g_date, g_days, g_expired_object_delete_marker);
                        lemma_lifecycle_expiration_at(v, rest, i0, cur);
                        lemma_bool_text_roundtrip(v.expired_object_delete_marker->Some_0);
                }
                                }
                                return Err(DeError::InvalidContent);
                            },
                        }
                        proof {
                            assert forall|v: LifecycleExpiration, rest: Seq<u8>|
                    (v.valid() && orig == #[trigger] (v.content_spec() + rest) && content_end(rest)) implies exists|i: int|
                    0 <= i <= 3 && d.remaining() == (#[trigger] suffix_lifecycle_expiration(v, i)) + rest
                        && settled_lifecycle_expiration(v, i, date_v, days_v, expired_object_delete_marker_v) by {
                        let i0 = choose|i: int| 0 <= i <= 3 && cur == (#[trigger] suffix_lifecycle_expiration(v, i)) + rest && settled_lifecycle_expiration(v, i, g_date, g_days, g_expired_object_delete_marker);
                        lemma_lifecycle_expiration_at(v, rest, i0, cur);
                        lemma_bool_text_roundtrip(v.expired_object_delete_marker->Some_0);
                        assert(next_member_lifecycle_expiration(v, i0) == 2);
                        assert(0 <= 3 <= 3 && d.remaining() == suffix_lifecycle_expiration(v, 3) + rest && settled_lifecycle_expiration(v, 3, date_v, days_v, expired_object_delete_marker_v));
                }
                        }
                    } else {
                        match skip_member(d, &c) {
                            Result::Ok(u) => {},
                            Result::Err(e) => {
                                proof {
                                    assert forall|v: LifecycleExpiration, rest: Seq<u8>|
                    (v.valid() && orig == #[trigger] (v.content_spec() + rest) && content_end(rest)) implies false by {
                        let i0 = choose|i: int| 0 <= i <= 3 && cur == (#[trigger] suffix_lifecycle_expiration(v, i)) + rest && settled_lifecycle_expiration(v, i, g_date, g_days, g_expired_object_delete_marker);
                        lemma_lifecycle_expiration_at(v, rest, i0, cur);
                }
                                }
                                return Err(e);
                            },
                        }
                        proof {
                            assert forall|v: LifecycleExpiration, rest: Seq<u8>|
                    (v.valid() && orig == #[trigger] (v.content_spec() + rest) && content_end(rest)) implies false by {
                        let i0 = choose|i: int| 0 <= i <= 3 && cur == (#[trigger] suffix_lifecycle_expiration(v, i)) + rest && settled_lifecycle_expiration(v, i, g_date, g_days, g_expired_object_delete_marker);
                        lemma_lifecycle_expiration_at(v, rest, i0, cur);
                }
                        }
                    }
                },
                Option::None => {
                    let date = date_v;
                    let days = days_v;
                    let expired_object_delete_marker = expired_object_delete_marker_v;
                    let res = LifecycleExpiration { date, days, expired_object_delete_marker };
                    proof {
                        assert forall|v: LifecycleExpiration, rest: Seq<u8>|
                        (v.valid() && orig == #[trigger] (v.content_spec() + rest) && content_end(rest)) implies (v.same_model(&res) && d.remaining() == rest) by {
                            let i0 = choose|i: int| 0 <= i <= 3 && cur == (#[trigger] suffix_lifecycle_expiration(v, i)) + rest && settled_lifecycle_expiration(v, i, g_date, g_days, g_expired_object_delete_marker);
                            lemma_lifecycle_expiration_at(v, rest, i0, cur);
                    }
                    }
                    return Ok(res);
                },
            }
        }
    }
}

impl DeserializeContent for LifecycleExpiration {
    fn deserialize_content<'a>(d: &mut Deserializer<'a>) -> (r: DeResult<Self>) {
        LifecycleExpiration::read_content(d)
    }
}

/// Whether periodic progress events are requested.
#[derive(Debug, Clone, PartialEq, Eq)]
pub struct RequestProgress {
    pub enabled: Option<bool>,
}

impl SerializeContent for RequestProgress {
    open spec fn content_spec(&self) -> Seq<u8> {
        opt_bool_el(n_enabled(), self.enabled)
    }

    fn serialize_content(&self, s: &mut Serializer) {
        let ghost orig = s@;
        write_opt_bool(s, t_enabled(), self.enabled);
        proof {
            assert(s@ =~= orig + self.content_spec());
        }
    }
}

impl RequestProgress {
    /// Structurally valid: extension values hold only unrecognized text, and
    /// a present flattened list is non-empty (an empty one is
    /// indistinguishable on the wire from an absent member).
    pub open spec fn valid(&self) -> bool {
        true
    }

    /// Member-wise agreement: scalar members equal as values, text members
    /// equal as byte strings, enumerated members equal as wire strings on the
    /// same side of the known/extension split, nested members agreeing
    /// member-wise.
    pub open spec fn same_model(&self, other: &RequestProgress) -> bool {
        &&& self.enabled == other.enabled
    }
}

/// The content encoding of the members from index `i` on.
pub open spec fn suffix_request_progress(v: RequestProgress, i: int) -> Seq<u8> {
    if i <= 0 {
        opt_bool_el(n_enabled(), v.enabled) + (Seq::empty())
    } else {
        Seq::empty()
    }
}

/// The first member at or after `i` that the next child element can belong
/// to.
pub open spec fn next_member_request_progress(v: RequestProgress, i: int) -> int {
    if i <= 0 && (v.enabled is Some) {
        0
    } else {
        1
    }
}

/// What the decoder's state says after the members before `i` have been
/// dealt with.
pub open spec fn settled_request_progress(v: RequestProgress, i: int, enabled_s: Option<bool>) -> bool {
    &&& (0 < i ==> enabled_s == v.enabled)
    &&& (0 >= i ==> enabled_s is None)
}

proof fn lemma_request_progress_names()
    ensures
        n_enabled().len() >= 1,
        forall|ii: int| 0 <= ii < n_enabled().len() ==> is_name_byte(#[trigger] n_enabled()[ii]),
{

}

#[verifier::rlimit(100)]
proof fn lemma_request_progress_at(v: RequestProgress, rest: Seq<u8>, i: int, cur: Seq<u8>)
    requires
        0 <= i <= 1,
        content_end(rest),
        cur == suffix_request_progress(v, i) + rest,
    ensures
        ({
            let p = next_member_request_progress(v, i);
            &&& i <= p <= 1
            &&& (i <= 0 && 0 < p ==> v.enabled is None)
            &&& (p == 0 ==> ({
                let s1 = cur.skip(open_tag(n_enabled()).len() as int);
                let m = escape_seq(bool_text(v.enabled->Some_0)).len() as int;
                &&& v.enabled is Some
                &&& child_scan(cur) == Some((Some((n_enabled(), false)), open_tag(n_enabled()).len() as nat))
                &&& until_count(s1, LT) == m
                &&& unescape_seq(s1.take(m)) == Some(bool_text(v.enabled->Some_0))
                &&& close_scan(s1.skip(m), n_enabled()) == Some((n_enabled().len() + 3) as nat)
                &&& s1.skip(m).skip(n_enabled().len() as int + 3) == suffix_request_progress(v, 1) + rest
            }))
            &&& (p == 1 ==> cur == rest && child_scan(cur) == Some((Option::<(Seq<u8>, bool)>::None, 0 as nat)) && rest.skip(0) == rest)
        }),
    decreases 1 - i,
{
    lemma_request_progress_names();
    if i == 1 {
        assert(suffix_request_progress(v, 1) + rest =~= rest);
        assert(cur == rest);
        lemma_content_end_scan(rest);
    } else {
        if i == 0 {
            if v.enabled is Some {
                lemma_bool_text_unescaped(v.enabled->Some_0);
                assert(suffix_request_progress(v, 0) =~= text_el(n_enabled(), bool_text(v.enabled->Some_0)) + suffix_request_progress(v, 1));
                assert(cur =~= text_el(n_enabled(), bool_text(v.enabled->Some_0)) + (suffix_request_progress(v, 1) + rest));
                lemma_text_member_shape(n_enabled(), bool_text(v.enabled->Some_0), suffix_request_progress(v, 1) + rest);
            } else {
                assert(suffix_request_progress(v, 0) =~= suffix_request_progress(v, 1));
                assert(suffix_request_progress(v, 0) + rest == suffix_request_progress(v, 1) + rest);
                lemma_request_progress_at(v, rest, 1, cur);
            }
        }
    }
}

impl RequestProgress {
    /// Decode this type's element content: members in any order, unknown
    /// members skipped, required members demanded.
    ///
    /// Round-trip: the exact content encoding of any structurally valid
    /// value, followed by the end of the enclosing content, decodes back to
    /// a value with the same members, consuming exactly the encoding.
    #[verifier::rlimit(100)]
    pub fn read_content<'a>(d: &mut Deserializer<'a>) -> (r: DeResult<RequestProgress>)
        requires
            old(d).wf(),
        ensures
            final(d).wf(),
            final(d).remaining().len() <= old(d).remaining().len(),
            forall|v: RequestProgress, rest: Seq<u8>|
                (v.valid() && old(d).remaining() == #[trigger] (v.content_spec() + rest)
                    && content_end(rest)) ==> (r matches Ok(res) && v.same_model(&res)
                    && final(d).remaining() == rest),
    {
        let ghost orig = d.remaining();
        let mut enabled_v: Option<bool> = Option::None;
        proof {
            assert forall|v: RequestProgress, rest: Seq<u8>|
                (v.valid() && orig == #[trigger] (v.content_spec() + rest) && content_end(rest)) implies exists|i: int|
                0 <= i <= 1 && orig == (#[trigger] suffix_request_progress(v, i)) + rest
                    && settled_request_progress(v, i, enabled_v) by {
                    assert(v.content_spec() =~= suffix_request_progress(v, 0));
                    assert(0 <= 0 <= 1 && orig == suffix_request_progress(v, 0) + rest && settled_request_progress(v, 0, enabled_v));
            }
        }
        loop
            invariant
                d.wf(),
                d.remaining().len() <= old(d).remaining().len(),
                orig == old(d).remaining(),
                forall|v: RequestProgress, rest: Seq<u8>|
                    (v.valid() && orig == #[trigger] (v.content_spec() + rest) && content_end(
                        rest,
                    )) ==> exists|i: int|
                        0 <= i <= 1 && d.remaining() == (#[trigger] suffix_request_progress(v, i))
                            + rest && settled_request_progress(v, i, enabled_v),
            decreases d.remaining().len(),
        {
            let ghost cur = d.remaining();
            let ghost g_enabled = enabled_v;
            let c_opt = match d.read_child_open() {
                Result::Ok(x) => x,
                Result::Err(e) => {
                    proof {
                        assert forall|v: RequestProgress, rest: Seq<u8>|
                    (v.valid() && orig == #[trigger] (v.content_spec() + rest) && content_end(rest)) implies false by {
                        let i0 = choose|i: int| 0 <= i <= 1 && cur == (#[trigger] suffix_request_progress(v, i)) + rest && settled_request_progress(v, i, g_enabled);
                        lemma_request_progress_at(v, rest, i0, cur);
                }
                    }
                    return Err(e);
                },
            };
            match c_opt {
                Option::Some(c) => {
                    if eq_bytes(c.name.as_slice(), t_enabled()) {
                        let t = match read_text_member(d, &c) {
                            Result::Ok(t) => t,
                            Result::Err(e) => {
                                proof {
                                    assert forall|v: RequestProgress, rest: Seq<u8>|
                    (v.valid() && orig == #[trigger] (v.content_spec() + rest) && content_end(rest)) implies false by {
                        let i0 = choose|i: int| 0 <= i <= 1 && cur == (#[trigger] suffix_request_progress(v, i)) + rest && settled_request_progress(v, i, g_enabled);
                        lemma_request_progress_at(v, rest, i0, cur);
                }
                                }
                                return Err(e);
                            },
                        };
                        match parse_bool(t.as_slice()) {
                            Option::Some(x) => { enabled_v = Option::Some(x); },
                            Option::None => {
                                proof {
                                    assert forall|v: RequestProgress, rest: Seq<u8>|
                    (v.valid() && orig == #[trigger] (v.content_spec() + rest) && content_end(rest)) implies false by {
                        let i0 = choose|i: int| 0 <= i <= 1 && cur == (#[trigger] suffix_request_progress(v, i)) + rest && settled_request_progress(v, i, g_enabled);
                        lemma_request_progress_at(v, rest, i0, cur);
                        lemma_bool_text_roundtrip(v.enabled->Some_0);
                }
                                }
                                return Err(DeError::InvalidContent);
                            },
                        }
                        proof {
                            assert forall|v: RequestProgress, rest: Seq<u8>|
                    (v.valid() && orig == #[trigger] (v.content_spec() + rest) && content_end(rest)) implies exists|i: int|
                    0 <= i <= 1 && d.remaining() == (#[trigger] suffix_request_progress(v, i)) + rest
                        && settled_request_progress(v, i, enabled_v) by {
                        let i0 = choose|i: int| 0 <= i <= 1 && cur == (#[trigger] suffix_request_progress(v, i)) + rest && settled_request_progress(v, i, g_enabled);
                        lemma_request_progress_at(v, rest, i0, cur);
                        lemma_bool_text_roundtrip(v.enabled->Some_0);
                        assert(next_member_request_progress(v, i0) == 0);
                        assert(0 <= 1 <= 1 && d.remaining() == suffix_request_progress(v, 1) + rest && settled_request_progress(v, 1, enabled_v));
                }
                        }
                    } else {
                        match skip_member(d, &c) {
                            Result::Ok(u) => {},
                            Result::Err(e) => {
                                proof {
                                    assert forall|v: RequestProgress, rest: Seq<u8>|
                    (v.valid() && orig == #[trigger] (v.content_spec() + rest) && content_end(rest)) implies false by {
                        let i0 = choose|i: int| 0 <= i <= 1 && cur == (#[trigger] suffix_request_progress(v, i)) + rest && settled_request_progress(v, i, g_enabled);
                        lemma_request_progress_at(v, rest, i0, cur);
                }
                                }
                                return Err(e);
                            },
                        }
                        proof {
                            assert forall|v: RequestProgress, rest: Seq<u8>|
                    (v.valid() && orig == #[trigger] (v.content_spec() + rest) && content_end(rest)) implies false by {
                        let i0 = choose|i: int| 0 <= i <= 1 && cur == (#[trigger] suffix_request_progress(v, i)) + rest && settled_request_progress(v, i, g_enabled);
                        lemma_request_progress_at(v, rest, i0, cur);
                }
                        }
                    }
                },
                Option::None => {
                    let enabled = enabled_v;
                    let res = RequestProgress { enabled };
                    proof {
                        assert forall|v: RequestProgress, rest: Seq<u8>|
                        (v.valid() && orig == #[trigger] (v.content_spec() + rest) && content_end(rest)) implies (v.same_model(&res) && d.remaining() == rest) by {
                            let i0 = choose|i: int| 0 <= i <= 1 && cur == (#[trigger] suffix_request_progress(v, i)) + rest && settled_request_progress(v, i, g_enabled);
                            lemma_request_progress_at(v, rest, i0, cur);
                    }
                    }
                    return Ok(res);
                },
            }
        }
    }
}

impl DeserializeContent for RequestProgress {
    fn deserialize_content<'a>(d: &mut Deserializer<'a>) -> (r: DeResult<Self>) {
        RequestProgress::read_content(d)
    }
}

/// The byte range of an object to scan.
#[derive(Debug, Clone, PartialEq, Eq)]
pub struct ScanRange {
    pub start: Option<i64>,
    pub end: Option<i64>,
}

impl SerializeContent for ScanRange {
    open spec fn content_spec(&self) -> Seq<u8> {
        opt_int_el(n_start(), opt_i64_view(self.start))
            + opt_int_el(n_end(), opt_i64_view(self.end))
    }

    fn serialize_content(&self, s: &mut Serializer) {
        let ghost orig = s@;
        write_opt_i64(s, t_start(), self.start);
        write_opt_i64(s, t_end(), self.end);
        proof {
            assert(s@ =~= orig + self.content_spec());
        }
    }
}

impl ScanRange {
    /// Structurally valid: extension values hold only unrecognized text, and
    /// a present flattened list is non-empty (an empty one is
    /// indistinguishable on the wire from an absent member).
    pub open spec fn valid(&self) -> bool {
        true
    }

    /// Member-wise agreement: scalar members equal as values, text members
    /// equal as byte strings, enumerated members equal as wire strings on the
    /// same side of the known/extension split, nested members agreeing
    /// member-wise.
    pub open spec fn same_model(&self, other: &ScanRange) -> bool {
        &&& self.start == other.start
        &&& self.end == other.end
    }
}

/// The content encoding of the members from index `i` on.
pub open spec fn suffix_scan_range(v: ScanRange, i: int) -> Seq<u8> {
    if i <= 0 {
        opt_int_el(n_start(), opt_i64_view(v.start)) + (opt_int_el(n_end(), opt_i64_view(v.end)) + (Seq::empty()))
    } else if i <= 1 {
        opt_int_el(n_end(), opt_i64_view(v.end)) + (Seq::empty())
    } else {
        Seq::empty()
    }
}

/// The first member at or after `i` that the next child element can belong
/// to.
pub open spec fn next_member_scan_range(v: ScanRange, i: int) -> int {
    if i <= 0 && (v.start is Some) {
        0
    } else if i <= 1 && (v.end is Some) {
        1
    } else {
        2
    }
}

/// What the decoder's state says after the members before `i` have been
/// dealt with.
pub open spec fn settled_scan_range(v: ScanRange, i: int, start_s: Option<i64>, end_s: Option<i64>) -> bool {
    &&& (0 < i ==> start_s == v.start)
    &&& (0 >= i ==> start_s is None)
    &&& (1 < i ==> end_s == v.end)
    &&& (1 >= i ==> end_s is None)
}

proof fn lemma_scan_range_names()
    ensures
        n_start().len() >= 1,
        forall|ii: int| 0 <= ii < n_start().len() ==> is_name_byte(#[trigger] n_start()[ii]),
        n_end().len() >= 1,
        forall|ii: int| 0 <= ii < n_end().len() ==> is_name_byte(#[trigger] n_end()[ii]),
        n_start() != n_end(),
{
    assert(n_start().len() != n_end().len());
}

#[verifier::rlimit(100)]
proof fn lemma_scan_range_at(v: ScanRange, rest: Seq<u8>, i: int, cur: Seq<u8>)
    requires
        0 <= i <= 2,
        content_end(rest),
        cur == suffix_scan_range(v, i) + rest,
    ensures
        ({
            let p = next_member_scan_range(v, i);
            &&& i <= p <= 2
            &&& (i <= 0 && 0 < p ==> v.start is None)
            &&& (i <= 1 && 1 < p ==> v.end is None)
            &&& (p == 0 ==> ({
                let s1 = cur.skip(open_tag(n_start()).len() as int);
                let m = escape_seq(int_text(v.start->Some_0 as int)).len() as int;
                &&& v.start is Some
                &&& child_scan(cur) == Some((Some((n_start(), false)), open_tag(n_start()).len() as nat))
                &&& until_count(s1, LT) == m
                &&& unescape_seq(s1.take(m)) == Some(int_text(v.start->Some_0 as int))
                &&& close_scan(s1.skip(m), n_start()) == Some((n_start().len() + 3) as nat)
                &&& s1.skip(m).skip(n_start().len() as int + 3) == suffix_scan_range(v, 1) + rest
            }))
            &&& (p == 1 ==> ({
                let s1 = cur.skip(open_tag(n_end()).len() as int);
                let m = escape_seq(int_text(v.end->Some_0 as int)).len() as int;
                &&& v.end is Some
                &&& child_scan(cur) == Some((Some((n_end(), false)), open_tag(n_end()).len() as nat))
                &&& until_count(s1, LT) == m
                &&& unescape_seq(s1.take(m)) == Some(int_text(v.end->Some_0 as int))
                &&& close_scan(s1.skip(m), n_end()) == Some((n_end().len() + 3) as nat)
                &&& s1.skip(m).skip(n_end().len() as int + 3) == suffix_scan_range(v, 2) + rest
            }))
            &&& (p == 2 ==> cur == rest && child_scan(cur) == Some((Option::<(Seq<u8>, bool)>::None, 0 as nat)) && rest.skip(0) == rest)
        }),
    decreases 2 - i,
{
    lemma_scan_range_names();
    if i == 2 {
        assert(suffix_scan_range(v, 2) + rest =~= rest);
        assert(cur == rest);
        lemma_content_end_scan(rest);
    } else {
        if i == 0 {
            if v.start is Some {
                lemma_int_text_unescaped(v.start->Some_0 as int);
                assert(suffix_scan_range(v, 0) =~= text_el(n_start(), int_text(v.start->Some_0 as int)) + suffix_scan_range(v, 1));
                assert(cur =~= text_el(n_start(), int_text(v.start->Some_0 as int)) + (suffix_scan_range(v, 1) + rest));
                lemma_text_member_shape(n_start(), int_text(v.start->Some_0 as int), suffix_scan_range(v, 1) + rest);
            } else {
                assert(suffix_scan_range(v, 0) =~= suffix_scan_range(v, 1));
                assert(suffix_scan_range(v, 0) + rest == suffix_scan_range(v, 1) + rest);
                lemma_scan_range_at(v, rest, 1, cur);
            }
        } else if i == 1 {
            if v.end is Some {
                lemma_int_text_unescaped(v.end->Some_0 as int);
                assert(suffix_scan_range(v, 1) =~= text_el(n_end(), int_text(v.end->Some_0 as int)) + suffix_scan_range(v, 2));
                assert(cur =~= text_el(n_end(), int_text(v.end->Some_0 as int)) + (suffix_scan_range(v, 2) + rest));
                lemma_text_member_shape(n_end(), int_text(v.end->Some_0 as int), suffix_scan_range(v, 2) + rest);
            } else {
                assert(suffix_scan_range(v, 1) =~= suffix_scan_range(v, 2));
                assert(suffix_scan_range(v, 1) + rest == suffix_scan_range(v, 2) + rest);
                lemma_scan_range_at(v, rest, 2, cur);
            }
        }
    }
}

impl ScanRange {
    /// Decode this type's element content: members in any order, unknown
    /// members skipped, required members demanded.
    ///
    /// Round-trip: the exact content encoding of any structurally valid
    /// value, followed by the end of the enclosing content, decodes back to
    /// a value with the same members, consuming exactly the encoding.
    #[verifier::rlimit(100)]
    pub fn read_content<'a>(d: &mut Deserializer<'a>) -> (r: DeResult<ScanRange>)
        requires
            old(d).wf(),
        ensures
            final(d).wf(),
            final(d).remaining().len() <= old(d).remaining().len(),
            forall|v: ScanRange, rest: Seq<u8>|
                (v.valid() && old(d).remaining() == #[trigger] (v.content_spec() + rest)
                    && content_end(rest)) ==> (r matches Ok(res) && v.same_model(&res)
                    && final(d).remaining() == rest),
    {
        let ghost orig = d.remaining();
        let mut start_v: Option<i64> = Option::None;
        let mut end_v: Option<i64> = Option::None;
        proof {
            assert forall|v: ScanRange, rest: Seq<u8>|
                (v.valid() && orig == #[trigger] (v.content_spec() + rest) && content_end(rest)) implies exists|i: int|
                0 <= i <= 2 && orig == (#[trigger] suffix_scan_range(v, i)) + rest
                    && settled_scan_range(v, i, start_v, end_v) by {
                    assert(v.content_spec() =~= suffix_scan_range(v, 0));
                    assert(0 <= 0 <= 2 && orig == suffix_scan_range(v, 0) + rest && settled_scan_range(v, 0, start_v, end_v));
            }
        }
        loop
            invariant
                d.wf(),
                d.remaining().len() <= old(d).remaining().len(),
                orig == old(d).remaining(),
                forall|v: ScanRange, rest: Seq<u8>|
                    (v.valid() && orig == #[trigger] (v.content_spec() + rest) && content_end(
                        rest,
                    )) ==> exists|i: int|
                        0 <= i <= 2 && d.remaining() == (#[trigger] suffix_scan_range(v, i))
                            + rest && settled_scan_range(v, i, start_v, end_v),
            decreases d.remaining().len(),
        {
            let ghost cur = d.remaining();
            let ghost g_start = start_v;
            let ghost g_end = end_v;
            let c_opt = match d.read_child_open() {
                Result::Ok(x) => x,
                Result::Err(e) => {
                    proof {
                        assert forall|v: ScanRange, rest: Seq<u8>|
                    (v.valid() && orig == #[trigger] (v.content_spec() + rest) && content_end(rest)) implies false by {
                        let i0 = choose|i: int| 0 <= i <= 2 && cur == (#[trigger] suffix_scan_range(v, i)) + rest && settled_scan_range(v, i, g_start, g_end);
                        lemma_scan_range_at(v, rest, i0, cur);
                }
                    }
                    return Err(e);
                },
            };
            match c_opt {
                Option::Some(c) => {
                    if eq_bytes(c.name.as_slice(), t_start()) {
                        let t = match read_text_member(d, &c) {
                            Result::Ok(t) => t,
                            Result::Err(e) => {
                                proof {
                                    assert forall|v: ScanRange, rest: Seq<u8>|
                    (v.valid() && orig == #[trigger] (v.content_spec() + rest) && content_end(rest)) implies false by {
                        let i0 = choose|i: int| 0 <= i <= 2 && cur == (#[trigger] suffix_scan_range(v, i)) + rest && settled_scan_range(v, i, g_start, g_end);
                        lemma_scan_range_at(v, rest, i0, cur);
                }
                                }
                                return Err(e);
                            },
                        };
                        match parse_i64(t.as_slice()) {
                            Option::Some(x) => { start_v = Option::Some(x); },
                            Option::None => {
                                proof {
                                    assert forall|v: ScanRange, rest: Seq<u8>|
                    (v.valid() && orig == #[trigger] (v.content_spec() + rest) && content_end(rest)) implies false by {
                        let i0 = choose|i: int| 0 <= i <= 2 && cur == (#[trigger] suffix_scan_range(v, i)) + rest && settled_scan_range(v, i, g_start, g_end);
                        lemma_scan_range_at(v, rest, i0, cur);
                        lemma_int_text_roundtrip(v.start->Some_0 as int);
                }
                                }
                                return Err(DeError::InvalidContent);
                            },
                        }
                        proof {
                            assert forall|v: ScanRange, rest: Seq<u8>|
                    (v.valid() && orig == #[trigger] (v.content_spec() + rest) && content_end(rest)) implies exists|i: int|
                    0 <= i <= 2 && d.remaining() == (#[trigger] suffix_scan_range(v, i)) + rest
                        && settled_scan_range(v, i, start_v, end_v) by {
                        let i0 = choose|i: int| 0 <= i <= 2 && cur == (#[trigger] suffix_scan_range(v, i)) + rest && settled_scan_range(v, i, g_start, g_end);
                        lemma_scan_range_at(v, rest, i0, cur);
                        lemma_int_text_roundtrip(v.start->Some_0 as int);
                        assert(next_member_scan_range(v, i0) == 0);
                        assert(0 <= 1 <= 2 && d.remaining() == suffix_scan_range(v, 1) + rest && settled_scan_range(v, 1, start_v, end_v));
                }
                        }
                    } else if eq_bytes(c.name.as_slice(), t_end()) {
                        let t = match read_text_member(d, &c) {
                            Result::Ok(t) => t,
                            Result::Err(e) => {
                                proof {
                                    assert forall|v: ScanRange, rest: Seq<u8>|
                    (v.valid() && orig == #[trigger] (v.content_spec() + rest) && content_end(rest)) implies false by {
                        let i0 = choose|i: int| 0 <= i <= 2 && cur == (#[trigger] suffix_scan_range(v, i)) + rest && settled_scan_range(v, i, g_start, g_end);
                        lemma_scan_range_at(v, rest, i0, cur);
                }
                                }
                                return Err(e);
                            },
                        };
                        match parse_i64(t.as_slice()) {
                            Option::Some(x) => { end_v = Option::Some(x); },
                            Option::None => {
                                proof {
                                    assert forall|v: ScanRange, rest: Seq<u8>|
                    (v.valid() && orig == #[trigger] (v.content_spec() + rest) && content_end(rest)) implies false by {
                        let i0 = choose|i: int| 0 <= i <= 2 && cur == (#[trigger] suffix_scan_range(v, i)) + rest && settled_scan_range(v, i, g_start, g_end);
                        lemma_scan_range_at(v, rest, i0, cur);
                        lemma_int_text_roundtrip(v.end->Some_0 as int);
                }
                                }
                                return Err(DeError::InvalidContent);
                            },
                        }
                        proof {
                            assert forall|v: ScanRange, rest: Seq<u8>|
                    (v.valid() && orig == #[trigger] (v.content_spec() + rest) && content_end(rest)) implies exists|i: int|
                    0 <= i <= 2 && d.remaining() == (#[trigger] suffix_scan_range(v, i)) + rest
                        && settled_scan_range(v, i, start_v, end_v) by {
                        let i0 = choose|i: int| 0 <= i <= 2 && cur == (#[trigger] suffix_scan_range(v, i)) + rest && settled_scan_range(v, i, g_start, g_end);
                        lemma_scan_range_at(v, rest, i0, cur);
                        lemma_int_text_roundtrip(v.end->Some_0 as int);
                        assert(next_member_scan_range(v, i0) == 1);
                        assert(0 <= 2 <= 2 && d.remaining() == suffix_scan_range(v, 2) + rest && settled_scan_range(v, 2, start_v, end_v));
                }
                        }
                    } else {
                        match skip_member(d, &c) {
                            Result::Ok(u) => {},
                            Result::Err(e) => {
                                proof {
                                    assert forall|v: ScanRange, rest: Seq<u8>|
                    (v.valid() && orig == #[trigger] (v.content_spec() + rest) && content_end(rest)) implies false by {
                        let i0 = choose|i: int| 0 <= i <= 2 && cur == (#[trigger] suffix_scan_range(v, i)) + rest && settled_scan_range(v, i, g_start, g_end);
                        lemma_scan_range_at(v, rest, i0, cur);
                }
                                }
                                return Err(e);
                            },
                        }
                        proof {
                            assert forall|v: ScanRange, rest: Seq<u8>|
                    (v.valid() && orig == #[trigger] (v.content_spec() + rest) && content_end(rest)) implies false by {
                        let i0 = choose|i: int| 0 <= i <= 2 && cur == (#[trigger] suffix_scan_range(v, i)) + rest && settled_scan_range(v, i, g_start, g_end);
                        lemma_scan_range_at(v, rest, i0, cur);
                }
                        }
                    }
                },
                Option::None => {
                    let start = start_v;
                    let end = end_v;
                    let res = ScanRange { start, end };
                    proof {
                        assert forall|v: ScanRange, rest: Seq<u8>|
                        (v.valid() && orig == #[trigger] (v.content_spec() + rest) && content_end(rest)) implies (v.same_model(&res) && d.remaining() == rest) by {
                            let i0 = choose|i: int| 0 <= i <= 2 && cur == (#[trigger] suffix_scan_range(v, i)) + rest && settled_scan_range(v, i, g_start, g_end);
                            lemma_scan_range_at(v, rest, i0, cur);
                    }
                    }
                    return Ok(res);
                },
            }
        }
    }
}

impl DeserializeContent for ScanRange {
    fn deserialize_content<'a>(d: &mut Deserializer<'a>) -> (r: DeResult<Self>) {
        ScanRange::read_content(d)
    }
}

/// How CSV input records are formed.
#[derive(Debug, Clone, PartialEq, Eq)]
pub struct CSVInput {
    pub allow_quoted_record_delimiter: Option<bool>,
    pub comments: Option<Vec<u8>>,
    pub field_delimiter: Option<Vec<u8>>,
    pub file_header_info: Option<FileHeaderInfo>,
    pub quote_character: Option<Vec<u8>>,
    pub quote_escape_character: Option<Vec<u8>>,
    pub record_delimiter: Option<Vec<u8>>,
}

impl SerializeContent for CSVInput {
    open spec fn content_spec(&self) -> Seq<u8> {
        opt_bool_el(n_allow_quoted_record_delimiter(), self.allow_quoted_record_delimiter)
            + opt_text_el(n_comments(), opt_view(self.comments))
            + opt_text_el(n_field_delimiter(), opt_view(self.field_delimiter))
            + opt_el_of(n_file_header_info(), self.file_header_info)
            + opt_text_el(n_quote_character(), opt_view(self.quote_character))
            + opt_text_el(n_quote_escape_character(), opt_view(self.quote_escape_character))
            + opt_text_el(n_record_delimiter(), opt_view(self.record_delimiter))
    }

    #[verifier::rlimit(60)]
    fn serialize_content(&self, s: &mut Serializer) {
        let ghost orig = s@;
        write_opt_bool(s, t_allow_quoted_record_delimiter(), self.allow_quoted_record_delimiter);
        write_opt_text(s, t_comments(), &self.comments);
        write_opt_text(s, t_field_delimiter(), &self.field_delimiter);
        write_opt_el(s, t_file_header_info(), &self.file_header_info);
        write_opt_text(s, t_quote_character(), &self.quote_character);
        write_opt_text(s, t_quote_escape_character(), &self.quote_escape_character);
        write_opt_text(s, t_record_delimiter(), &self.record_delimiter);
        proof {
            assert(s@ =~= orig + self.content_spec());
        }
    }
}

impl CSVInput {
    /// Structurally valid: extension values hold only unrecognized text, and
    /// a present flattened list is non-empty (an empty one is
    /// indistinguishable on the wire from an absent member).
    pub open spec fn valid(&self) -> bool {
        &&& (match self.file_header_info { Option::Some(e) => e.wf(), Option::None => true })
    }

    /// Member-wise agreement: scalar members equal as values, text members
    /// equal as byte strings, enumerated members equal as wire strings on the
    /// same side of the known/extension split, nested members agreeing
    /// member-wise.
    pub open spec fn same_model(&self, other: &CSVInput) -> bool {
        &&& self.allow_quoted_record_delimiter == other.allow_quoted_record_delimiter
        &&& opt_view(self.comments) == opt_view(other.comments)
        &&& opt_view(self.field_delimiter) == opt_view(other.field_delimiter)
        &&& (match (self.file_header_info, other.file_header_info) { (Option::Some(a), Option::Some(b)) => a.same_as(&b), (Option::None, Option::None) => true, _ => false })
        &&& opt_view(self.quote_character) == opt_view(other.quote_character)
        &&& opt_view(self.quote_escape_character) == opt_view(other.quote_escape_character)
        &&& opt_view(self.record_delimiter) == opt_view(other.record_delimiter)
    }
}

/// The content encoding of the members from index `i` on.
pub open spec fn suffix_csv_input(v: CSVInput, i: int) -> Seq<u8> {
    if i <= 0 {
        opt_bool_el(n_allow_quoted_record_delimiter(), v.allow_quoted_record_delimiter) + (opt_text_el(n_comments(), opt_view(v.comments)) + (opt_text_el(n_field_delimiter(), opt_view(v.field_delimiter)) + (opt_el_of(n_file_header_info(), v.file_header_info) + (opt_text_el(n_quote_character(), opt_view(v.quote_character)) + (opt_text_el(n_quote_escape_character(), opt_view(v.quote_escape_character)) + (opt_text_el(n_record_delimiter(), opt_view(v.record_delimiter)) + (Seq::empty())))))))
    } else if i <= 1 {
        opt_text_el(n_comments(), opt_view(v.comments)) + (opt_text_el(n_field_delimiter(), opt_view(v.field_delimiter)) + (opt_el_of(n_file_header_info(), v.file_header_info) + (opt_text_el(n_quote_character(), opt_view(v.quote_character)) + (opt_text_el(n_quote_escape_character(), opt_view(v.quote_escape_character)) + (opt_text_el(n_record_delimiter(), opt_view(v.record_delimiter)) + (Seq::empty()))))))
    } else if i <= 2 {
        opt_text_el(n_field_delimiter(), opt_view(v.field_delimiter)) + (opt_el_of(n_file_header_info(), v.file_header_info) + (opt_text_el(n_quote_character(), opt_view(v.quote_character)) + (opt_text_el(n_quote_escape_character(), opt_view(v.quote_escape_character)) + (opt_text_el(n_record_delimiter(), opt_view(v.record_delimiter)) + (Seq::empty())))))
    } else if i <= 3 {
        opt_el_of(n_file_header_info(), v.file_header_info) + (opt_text_el(n_quote_character(), opt_view(v.quote_character)) + (opt_text_el(n_quote_escape_character(), opt_view(v.quote_escape_character)) + (opt_text_el(n_record_delimiter(), opt_view(v.record_delimiter)) + (Seq::empty()))))
    } else if i <= 4 {
        opt_text_el(n_quote_character(), opt_view(v.quote_character)) + (opt_text_el(n_quote_escape_character(), opt_view(v.quote_escape_character)) + (opt_text_el(n_record_delimiter(), opt_view(v.record_delimiter)) + (Seq::empty())))
    } else if i <= 5 {
        opt_text_el(n_quote_escape_character(), opt_view(v.quote_escape_character)) + (opt_text_el(n_record_delimiter(), opt_view(v.record_delimiter)) + (Seq::empty()))
    } else if i <= 6 {
        opt_text_el(n_record_delimiter(), opt_view(v.record_delimiter)) + (Seq::empty())
    } else {
        Seq::empty()
    }
}

/// The first member at or after `i` that the next child element can belong
/// to.
pub open spec fn next_member_csv_input(v: CSVInput, i: int) -> int {
    if i <= 0 && (v.allow_quoted_record_delimiter is Some) {
        0
    } else if i <= 1 && (v.comments is Some) {
        1
    } else if i <= 2 && (v.field_delimiter is Some) {
        2
    } else if i <= 3 && (v.file_header_info is Some) {
        3
    } else if i <= 4 && (v.quote_character is Some) {
        4
    } else if i <= 5 && (v.quote_escape_character is Some) {
        5
    } else if i <= 6 && (v.record_delimiter is Some) {
        6
    } else {
        7
    }
}

/// What the decoder's state says after the members before `i` have been
/// dealt with.
pub open spec fn settled_csv_input(v: CSVInput, i: int, allow_quoted_record_delimiter_s: Option<bool>, comments_s: Option<Vec<u8>>, field_delimiter_s: Option<Vec<u8>>, file_header_info_s: Option<FileHeaderInfo>, quote_character_s: Option<Vec<u8>>, quote_escape_character_s: Option<Vec<u8>>, record_delimiter_s: Option<Vec<u8>>) -> bool {
    &&& (0 < i ==> allow_quoted_record_delimiter_s == v.allow_quoted_record_delimiter)
    &&& (0 >= i ==> allow_quoted_record_delimiter_s is None)
    &&& (1 < i ==> opt_view(comments_s) == opt_view(v.comments))
    &&& (1 >= i ==> comments_s is None)
    &&& (2 < i ==> opt_view(field_delimiter_s) == opt_view(v.field_delimiter))
    &&& (2 >= i ==> field_delimiter_s is None)
    &&& (3 < i ==> (match (file_header_info_s, v.file_header_info) { (Option::Some(a), Option::Some(b)) => a.same_as(&b), (Option::None, Option::None) => true, _ => false }))
    &&& (3 >= i ==> file_header_info_s is None)
    &&& (4 < i ==> opt_view(quote_character_s) == opt_view(v.quote_character))
    &&& (4 >= i ==> quote_character_s is None)
    &&& (5 < i ==> opt_view(quote_escape_character_s) == opt_view(v.quote_escape_character))
    &&& (5 >= i ==> quote_escape_character_s is None)
    &&& (6 < i ==> opt_view(record_delimiter_s) == opt_view(v.record_delimiter))
    &&& (6 >= i ==> record_delimiter_s is None)
}

proof fn lemma_csv_input_names()
    ensures
        n_allow_quoted_record_delimiter().len() >= 1,
        forall|ii: int| 0 <= ii < n_allow_quoted_record_delimiter().len() ==> is_name_byte(#[trigger] n_allow_quoted_record_delimiter()[ii]),
        n_comments().len() >= 1,
        forall|ii: int| 0 <= ii < n_comments().len() ==> is_name_byte(#[trigger] n_comments()[ii]),
        n_field_delimiter().len() >= 1,
        forall|ii: int| 0 <= ii < n_field_delimiter().len() ==> is_name_byte(#[trigger] n_field_delimiter()[ii]),
        n_file_header_info().len() >= 1,
        forall|ii: int| 0 <= ii < n_file_header_info().len() ==> is_name_byte(#[trigger] n_file_header_info()[ii]),
        n_quote_character().len() >= 1,
        forall|ii: int| 0 <= ii < n_quote_character().len() ==> is_name_byte(#[trigger] n_quote_character()[ii]),
        n_quote_escape_character().len() >= 1,
        forall|ii: int| 0 <= ii < n_quote_escape_character().len() ==> is_name_byte(#[trigger] n_quote_escape_character()[ii]),
        n_record_delimiter().len() >= 1,
        forall|ii: int| 0 <= ii < n_record_delimiter().len() ==> is_name_byte(#[trigger] n_record_delimiter()[ii]),
        n_allow_quoted_record_delimiter() != n_comments(),
        n_allow_quoted_record_delimiter() != n_field_delimiter(),
        n_allow_quoted_record_delimiter() != n_file_header_info(),
        n_allow_quoted_record_delimiter() != n_quote_character(),
        n_allow_quoted_record_delimiter() != n_quote_escape_character(),
        n_allow_quoted_record_delimiter() != n_record_delimiter(),
        n_comments() != n_field_delimiter(),
        n_comments() != n_file_header_info(),
        n_comments() != n_quote_character(),
        n_comments() != n_quote_escape_character(),
        n_comments() != n_record_delimiter(),
        n_field_delimiter() != n_file_header_info(),
        n_field_delimiter() != n_quote_character(),
        n_field_delimiter() != n_quote_escape_character(),
        n_field_delimiter() != n_record_delimiter(),
        n_file_header_info() != n_quote_character(),
        n_file_header_info() != n_quote_escape_character(),
        n_file_header_info() != n_record_delimiter(),
        n_quote_character() != n_quote_escape_character(),
        n_quote_character() != n_record_delimiter(),
        n_quote_escape_character() != n_record_delimiter(),
{
    assert(n_allow_quoted_record_delimiter().len() != n_comments().len());
    assert(n_allow_quoted_record_delimiter().len() != n_field_delimiter().len());
    assert(n_allow_quoted_record_delimiter().len() != n_file_header_info().len());
    assert(n_allow_quoted_record_delimiter().len() != n_quote_character().len());
    assert(n_allow_quoted_record_delimiter().len() != n_quote_escape_character().len());
    assert(n_allow_quoted_record_delimiter().len() != n_record_delimiter().len());
    assert(n_comments().len() != n_field_delimiter().len());
    assert(n_comments().len() != n_file_header_info().len());
    assert(n_comments().len() != n_quote_character().len());
    assert(n_comments().len() != n_quote_escape_character().len());
    assert(n_comments().len() != n_record_delimiter().len());
    assert(n_field_delimiter()[2] == 0x65 && n_file_header_info()[2] == 0x6c);
    assert(n_field_delimiter()[0] == 0x46 && n_quote_character()[0] == 0x51);
    assert(n_field_delimiter().len() != n_quote_escape_character().len());
    assert(n_field_delimiter().len() != n_record_delimiter().len());
    assert(n_file_header_info()[0] == 0x46 && n_quote_character()[0] == 0x51);
    assert(n_file_header_info().len() != n_quote_escape_character().len());
    assert(n_file_header_info().len() != n_record_delimiter().len());
    assert(n_quote_character().len() != n_quote_escape_character().len());
    assert(n_quote_character().len() != n_record_delimiter().len());
    assert(n_quote_escape_character().len() != n_record_delimiter().len());
}

proof fn lemma_csv_input_walk(v: CSVInput, i: int)
    requires
        0 <= i <= 7,
    ensures
        ({
            let p = next_member_csv_input(v, i);
            &&& i <= p <= 7
            &&& suffix_csv_input(v, i) == suffix_csv_input(v, p)
            &&& (i <= 0 && 0 < p ==> v.allow_quoted_record_delimiter is None)
            &&& (i <= 1 && 1 < p ==> v.comments is None)
            &&& (i <= 2 && 2 < p ==> v.field_delimiter is None)
            &&& (i <= 3 && 3 < p ==> v.file_header_info is None)
            &&& (i <= 4 && 4 < p ==> v.quote_character is None)
            &&& (i <= 5 && 5 < p ==> v.quote_escape_character is None)
            &&& (i <= 6 && 6 < p ==> v.record_delimiter is None)
            &&& (p == 0 ==> (v.allow_quoted_record_delimiter is Some))
            &&& (p == 1 ==> (v.comments is Some))
            &&& (p == 2 ==> (v.field_delimiter is Some))
            &&& (p == 3 ==> (v.file_header_info is Some))
            &&& (p == 4 ==> (v.quote_character is Some))
            &&& (p == 5 ==> (v.quote_escape_character is Some))
            &&& (p == 6 ==> (v.record_delimiter is Some))
        }),
    decreases 7 - i,
{
    if i < 7 {
        if i == 0 {
            if !(v.allow_quoted_record_delimiter is Some) {
                assert(suffix_csv_input(v, 0) =~= suffix_csv_input(v, 1));
                lemma_csv_input_walk(v, 1);
            }
        } else if i == 1 {
            if !(v.comments is Some) {
                assert(suffix_csv_input(v, 1) =~= suffix_csv_input(v, 2));
                lemma_csv_input_walk(v, 2);
            }
        } else if i == 2 {
            if !(v.field_delimiter is Some) {
                assert(suffix_csv_input(v, 2) =~= suffix_csv_input(v, 3));
                lemma_csv_input_walk(v, 3);
            }
        } else if i == 3 {
            if !(v.file_header_info is Some) {
                assert(suffix_csv_input(v, 3) =~= suffix_csv_input(v, 4));
                lemma_csv_input_walk(v, 4);
            }
        } else if i == 4 {
            if !(v.quote_character is Some) {
                assert(suffix_csv_input(v, 4) =~= suffix_csv_input(v, 5));
                lemma_csv_input_walk(v, 5);
            }
        } else if i == 5 {
            if !(v.quote_escape_character is Some) {
                assert(suffix_csv_input(v, 5) =~= suffix_csv_input(v, 6));
                lemma_csv_input_walk(v, 6);
            }
        } else if i == 6 {
            if !(v.record_delimiter is Some) {
                assert(suffix_csv_input(v, 6) =~= suffix_csv_input(v, 7));
                lemma_csv_input_walk(v, 7);
            }
        }
    }
}

#[verifier::rlimit(100)]
proof fn lemma_csv_input_member_0(v: CSVInput, rest: Seq<u8>, cur: Seq<u8>)
    requires
        content_end(rest),
        v.allow_quoted_record_delimiter is Some,
        cur == suffix_csv_input(v, 0) + rest,
    ensures
        ({
                let s1 = cur.skip(open_tag(n_allow_quoted_record_delimiter()).len() as int);
                let m = escape_seq(bool_text(v.allow_quoted_record_delimiter->Some_0)).len() as int;
                &&& v.allow_quoted_record_delimiter is Some
                &&& child_scan(cur) == Some((Some((n_allow_quoted_record_delimiter(), false)), open_tag(n_allow_quoted_record_delimiter()).len() as nat))
                &&& until_count(s1, LT) == m
                &&& unescape_seq(s1.take(m)) == Some(bool_text(v.allow_quoted_record_delimiter->Some_0))
                &&& close_scan(s1.skip(m), n_allow_quoted_record_delimiter()) == Some((n_allow_quoted_record_delimiter().len() + 3) as nat)
                &&& s1.skip(m).skip(n_allow_quoted_record_delimiter().len() as int + 3) == suffix_csv_input(v, 1) + rest
            }),
{
    lemma_csv_input_names();
    lemma_bool_text_unescaped(v.allow_quoted_record_delimiter->Some_0);
    assert(suffix_csv_input(v, 0) =~= text_el(n_allow_quoted_record_delimiter(), bool_text(v.allow_quoted_record_delimiter->Some_0)) + suffix_csv_input(v, 1));
    assert(cur =~= text_el(n_allow_quoted_record_delimiter(), bool_text(v.allow_quoted_record_delimiter->Some_0)) + (suffix_csv_input(v, 1) + rest));
    lemma_text_member_shape(n_allow_quoted_record_delimiter(), bool_text(v.allow_quoted_record_delimiter->Some_0), suffix_csv_input(v, 1) + rest);
}

#[verifier::rlimit(100)]
proof fn lemma_csv_input_member_1(v: CSVInput, rest: Seq<u8>, cur: Seq<u8>)
    requires
        content_end(rest),
        v.comments is Some,
        cur == suffix_csv_input(v, 1) + rest,
    ensures
        ({
                let s1 = cur.skip(open_tag(n_comments()).len() as int);
                let m = escape_seq(v.comments->Some_0@).len() as int;
                &&& v.comments is Some
                &&& child_scan(cur) == Some((Some((n_comments(), false)), open_tag(n_comments()).len() as nat))
                &&& until_count(s1, LT) == m
                &&& unescape_seq(s1.take(m)) == Some(v.comments->Some_0@)
                &&& close_scan(s1.skip(m), n_comments()) == Some((n_comments().len() + 3) as nat)
                &&& s1.skip(m).skip(n_comments().len() as int + 3) == suffix_csv_input(v, 2) + rest
            }),
{
    lemma_csv_input_names();
    assert(suffix_csv_input(v, 1) =~= text_el(n_comments(), v.comments->Some_0@) + suffix_csv_input(v, 2));
    assert(cur =~= text_el(n_comments(), v.comments->Some_0@) + (suffix_csv_input(v, 2) + rest));
    lemma_text_member_shape(n_comments(), v.comments->Some_0@, suffix_csv_input(v, 2) + rest);
}

#[verifier::rlimit(100)]
proof fn lemma_csv_input_member_2(v: CSVInput, rest: Seq<u8>, cur: Seq<u8>)
    requires
        content_end(rest),
        v.field_delimiter is Some,
        cur == suffix_csv_input(v, 2) + rest,
    ensures
        ({
                let s1 = cur.skip(open_tag(n_field_delimiter()).len() as int);
                let m = escape_seq(v.field_delimiter->Some_0@).len() as int;
                &&& v.field_delimiter is Some
                &&& child_scan(cur) == Some((Some((n_field_delimiter(), false)), open_tag(n_field_delimiter()).len() as nat))
                &&& until_count(s1, LT) == m
                &&& unescape_seq(s1.take(m)) == Some(v.field_delimiter->Some_0@)
                &&& close_scan(s1.skip(m), n_field_delimiter()) == Some((n_field_delimiter().len() + 3) as nat)
                &&& s1.skip(m).skip(n_field_delimiter().len() as int + 3) == suffix_csv_input(v, 3) + rest
            }),
{
    lemma_csv_input_names();
    assert(suffix_csv_input(v, 2) =~= text_el(n_field_delimiter(), v.field_delimiter->Some_0@) + suffix_csv_input(v, 3));
    assert(cur =~= text_el(n_field_delimiter(), v.field_delimiter->Some_0@) + (suffix_csv_input(v, 3) + rest));
    lemma_text_member_shape(n_field_delimiter(), v.field_delimiter->Some_0@, suffix_csv_input(v, 3) + rest);
}

#[verifier::rlimit(100)]
proof fn lemma_csv_input_member_3(v: CSVInput, rest: Seq<u8>, cur: Seq<u8>)
    requires
        content_end(rest),
        v.file_header_info is Some,
        cur == suffix_csv_input(v, 3) + rest,
    ensures
        ({
                let s1 = cur.skip(open_tag(n_file_header_info()).len() as int);
                let m = escape_seq(v.file_header_info->Some_0.wire_spec()).len() as int;
                &&& v.file_header_info is Some
                &&& child_scan(cur) == Some((Some((n_file_header_info(), false)), open_tag(n_file_header_info()).len() as nat))
                &&& until_count(s1, LT) == m
                &&& unescape_seq(s1.take(m)) == Some(v.file_header_info->Some_0.wire_spec())
                &&& close_scan(s1.skip(m), n_file_header_info()) == Some((n_file_header_info().len() + 3) as nat)
                &&& s1.skip(m).skip(n_file_header_info().len() as int + 3) == suffix_csv_input(v, 4) + rest
            }),
{
    lemma_csv_input_names();
    assert(suffix_csv_input(v, 3) =~= text_el(n_file_header_info(), v.file_header_info->Some_0.wire_spec()) + suffix_csv_input(v, 4));
    assert(cur =~= text_el(n_file_header_info(), v.file_header_info->Some_0.wire_spec()) + (suffix_csv_input(v, 4) + rest));
    lemma_text_member_shape(n_file_header_info(), v.file_header_info->Some_0.wire_spec(), suffix_csv_input(v, 4) + rest);
}

#[verifier::rlimit(100)]
proof fn lemma_csv_input_member_4(v: CSVInput, rest: Seq<u8>, cur: Seq<u8>)
    requires
        content_end(rest),
        v.quote_character is Some,
        cur == suffix_csv_input(v, 4) + rest,
    ensures
        ({
                let s1 = cur.skip(open_tag(n_quote_character()).len() as int);
                let m = escape_seq(v.quote_character->Some_0@).len() as int;
                &&& v.quote_character is Some
                &&& child_scan(cur) == Some((Some((n_quote_character(), false)), open_tag(n_quote_character()).len() as nat))
                &&& until_count(s1, LT) == m
                &&& unescape_seq(s1.take(m)) == Some(v.quote_character->Some_0@)
                &&& close_scan(s1.skip(m), n_quote_character()) == Some((n_quote_character().len() + 3) as nat)
                &&& s1.skip(m).skip(n_quote_character().len() as int + 3) == suffix_csv_input(v, 5) + rest
            }),
{
    lemma_csv_input_names();
    assert(suffix_csv_input(v, 4) =~= text_el(n_quote_character(), v.quote_character->Some_0@) + suffix_csv_input(v, 5));
    assert(cur =~= text_el(n_quote_character(), v.quote_character->Some_0@) + (suffix_csv_input(v, 5) + rest));
    lemma_text_member_shape(n_quote_character(), v.quote_character->Some_0@, suffix_csv_input(v, 5) + rest);
}

#[verifier::rlimit(100)]
proof fn lemma_csv_input_member_5(v: CSVInput, rest: Seq<u8>, cur: Seq<u8>)
    requires
        content_end(rest),
        v.quote_escape_character is Some,
        cur == suffix_csv_input(v, 5) + rest,
    ensures
        ({
                let s1 = cur.skip(open_tag(n_quote_escape_character()).len() as int);
                let m = escape_seq(v.quote_escape_character->Some_0@).len() as int;
                &&& v.quote_escape_character is Some
                &&& child_scan(cur) == Some((Some((n_quote_escape_character(), false)), open_tag(n_quote_escape_character()).len() as nat))
                &&& until_count(s1, LT) == m
                &&& unescape_seq(s1.take(m)) == Some(v.quote_escape_character->Some_0@)
                &&& close_scan(s1.skip(m), n_quote_escape_character()) == Some((n_quote_escape_character().len() + 3) as nat)
                &&& s1.skip(m).skip(n_quote_escape_character().len() as int + 3) == suffix_csv_input(v, 6) + rest
            }),
{
    lemma_csv_input_names();
    assert(suffix_csv_input(v, 5) =~= text_el(n_quote_escape_character(), v.quote_escape_character->Some_0@) + suffix_csv_input(v, 6));
    assert(cur =~= text_el(n_quote_escape_character(), v.quote_escape_character->Some_0@) + (suffix_csv_input(v, 6) + rest));
    lemma_text_member_shape(n_quote_escape_character(), v.quote_escape_character->Some_0@, suffix_csv_input(v, 6) + rest);
}

#[verifier::rlimit(100)]
proof fn lemma_csv_input_member_6(v: CSVInput, rest: Seq<u8>, cur: Seq<u8>)
    requires
        content_end(rest),
        v.record_delimiter is Some,
        cur == suffix_csv_input(v, 6) + rest,
    ensures
        ({
                let s1 = cur.skip(open_tag(n_record_delimiter()).len() as int);
                let m = escape_seq(v.record_delimiter->Some_0@).len() as int;
                &&& v.record_delimiter is Some
                &&& child_scan(cur) == Some((Some((n_record_delimiter(), false)), open_tag(n_record_delimiter()).len() as nat))
                &&& until_count(s1, LT) == m
                &&& unescape_seq(s1.take(m)) == Some(v.record_delimiter->Some_0@)
                &&& close_scan(s1.skip(m), n_record_delimiter()) == Some((n_record_delimiter().len() + 3) as nat)
                &&& s1.skip(m).skip(n_record_delimiter().len() as int + 3) == suffix_csv_input(v, 7) + rest
            }),
{
    lemma_csv_input_names();
    assert(suffix_csv_input(v, 6) =~= text_el(n_record_delimiter(), v.record_delimiter->Some_0@) + suffix_csv_input(v, 7));
    assert(cur =~= text_el(n_record_delimiter(), v.record_delimiter->Some_0@) + (suffix_csv_input(v, 7) + rest));
    lemma_text_member_shape(n_record_delimiter(), v.record_delimiter->Some_0@, suffix_csv_input(v, 7) + rest);
}


impl CSVInput {
    /// Decode this type's element content: members in any order, unknown
    /// members skipped, required members demanded.
    ///
    /// Round-trip: the exact content encoding of any structurally valid
    /// value, followed by the end of the enclosing content, decodes back to
    /// a value with the same members, consuming exactly the encoding.
    #[verifier::rlimit(100)]
    pub fn read_content<'a>(d: &mut Deserializer<'a>) -> (r: DeResult<CSVInput>)
        requires
            old(d).wf(),
        ensures
            final(d).wf(),
            final(d).remaining().len() <= old(d).remaining().len(),
            forall|v: CSVInput, rest: Seq<u8>|
                (v.valid() && old(d).remaining() == #[trigger] (v.content_spec() + rest)
                    && content_end(rest)) ==> (r matches Ok(res) && v.same_model(&res)
                    && final(d).remaining() == rest),
    {
        let ghost orig = d.remaining();
        let mut allow_quoted_record_delimiter_v: Option<bool> = Option::None;
        let mut comments_v: Option<Vec<u8>> = Option::None;
        let mut field_delimiter_v: Option<Vec<u8>> = Option::None;
        let mut file_header_info_v: Option<FileHeaderInfo> = Option::None;
        let mut quote_character_v: Option<Vec<u8>> = Option::None;
        let mut quote_escape_character_v: Option<Vec<u8>> = Option::None;
        let mut record_delimiter_v: Option<Vec<u8>> = Option::None;
        proof {
            assert forall|v: CSVInput, rest: Seq<u8>|
                (v.valid() && orig == #[trigger] (v.content_spec() + rest) && content_end(rest)) implies exists|i: int|
                0 <= i <= 7 && orig == (#[trigger] suffix_csv_input(v, i)) + rest
                    && settled_csv_input(v, i, allow_quoted_record_delimiter_v, comments_v, field_delimiter_v, file_header_info_v, quote_character_v, quote_escape_character_v, record_delimiter_v) by {
                    assert(v.content_spec() =~= suffix_csv_input(v, 0));
                    assert(0 <= 0 <= 7 && orig == suffix_csv_input(v, 0) + rest && settled_csv_input(v, 0, allow_quoted_record_delimiter_v, comments_v, field_delimiter_v, file_header_info_v, quote_character_v, quote_escape_character_v, record_delimiter_v));
            }
        }
        loop
            invariant
                d.wf(),
                d.remaining().len() <= old(d).remaining().len(),
                orig == old(d).remaining(),
                forall|v: CSVInput, rest: Seq<u8>|
                    (v.valid() && orig == #[trigger] (v.content_spec() + rest) && content_end(
                        rest,
                    )) ==> exists|i: int|
                        0 <= i <= 7 && d.remaining() == (#[trigger] suffix_csv_input(v, i))
                            + rest && settled_csv_input(v, i, allow_quoted_record_delimiter_v, comments_v, field_delimiter_v, file_header_info_v, quote_character_v, quote_escape_character_v, record_delimiter_v),
            decreases d.remaining().len(),
        {
            let ghost cur = d.remaining();
            let ghost g_allow_quoted_record_delimiter = allow_quoted_record_delimiter_v;
            let ghost g_comments = comments_v;
            let ghost g_field_delimiter = field_delimiter_v;
            let ghost g_file_header_info = file_header_info_v;
            let ghost g_quote_character = quote_character_v;
            let ghost g_quote_escape_character = quote_escape_character_v;
            let ghost g_record_delimiter = record_delimiter_v;
            let c_opt = match d.read_child_open() {
                Result::Ok(x) => x,
                Result::Err(e) => {
                    proof {
                        assert forall|v: CSVInput, rest: Seq<u8>|
                    (v.valid() && orig == #[trigger] (v.content_spec() + rest) && content_end(rest)) implies false by {
                        let i0 = choose|i: int| 0 <= i <= 7 && cur == (#[trigger] suffix_csv_input(v, i)) + rest && settled_csv_input(v, i, g_allow_quoted_record_delimiter, g_comments, g_field_delimiter, g_file_header_info, g_quote_character, g_quote_escape_character, g_record_delimiter);
                        lemma_csv_input_names();
                        lemma_csv_input_walk(v, i0);
                        let p0 = next_member_csv_input(v, i0);
                        assert(cur == suffix_csv_input(v, p0) + rest);
                        if p0 == 7 {
                            assert(suffix_csv_input(v, 7) + rest =~= rest);
                            lemma_content_end_scan(rest);
                        } else if p0 == 0 {
                            lemma_csv_input_member_0(v, rest, cur);
                        } else if p0 == 1 {
                            lemma_csv_input_member_1(v, rest, cur);
                        } else if p0 == 2 {
                            lemma_csv_input_member_2(v, rest, cur);
                        } else if p0 == 3 {
                            lemma_csv_input_member_3(v, rest, cur);
                        } else if p0 == 4 {
                            lemma_csv_input_member_4(v, rest, cur);
                        } else if p0 == 5 {
                            lemma_csv_input_member_5(v, rest, cur);
                        } else if p0 == 6 {
                            lemma_csv_input_member_6(v, rest, cur);
                        }
                }
                    }
                    return Err(e);
                },
            };
            match c_opt {
                Option::Some(c) => {
                    if eq_bytes(c.name.as_slice(), t_allow_quoted_record_delimiter()) {
                        let t = match read_text_member(d, &c) {
                            Result::Ok(t) => t,
                            Result::Err(e) => {
                                proof {
                                    assert forall|v: CSVInput, rest: Seq<u8>|
                    (v.valid() && orig == #[trigger] (v.content_spec() + rest) && content_end(rest)) implies false by {
                        let i0 = choose|i: int| 0 <= i <= 7 && cur == (#[trigger] suffix_csv_input(v, i)) + rest && settled_csv_input(v, i, g_allow_quoted_record_delimiter, g_comments, g_field_delimiter, g_file_header_info, g_quote_character, g_quote_escape_character, g_record_delimiter);
                        lemma_csv_input_names();
                        lemma_csv_input_walk(v, i0);
                        let p0 = next_member_csv_input(v, i0);
                        assert(cur == suffix_csv_input(v, p0) + rest);
                        if p0 == 7 {
                            assert(suffix_csv_input(v, 7) + rest =~= rest);
                            lemma_content_end_scan(rest);
                        } else if p0 == 0 {
                            lemma_csv_input_member_0(v, rest, cur);
                        } else if p0 == 1 {
                            lemma_csv_input_member_1(v, rest, cur);
                        } else if p0 == 2 {
                            lemma_csv_input_member_2(v, rest, cur);
                        } else if p0 == 3 {
                            lemma_csv_input_member_3(v, rest, cur);
                        } else if p0 == 4 {
                            lemma_csv_input_member_4(v, rest, cur);
                        } else if p0 == 5 {
                            lemma_csv_input_member_5(v, rest, cur);
                        } else if p0 == 6 {
                            lemma_csv_input_member_6(v, rest, cur);
                        }
                }
                                }
                                return Err(e);
                            },
                        };
                        match parse_bool(t.as_slice()) {
                            Option::Some(x) => { allow_quoted_record_delimiter_v = Option::Some(x); },
                            Option::None => {
                                proof {
                                    assert forall|v: CSVInput, rest: Seq<u8>|
                    (v.valid() && orig == #[trigger] (v.content_spec() + rest) && content_end(rest)) implies false by {
                        let i0 = choose|i: int| 0 <= i <= 7 && cur == (#[trigger] suffix_csv_input(v, i)) + rest && settled_csv_input(v, i, g_allow_quoted_record_delimiter, g_comments, g_field_delimiter, g_file_header_info, g_quote_character, g_quote_escape_character, g_record_delimiter);
                        lemma_csv_input_names();
                        lemma_csv_input_walk(v, i0);
                        let p0 = next_member_csv_input(v, i0);
                        assert(cur == suffix_csv_input(v, p0) + rest);
                        if p0 == 7 {
                            assert(suffix_csv_input(v, 7) + rest =~= rest);
                            lemma_content_end_scan(rest);
                        } else if p0 == 0 {
                            lemma_csv_input_member_0(v, rest, cur);
                        } else if p0 == 1 {
                            lemma_csv_input_member_1(v, rest, cur);
                        } else if p0 == 2 {
                            lemma_csv_input_member_2(v, rest, cur);
                        } else if p0 == 3 {
                            lemma_csv_input_member_3(v, rest, cur);
                        } else if p0 == 4 {
                            lemma_csv_input_member_4(v, rest, cur);
                        } else if p0 == 5 {
                            lemma_csv_input_member_5(v, rest, cur);
                        } else if p0 == 6 {
                            lemma_csv_input_member_6(v, rest, cur);
                        }
                        lemma_bool_text_roundtrip(v.allow_quoted_record_delimiter->Some_0);
                }
                                }
                                return Err(DeError::InvalidContent);
                            },
                        }
                        proof {
                            assert forall|v: CSVInput, rest: Seq<u8>|
                    (v.valid() && orig == #[trigger] (v.content_spec() + rest) && content_end(rest)) implies exists|i: int|
                    0 <= i <= 7 && d.remaining() == (#[trigger] suffix_csv_input(v, i)) + rest
                        && settled_csv_input(v, i, allow_quoted_record_delimiter_v, comments_v, field_delimiter_v, file_header_info_v, quote_character_v, quote_escape_character_v, record_delimiter_v) by {
                        let i0 = choose|i: int| 0 <= i <= 7 && cur == (#[trigger] suffix_csv_input(v, i)) + rest && settled_csv_input(v, i, g_allow_quoted_record_delimiter, g_comments, g_field_delimiter, g_file_header_info, g_quote_character, g_quote_escape_character, g_record_delimiter);
                        lemma_csv_input_names();
                        lemma_csv_input_walk(v, i0);
                        let p0 = next_member_csv_input(v, i0);
                        assert(cur == suffix_csv_input(v, p0) + rest);
                        if p0 == 7 {
                            assert(suffix_csv_input(v, 7) + rest =~= rest);
                            lemma_content_end_scan(rest);
                        } else if p0 == 0 {
                            lemma_csv_input_member_0(v, rest, cur);
                        } else if p0 == 1 {
                            lemma_csv_input_member_1(v, rest, cur);
                        } else if p0 == 2 {
                            lemma_csv_input_member_2(v, rest, cur);
                        } else if p0 == 3 {
                            lemma_csv_input_member_3(v, rest, cur);
                        } else if p0 == 4 {
                            lemma_csv_input_member_4(v, rest, cur);
                        } else if p0 == 5 {
                            lemma_csv_input_member_5(v, rest, cur);
                        } else if p0 == 6 {
                            lemma_csv_input_member_6(v, rest, cur);
                        }
                        lemma_bool_text_roundtrip(v.allow_quoted_record_delimiter->Some_0);
                        assert(p0 == 0);
                        assert(0 <= 1 <= 7 && d.remaining() == suffix_csv_input(v, 1) + rest && settled_csv_input(v, 1, allow_quoted_record_delimiter_v, comments_v, field_delimiter_v, file_header_info_v, quote_character_v, quote_escape_character_v, record_delimiter_v));
                }
                        }
                    } else if eq_bytes(c.name.as_slice(), t_comments()) {
                        let t = match read_text_member(d, &c) {
                            Result::Ok(t) => t,
                            Result::Err(e) => {
                                proof {
                                    assert forall|v: CSVInput, rest: Seq<u8>|
                    (v.valid() && orig == #[trigger] (v.content_spec() + rest) && content_end(rest)) implies false by {
                        let i0 = choose|i: int| 0 <= i <= 7 && cur == (#[trigger] suffix_csv_input(v, i)) + rest && settled_csv_input(v, i, g_allow_quoted_record_delimiter, g_comments, g_field_delimiter, g_file_header_info, g_quote_character, g_quote_escape_character, g_record_delimiter);
                        lemma_csv_input_names();
                        lemma_csv_input_walk(v, i0);
                        let p0 = next_member_csv_input(v, i0);
                        assert(cur == suffix_csv_input(v, p0) + rest);
                        if p0 == 7 {
                            assert(suffix_csv_input(v, 7) + rest =~= rest);
                            lemma_content_end_scan(rest);
                        } else if p0 == 0 {
                            lemma_csv_input_member_0(v, rest, cur);
                        } else if p0 == 1 {
                            lemma_csv_input_member_1(v, rest, cur);
                        } else if p0 == 2 {
                            lemma_csv_input_member_2(v, rest, cur);
                        } else if p0 == 3 {
                            lemma_csv_input_member_3(v, rest, cur);
                        } else if p0 == 4 {
                            lemma_csv_input_member_4(v, rest, cur);
                        } else if p0 == 5 {
                            lemma_csv_input_member_5(v, rest, cur);
                        } else if p0 == 6 {
                            lemma_csv_input_member_6(v, rest, cur);
                        }
                }
                                }
                                return Err(e);
                            },
                        };
                        comments_v = Option::Some(t);
                        proof {
                            assert forall|v: CSVInput, rest: Seq<u8>|
                    (v.valid() && orig == #[trigger] (v.content_spec() + rest) && content_end(rest)) implies exists|i: int|
                    0 <= i <= 7 && d.remaining() == (#[trigger] suffix_csv_input(v, i)) + rest
                        && settled_csv_input(v, i, allow_quoted_record_delimiter_v, comments_v, field_delimiter_v, file_header_info_v, quote_character_v, quote_escape_character_v, record_delimiter_v) by {
                        let i0 = choose|i: int| 0 <= i <= 7 && cur == (#[trigger] suffix_csv_input(v, i)) + rest && settled_csv_input(v, i, g_allow_quoted_record_delimiter, g_comments, g_field_delimiter, g_file_header_info, g_quote_character, g_quote_escape_character, g_record_delimiter);
                        lemma_csv_input_names();
                        lemma_csv_input_walk(v, i0);
                        let p0 = next_member_csv_input(v, i0);
                        assert(cur == suffix_csv_input(v, p0) + rest);
                        if p0 == 7 {
                            assert(suffix_csv_input(v, 7) + rest =~= rest);
                            lemma_content_end_scan(rest);
                        } else if p0 == 0 {
                            lemma_csv_input_member_0(v, rest, cur);
                        } else if p0 == 1 {
                            lemma_csv_input_member_1(v, rest, cur);
                        } else if p0 == 2 {
                            lemma_csv_input_member_2(v, rest, cur);
                        } else if p0 == 3 {
                            lemma_csv_input_member_3(v, rest, cur);
                        } else if p0 == 4 {
                            lemma_csv_input_member_4(v, rest, cur);
                        } else if p0 == 5 {
                            lemma_csv_input_member_5(v, rest, cur);
                        } else if p0 == 6 {
                            lemma_csv_input_member_6(v, rest, cur);
                        }
                        assert(p0 == 1);
                        assert(0 <= 2 <= 7 && d.remaining() == suffix_csv_input(v, 2) + rest && settled_csv_input(v, 2, allow_quoted_record_delimiter_v, comments_v, field_delimiter_v, file_header_info_v, quote_character_v, quote_escape_character_v, record_delimiter_v));
                }
                        }
                    } else if eq_bytes(c.name.as_slice(), t_field_delimiter()) {
                        let t = match read_text_member(d, &c) {
                            Result::Ok(t) => t,
                            Result::Err(e) => {
                                proof {
                                    assert forall|v: CSVInput, rest: Seq<u8>|
                    (v.valid() && orig == #[trigger] (v.content_spec() + rest) && content_end(rest)) implies false by {
                        let i0 = choose|i: int| 0 <= i <= 7 && cur == (#[trigger] suffix_csv_input(v, i)) + rest && settled_csv_input(v, i, g_allow_quoted_record_delimiter, g_comments, g_field_delimiter, g_file_header_info, g_quote_character, g_quote_escape_character, g_record_delimiter);
                        lemma_csv_input_names();
                        lemma_csv_input_walk(v, i0);
                        let p0 = next_member_csv_input(v, i0);
                        assert(cur == suffix_csv_input(v, p0) + rest);
                        if p0 == 7 {
                            assert(suffix_csv_input(v, 7) + rest =~= rest);
                            lemma_content_end_scan(rest);
                        } else if p0 == 0 {
                            lemma_csv_input_member_0(v, rest, cur);
                        } else if p0 == 1 {
                            lemma_csv_input_member_1(v, rest, cur);
                        } else if p0 == 2 {
                            lemma_csv_input_member_2(v, rest, cur);
                        } else if p0 == 3 {
                            lemma_csv_input_member_3(v, rest, cur);
                        } else if p0 == 4 {
                            lemma_csv_input_member_4(v, rest, cur);
                        } else if p0 == 5 {
                            lemma_csv_input_member_5(v, rest, cur);
                        } else if p0 == 6 {
                            lemma_csv_input_member_6(v, rest, cur);
                        }
                }
                                }
                                return Err(e);
                            },
                        };
                        field_delimiter_v = Option::Some(t);
                        proof {
                            assert forall|v: CSVInput, rest: Seq<u8>|
                    (v.valid() && orig == #[trigger] (v.content_spec() + rest) && content_end(rest)) implies exists|i: int|
                    0 <= i <= 7 && d.remaining() == (#[trigger] suffix_csv_input(v, i)) + rest
                        && settled_csv_input(v, i, allow_quoted_record_delimiter_v, comments_v, field_delimiter_v, file_header_info_v, quote_character_v, quote_escape_character_v, record_delimiter_v) by {
                        let i0 = choose|i: int| 0 <= i <= 7 && cur == (#[trigger] suffix_csv_input(v, i)) + rest && settled_csv_input(v, i, g_allow_quoted_record_delimiter, g_comments, g_field_delimiter, g_file_header_info, g_quote_character, g_quote_escape_character, g_record_delimiter);
                        lemma_csv_input_names();
                        lemma_csv_input_walk(v, i0);
                        let p0 = next_member_csv_input(v, i0);
                        assert(cur == suffix_csv_input(v, p0) + rest);
                        if p0 == 7 {
                            assert(suffix_csv_input(v, 7) + rest =~= rest);
                            lemma_content_end_scan(rest);
                        } else if p0 == 0 {
                            lemma_csv_input_member_0(v, rest, cur);
                        } else if p0 == 1 {
                            lemma_csv_input_member_1(v, rest, cur);
                        } else if p0 == 2 {
                            lemma_csv_input_member_2(v, rest, cur);
                        } else if p0 == 3 {
                            lemma_csv_input_member_3(v, rest, cur);
                        } else if p0 == 4 {
                            lemma_csv_input_member_4(v, rest, cur);
                        } else if p0 == 5 {
                            lemma_csv_input_member_5(v, rest, cur);
                        } else if p0 == 6 {
                            lemma_csv_input_member_6(v, rest, cur);
                        }
                        assert(p0 == 2);
                        assert(0 <= 3 <= 7 && d.remaining() == suffix_csv_input(v, 3) + rest && settled_csv_input(v, 3, allow_quoted_record_delimiter_v, comments_v, field_delimiter_v, file_header_info_v, quote_character_v, quote_escape_character_v, record_delimiter_v));
                }
                        }
                    } else if eq_bytes(c.name.as_slice(), t_file_header_info()) {
                        let t = match read_text_member(d, &c) {
                            Result::Ok(t) => t,
                            Result::Err(e) => {
                                proof {
                                    assert forall|v: CSVInput, rest: Seq<u8>|
                    (v.valid() && orig == #[trigger] (v.content_spec() + rest) && content_end(rest)) implies false by {
                        let i0 = choose|i: int| 0 <= i <= 7 && cur == (#[trigger] suffix_csv_input(v, i)) + rest && settled_csv_input(v, i, g_allow_quoted_record_delimiter, g_comments, g_field_delimiter, g_file_header_info, g_quote_character, g_quote_escape_character, g_record_delimiter);
                        lemma_csv_input_names();
                        lemma_csv_input_walk(v, i0);
                        let p0 = next_member_csv_input(v, i0);
                        assert(cur == suffix_csv_input(v, p0) + rest);
                        if p0 == 7 {
                            assert(suffix_csv_input(v, 7) + rest =~= rest);
                            lemma_content_end_scan(rest);
                        } else if p0 == 0 {
                            lemma_csv_input_member_0(v, rest, cur);
                        } else if p0 == 1 {
                            lemma_csv_input_member_1(v, rest, cur);
                        } else if p0 == 2 {
                            lemma_csv_input_member_2(v, rest, cur);
                        } else if p0 == 3 {
                            lemma_csv_input_member_3(v, rest, cur);
                        } else if p0 == 4 {
                            lemma_csv_input_member_4(v, rest, cur);
                        } else if p0 == 5 {
                            lemma_csv_input_member_5(v, rest, cur);
                        } else if p0 == 6 {
                            lemma_csv_input_member_6(v, rest, cur);
                        }
                }
                                }
                                return Err(e);
                            },
                        };
                        file_header_info_v = Option::Some(FileHeaderInfo::from_bytes(t.as_slice()));
                        proof {
                            assert forall|v: CSVInput, rest: Seq<u8>|
                    (v.valid() && orig == #[trigger] (v.content_spec() + rest) && content_end(rest)) implies exists|i: int|
                    0 <= i <= 7 && d.remaining() == (#[trigger] suffix_csv_input(v, i)) + rest
                        && settled_csv_input(v, i, allow_quoted_record_delimiter_v, comments_v, field_delimiter_v, file_header_info_v, quote_character_v, quote_escape_character_v, record_delimiter_v) by {
                        let i0 = choose|i: int| 0 <= i <= 7 && cur == (#[trigger] suffix_csv_input(v, i)) + rest && settled_csv_input(v, i, g_allow_quoted_record_delimiter, g_comments, g_field_delimiter, g_file_header_info, g_quote_character, g_quote_escape_character, g_record_delimiter);
                        lemma_csv_input_names();
                        lemma_csv_input_walk(v, i0);
                        let p0 = next_member_csv_input(v, i0);
                        assert(cur == suffix_csv_input(v, p0) + rest);
                        if p0 == 7 {
                            assert(suffix_csv_input(v, 7) + rest =~= rest);
                            lemma_content_end_scan(rest);
                        } else if p0 == 0 {
                            lemma_csv_input_member_0(v, rest, cur);
                        } else if p0 == 1 {
                            lemma_csv_input_member_1(v, rest, cur);
                        } else if p0 == 2 {
                            lemma_csv_input_member_2(v, rest, cur);
                        } else if p0 == 3 {
                            lemma_csv_input_member_3(v, rest, cur);
                        } else if p0 == 4 {
                            lemma_csv_input_member_4(v, rest, cur);
                        } else if p0 == 5 {
                            lemma_csv_input_member_5(v, rest, cur);
                        } else if p0 == 6 {
                            lemma_csv_input_member_6(v, rest, cur);
                        }
                        if !(v.file_header_info->Some_0 is Extension) {
                            lemma_fileheaderinfo_known(v.file_header_info->Some_0);
                        }
                        assert(p0 == 3);
                        assert(0 <= 4 <= 7 && d.remaining() == suffix_csv_input(v, 4) + rest && settled_csv_input(v, 4, allow_quoted_record_delimiter_v, comments_v, field_delimiter_v, file_header_info_v, quote_character_v, quote_escape_character_v, record_delimiter_v));
                }
                        }
                    } else if eq_bytes(c.name.as_slice(), t_quote_character()) {
                        let t = match read_text_member(d, &c) {
                            Result::Ok(t) => t,
                            Result::Err(e) => {
                                proof {
                                    assert forall|v: CSVInput, rest: Seq<u8>|
                    (v.valid() && orig == #[trigger] (v.content_spec() + rest) && content_end(rest)) implies false by {
                        let i0 = choose|i: int| 0 <= i <= 7 && cur == (#[trigger] suffix_csv_input(v, i)) + rest && settled_csv_input(v, i, g_allow_quoted_record_delimiter, g_comments, g_field_delimiter, g_file_header_info, g_quote_character, g_quote_escape_character, g_record_delimiter);
                        lemma_csv_input_names();
                        lemma_csv_input_walk(v, i0);
                        let p0 = next_member_csv_input(v, i0);
                        assert(cur == suffix_csv_input(v, p0) + rest);
                        if p0 == 7 {
                            assert(suffix_csv_input(v, 7) + rest =~= rest);
                            lemma_content_end_scan(rest);
                        } else if p0 == 0 {
                            lemma_csv_input_member_0(v, rest, cur);
                        } else if p0 == 1 {
                            lemma_csv_input_member_1(v, rest, cur);
                        } else if p0 == 2 {
                            lemma_csv_input_member_2(v, rest, cur);
                        } else if p0 == 3 {
                            lemma_csv_input_member_3(v, rest, cur);
                        } else if p0 == 4 {
                            lemma_csv_input_member_4(v, rest, cur);
                        } else if p0 == 5 {
                            lemma_csv_input_member_5(v, rest, cur);
                        } else if p0 == 6 {
                            lemma_csv_input_member_6(v, rest, cur);
                        }
                }
                                }
                                return Err(e);
                            },
                        };
                        quote_character_v = Option::Some(t);
                        proof {
                            assert forall|v: CSVInput, rest: Seq<u8>|
                    (v.valid() && orig == #[trigger] (v.content_spec() + rest) && content_end(rest)) implies exists|i: int|
                    0 <= i <= 7 && d.remaining() == (#[trigger] suffix_csv_input(v, i)) + rest
                        && settled_csv_input(v, i, allow_quoted_record_delimiter_v, comments_v, field_delimiter_v, file_header_info_v, quote_character_v, quote_escape_character_v, record_delimiter_v) by {
                        let i0 = choose|i: int| 0 <= i <= 7 && cur == (#[trigger] suffix_csv_input(v, i)) + rest && settled_csv_input(v, i, g_allow_quoted_record_delimiter, g_comments, g_field_delimiter, g_file_header_info, g_quote_character, g_quote_escape_character, g_record_delimiter);
                        lemma_csv_input_names();
                        lemma_csv_input_walk(v, i0);
                        let p0 = next_member_csv_input(v, i0);
                        assert(cur == suffix_csv_input(v, p0) + rest);
                        if p0 == 7 {
                            assert(suffix_csv_input(v, 7) + rest =~= rest);
                            lemma_content_end_scan(rest);
                        } else if p0 == 0 {
                            lemma_csv_input_member_0(v, rest, cur);
                        } else if p0 == 1 {
                            lemma_csv_input_member_1(v, rest, cur);
                        } else if p0 == 2 {
                            lemma_csv_input_member_2(v, rest, cur);
                        } else if p0 == 3 {
                            lemma_csv_input_member_3(v, rest, cur);
                        } else if p0 == 4 {
                            lemma_csv_input_member_4(v, rest, cur);
                        } else if p0 == 5 {
                            lemma_csv_input_member_5(v, rest, cur);
                        } else if p0 == 6 {
                            lemma_csv_input_member_6(v, rest, cur);
                        }
                        assert(p0 == 4);
                        assert(0 <= 5 <= 7 && d.remaining() == suffix_csv_input(v, 5) + rest && settled_csv_input(v, 5, allow_quoted_record_delimiter_v, comments_v, field_delimiter_v, file_header_info_v, quote_character_v, quote_escape_character_v, record_delimiter_v));
                }
                        }
                    } else if eq_bytes(c.name.as_slice(), t_quote_escape_character()) {
                        let t = match read_text_member(d, &c) {
                            Result::Ok(t) => t,
                            Result::Err(e) => {
                                proof {
                                    assert forall|v: CSVInput, rest: Seq<u8>|
                    (v.valid() && orig == #[trigger] (v.content_spec() + rest) && content_end(rest)) implies false by {
                        let i0 = choose|i: int| 0 <= i <= 7 && cur == (#[trigger] suffix_csv_input(v, i)) + rest && settled_csv_input(v, i, g_allow_quoted_record_delimiter, g_comments, g_field_delimiter, g_file_header_info, g_quote_character, g_quote_escape_character, g_record_delimiter);
                        lemma_csv_input_names();
                        lemma_csv_input_walk(v, i0);
                        let p0 = next_member_csv_input(v, i0);
                        assert(cur == suffix_csv_input(v, p0) + rest);
                        if p0 == 7 {
                            assert(suffix_csv_input(v, 7) + rest =~= rest);
                            lemma_content_end_scan(rest);
                        } else if p0 == 0 {
                            lemma_csv_input_member_0(v, rest, cur);
                        } else if p0 == 1 {
                            lemma_csv_input_member_1(v, rest, cur);
                        } else if p0 == 2 {
                            lemma_csv_input_member_2(v, rest, cur);
                        } else if p0 == 3 {
                            lemma_csv_input_member_3(v, rest, cur);
                        } else if p0 == 4 {
                            lemma_csv_input_member_4(v, rest, cur);
                        } else if p0 == 5 {
                            lemma_csv_input_member_5(v, rest, cur);
                        } else if p0 == 6 {
                            lemma_csv_input_member_6(v, rest, cur);
                        }
                }
                                }
                                return Err(e);
                            },
                        };
                        quote_escape_character_v = Option::Some(t);
                        proof {
                            assert forall|v: CSVInput, rest: Seq<u8>|
                    (v.valid() && orig == #[trigger] (v.content_spec() + rest) && content_end(rest)) implies exists|i: int|
                    0 <= i <= 7 && d.remaining() == (#[trigger] suffix_csv_input(v, i)) + rest
                        && settled_csv_input(v, i, allow_quoted_record_delimiter_v, comments_v, field_delimiter_v, file_header_info_v, quote_character_v, quote_escape_character_v, record_delimiter_v) by {
                        let i0 = choose|i: int| 0 <= i <= 7 && cur == (#[trigger] suffix_csv_input(v, i)) + rest && settled_csv_input(v, i, g_allow_quoted_record_delimiter, g_comments, g_field_delimiter, g_file_header_info, g_quote_character, g_quote_escape_character, g_record_delimiter);
                        lemma_csv_input_names();
                        lemma_csv_input_walk(v, i0);
                        let p0 = next_member_csv_input(v, i0);
                        assert(cur == suffix_csv_input(v, p0) + rest);
                        if p0 == 7 {
                            assert(suffix_csv_input(v, 7) + rest =~= rest);
                            lemma_content_end_scan(rest);
                        } else if p0 == 0 {
                            lemma_csv_input_member_0(v, rest, cur);
                        } else if p0 == 1 {
                            lemma_csv_input_member_1(v, rest, cur);
                        } else if p0 == 2 {
                            lemma_csv_input_member_2(v, rest, cur);
                        } else if p0 == 3 {
                            lemma_csv_input_member_3(v, rest, cur);
                        } else if p0 == 4 {
                            lemma_csv_input_member_4(v, rest, cur);
                        } else if p0 == 5 {
                            lemma_csv_input_member_5(v, rest, cur);
                        } else if p0 == 6 {
                            lemma_csv_input_member_6(v, rest, cur);
                        }
                        assert(p0 == 5);
                        assert(0 <= 6 <= 7 && d.remaining() == suffix_csv_input(v, 6) + rest && settled_csv_input(v, 6, allow_quoted_record_delimiter_v, comments_v, field_delimiter_v, file_header_info_v, quote_character_v, quote_escape_character_v, record_delimiter_v));
                }
                        }
                    } else if eq_bytes(c.name.as_slice(), t_record_delimiter()) {
                        let t = match read_text_member(d, &c) {
                            Result::Ok(t) => t,
                            Result::Err(e) => {
                                proof {
                                    assert forall|v: CSVInput, rest: Seq<u8>|
                    (v.valid() && orig == #[trigger] (v.content_spec() + rest) && content_end(rest)) implies false by {
                        let i0 = choose|i: int| 0 <= i <= 7 && cur == (#[trigger] suffix_csv_input(v, i)) + rest && settled_csv_input(v, i, g_allow_quoted_record_delimiter, g_comments, g_field_delimiter, g_file_header_info, g_quote_character, g_quote_escape_character, g_record_delimiter);
                        lemma_csv_input_names();
                        lemma_csv_input_walk(v, i0);
                        let p0 = next_member_csv_input(v, i0);
                        assert(cur == suffix_csv_input(v, p0) + rest);
                        if p0 == 7 {
                            assert(suffix_csv_input(v, 7) + rest =~= rest);
                            lemma_content_end_scan(rest);
                        } else if p0 == 0 {
                            lemma_csv_input_member_0(v, rest, cur);
                        } else if p0 == 1 {
                            lemma_csv_input_member_1(v, rest, cur);
                        } else if p0 == 2 {
                            lemma_csv_input_member_2(v, rest, cur);
                        } else if p0 == 3 {
                            lemma_csv_input_member_3(v, rest, cur);
                        } else if p0 == 4 {
                            lemma_csv_input_member_4(v, rest, cur);
                        } else if p0 == 5 {
                            lemma_csv_input_member_5(v, rest, cur);
                        } else if p0 == 6 {
                            lemma_csv_input_member_6(v, rest, cur);
                        }
                }
                                }
                                return Err(e);
                            },
                        };
                        record_delimiter_v = Option::Some(t);
                        proof {
                            assert forall|v: CSVInput, rest: Seq<u8>|
                    (v.valid() && orig == #[trigger] (v.content_spec() + rest) && content_end(rest)) implies exists|i: int|
                    0 <= i <= 7 && d.remaining() == (#[trigger] suffix_csv_input(v, i)) + rest
                        && settled_csv_input(v, i, allow_quoted_record_delimiter_v, comments_v, field_delimiter_v, file_header_info_v, quote_character_v, quote_escape_character_v, record_delimiter_v) by {
                        let i0 = choose|i: int| 0 <= i <= 7 && cur == (#[trigger] suffix_csv_input(v, i)) + rest && settled_csv_input(v, i, g_allow_quoted_record_delimiter, g_comments, g_field_delimiter, g_file_header_info, g_quote_character, g_quote_escape_character, g_record_delimiter);
                        lemma_csv_input_names();
                        lemma_csv_input_walk(v, i0);
                        let p0 = next_member_csv_input(v, i0);
                        assert(cur == suffix_csv_input(v, p0) + rest);
                        if p0 == 7 {
                            assert(suffix_csv_input(v, 7) + rest =~= rest);
                            lemma_content_end_scan(rest);
                        } else if p0 == 0 {
                            lemma_csv_input_member_0(v, rest, cur);
                        } else if p0 == 1 {
                            lemma_csv_input_member_1(v, rest, cur);
                        } else if p0 == 2 {
                            lemma_csv_input_member_2(v, rest, cur);
                        } else if p0 == 3 {
                            lemma_csv_input_member_3(v, rest, cur);
                        } else if p0 == 4 {
                            lemma_csv_input_member_4(v, rest, cur);
                        } else if p0 == 5 {
                            lemma_csv_input_member_5(v, rest, cur);
                        } else if p0 == 6 {
                            lemma_csv_input_member_6(v, rest, cur);
                        }
                        assert(p0 == 6);
                        assert(0 <= 7 <= 7 && d.remaining() == suffix_csv_input(v, 7) + rest && settled_csv_input(v, 7, allow_quoted_record_delimiter_v, comments_v, field_delimiter_v, file_header_info_v, quote_character_v, quote_escape_character_v, record_delimiter_v));
                }
                        }
                    } else {
                        match skip_member(d, &c) {
                            Result::Ok(u) => {},
                            Result::Err(e) => {
                                proof {
                                    assert forall|v: CSVInput, rest: Seq<u8>|
                    (v.valid() && orig == #[trigger] (v.content_spec() + rest) && content_end(rest)) implies false by {
                        let i0 = choose|i: int| 0 <= i <= 7 && cur == (#[trigger] suffix_csv_input(v, i)) + rest && settled_csv_input(v, i, g_allow_quoted_record_delimiter, g_comments, g_field_delimiter, g_file_header_info, g_quote_character, g_quote_escape_character, g_record_delimiter);
                        lemma_csv_input_names();
                        lemma_csv_input_walk(v, i0);
                        let p0 = next_member_csv_input(v, i0);
                        assert(cur == suffix_csv_input(v, p0) + rest);
                        if p0 == 7 {
                            assert(suffix_csv_input(v, 7) + rest =~= rest);
                            lemma_content_end_scan(rest);
                        } else if p0 == 0 {
                            lemma_csv_input_member_0(v, rest, cur);
                        } else if p0 == 1 {
                            lemma_csv_input_member_1(v, rest, cur);
                        } else if p0 == 2 {
                            lemma_csv_input_member_2(v, rest, cur);
                        } else if p0 == 3 {
                            lemma_csv_input_member_3(v, rest, cur);
                        } else if p0 == 4 {
                            lemma_csv_input_member_4(v, rest, cur);
                        } else if p0 == 5 {
                            lemma_csv_input_member_5(v, rest, cur);
                        } else if p0 == 6 {
                            lemma_csv_input_member_6(v, rest, cur);
                        }
                }
                                }
                                return Err(e);
                            },
                        }
                        proof {
                            assert forall|v: CSVInput, rest: Seq<u8>|
                    (v.valid() && orig == #[trigger] (v.content_spec() + rest) && content_end(rest)) implies false by {
                        let i0 = choose|i: int| 0 <= i <= 7 && cur == (#[trigger] suffix_csv_input(v, i)) + rest && settled_csv_input(v, i, g_allow_quoted_record_delimiter, g_comments, g_field_delimiter, g_file_header_info, g_quote_character, g_quote_escape_character, g_record_delimiter);
                        lemma_csv_input_names();
                        lemma_csv_input_walk(v, i0);
                        let p0 = next_member_csv_input(v, i0);
                        assert(cur == suffix_csv_input(v, p0) + rest);
                        if p0 == 7 {
                            assert(suffix_csv_input(v, 7) + rest =~= rest);
                            lemma_content_end_scan(rest);
                        } else if p0 == 0 {
                            lemma_csv_input_member_0(v, rest, cur);
                        } else if p0 == 1 {
                            lemma_csv_input_member_1(v, rest, cur);
                        } else if p0 == 2 {
                            lemma_csv_input_member_2(v, rest, cur);
                        } else if p0 == 3 {
                            lemma_csv_input_member_3(v, rest, cur);
                        } else if p0 == 4 {
                            lemma_csv_input_member_4(v, rest, cur);
                        } else if p0 == 5 {
                            lemma_csv_input_member_5(v, rest, cur);
                        } else if p0 == 6 {
                            lemma_csv_input_member_6(v, rest, cur);
                        }
                }
                        }
                    }
                },
                Option::None => {
                    let allow_quoted_record_delimiter = allow_quoted_record_delimiter_v;
                    let comments = comments_v;
                    let field_delimiter = field_delimiter_v;
                    let file_header_info = file_header_info_v;
                    let quote_character = quote_character_v;
                    let quote_escape_character = quote_escape_character_v;
                    let record_delimiter = record_delimiter_v;
                    let res = CSVInput { allow_quoted_record_delimiter, comments, field_delimiter, file_header_info, quote_character, quote_escape_character, record_delimiter };
                    proof {
                        assert forall|v: CSVInput, rest: Seq<u8>|
                        (v.valid() && orig == #[trigger] (v.content_spec() + rest) && content_end(rest)) implies (v.same_model(&res) && d.remaining() == rest) by {
                            let i0 = choose|i: int| 0 <= i <= 7 && cur == (#[trigger] suffix_csv_input(v, i)) + rest && settled_csv_input(v, i, g_allow_quoted_record_delimiter, g_comments, g_field_delimiter, g_file_header_info, g_quote_character, g_quote_escape_character, g_record_delimiter);
                            lemma_csv_input_names();
                            lemma_csv_input_walk(v, i0);
                            let p0 = next_member_csv_input(v, i0);
                            assert(cur == suffix_csv_input(v, p0) + rest);
                            if p0 == 7 {
                                assert(suffix_csv_input(v, 7) + rest =~= rest);
                                lemma_content_end_scan(rest);
                            } else if p0 == 0 {
                                lemma_csv_input_member_0(v, rest, cur);
                            } else if p0 == 1 {
                                lemma_csv_input_member_1(v, rest, cur);
                            } else if p0 == 2 {
                                lemma_csv_input_member_2(v, rest, cur);
                            } else if p0 == 3 {
                                lemma_csv_input_member_3(v, rest, cur);
                            } else if p0 == 4 {
                                lemma_csv_input_member_4(v, rest, cur);
                            } else if p0 == 5 {
                                lemma_csv_input_member_5(v, rest, cur);
                            } else if p0 == 6 {
                                lemma_csv_input_member_6(v, rest, cur);
                            }
                    }
                    }
                    return Ok(res);
                },
            }
        }
    }
}

impl DeserializeContent for CSVInput {
    fn deserialize_content<'a>(d: &mut Deserializer<'a>) -> (r: DeResult<Self>) {
        CSVInput::read_content(d)
    }
}

/// How CSV output records are formed.
#[derive(Debug, Clone, PartialEq, Eq)]
pub struct CSVOutput {
    pub field_delimiter: Option<Vec<u8>>,
    pub quote_character: Option<Vec<u8>>,
    pub quote_escape_character: Option<Vec<u8>>,
    pub quote_fields: Option<QuoteFields>,
    pub record_delimiter: Option<Vec<u8>>,
}

impl SerializeContent for CSVOutput {
    open spec fn content_spec(&self) -> Seq<u8> {
        opt_text_el(n_field_delimiter(), opt_view(self.field_delimiter))
            + opt_text_el(n_quote_character(), opt_view(self.quote_character))
            + opt_text_el(n_quote_escape_character(), opt_view(self.quote_escape_character))
            + opt_el_of(n_quote_fields(), self.quote_fields)
            + opt_text_el(n_record_delimiter(), opt_view(self.record_delimiter))
    }

    #[verifier::rlimit(60)]
    fn serialize_content(&self, s: &mut Serializer) {
        let ghost orig = s@;
        write_opt_text(s, t_field_delimiter(), &self.field_delimiter);
        write_opt_text(s, t_quote_character(), &self.quote_character);
        write_opt_text(s, t_quote_escape_character(), &self.quote_escape_character);
        write_opt_el(s, t_quote_fields(), &self.quote_fields);
        write_opt_text(s, t_record_delimiter(), &self.record_delimiter);
        proof {
            assert(s@ =~= orig + self.content_spec());
        }
    }
}

impl CSVOutput {
    /// Structurally valid: extension values hold only unrecognized text, and
    /// a present flattened list is non-empty (an empty one is
    /// indistinguishable on the wire from an absent member).
    pub open spec fn valid(&self) -> bool {
        &&& (match self.quote_fields { Option::Some(e) => e.wf(), Option::None => true })
    }

    /// Member-wise agreement: scalar members equal as values, text members
    /// equal as byte strings, enumerated members equal as wire strings on the
    /// same side of the known/extension split, nested members agreeing
    /// member-wise.
    pub open spec fn same_model(&self, other: &CSVOutput) -> bool {
        &&& opt_view(self.field_delimiter) == opt_view(other.field_delimiter)
        &&& opt_view(self.quote_character) == opt_view(other.quote_character)
        &&& opt_view(self.quote_escape_character) == opt_view(other.quote_escape_character)
        &&& (match (self.quote_fields, other.quote_fields) { (Option::Some(a), Option::Some(b)) => a.same_as(&b), (Option::None, Option::None) => true, _ => false })
        &&& opt_view(self.record_delimiter) == opt_view(other.record_delimiter)
    }
}

/// The content encoding of the members from index `i` on.
pub open spec fn suffix_csv_output(v: CSVOutput, i: int) -> Seq<u8> {
    if i <= 0 {
        opt_text_el(n_field_delimiter(), opt_view(v.field_delimiter)) + (opt_text_el(n_quote_character(), opt_view(v.quote_character)) + (opt_text_el(n_quote_escape_character(), opt_view(v.quote_escape_character)) + (opt_el_of(n_quote_fields(), v.quote_fields) + (opt_text_el(n_record_delimiter(), opt_view(v.record_delimiter)) + (Seq::empty())))))
    } else if i <= 1 {
        opt_text_el(n_quote_character(), opt_view(v.quote_character)) + (opt_text_el(n_quote_escape_character(), opt_view(v.quote_escape_character)) + (opt_el_of(n_quote_fields(), v.quote_fields) + (opt_text_el(n_record_delimiter(), opt_view(v.record_delimiter)) + (Seq::empty()))))
    } else if i <= 2 {
        opt_text_el(n_quote_escape_character(), opt_view(v.quote_escape_character)) + (opt_el_of(n_quote_fields(), v.quote_fields) + (opt_text_el(n_record_delimiter(), opt_view(v.record_delimiter)) + (Seq::empty())))
    } else if i <= 3 {
        opt_el_of(n_quote_fields(), v.quote_fields) + (opt_text_el(n_record_delimiter(), opt_view(v.record_delimiter)) + (Seq::empty()))
    } else if i <= 4 {
        opt_text_el(n_record_delimiter(), opt_view(v.record_delimiter)) + (Seq::empty())
    } else {
        Seq::empty()
    }
}

/// The first member at or after `i` that the next child element can belong
/// to.
pub open spec fn next_member_csv_output(v: CSVOutput, i: int) -> int {
    if i <= 0 && (v.field_delimiter is Some) {
        0
    } else if i <= 1 && (v.quote_character is Some) {
        1
    } else if i <= 2 && (v.quote_escape_character is Some) {
        2
    } else if i <= 3 && (v.quote_fields is Some) {
        3
    } else if i <= 4 && (v.record_delimiter is Some) {
        4
    } else {
        5
    }
}

/// What the decoder's state says after the members before `i` have been
/// dealt with.
pub open spec fn settled_csv_output(v: CSVOutput, i: int, field_delimiter_s: Option<Vec<u8>>, quote_character_s: Option<Vec<u8>>, quote_escape_character_s: Option<Vec<u8>>, quote_fields_s: Option<QuoteFields>, record_delimiter_s: Option<Vec<u8>>) -> bool {
    &&& (0 < i ==> opt_view(field_delimiter_s) == opt_view(v.field_delimiter))
    &&& (0 >= i ==> field_delimiter_s is None)
    &&& (1 < i ==> opt_view(quote_character_s) == opt_view(v.quote_character))
    &&& (1 >= i ==> quote_character_s is None)
    &&& (2 < i ==> opt_view(quote_escape_character_s) == opt_view(v.quote_escape_character))
    &&& (2 >= i ==> quote_escape_character_s is None)
    &&& (3 < i ==> (match (quote_fields_s, v.quote_fields) { (Option::Some(a), Option::Some(b)) => a.same_as(&b), (Option::None, Option::None) => true, _ => false }))
    &&& (3 >= i ==> quote_fields_s is None)
    &&& (4 < i ==> opt_view(record_delimiter_s) == opt_view(v.record_delimiter))
    &&& (4 >= i ==> record_delimiter_s is None)
}

proof fn lemma_csv_output_names()
    ensures
        n_field_delimiter().len() >= 1,
        forall|ii: int| 0 <= ii < n_field_delimiter().len() ==> is_name_byte(#[trigger] n_field_delimiter()[ii]),
        n_quote_character().len() >= 1,
        forall|ii: int| 0 <= ii < n_quote_character().len() ==> is_name_byte(#[trigger] n_quote_character()[ii]),
        n_quote_escape_character().len() >= 1,
        forall|ii: int| 0 <= ii < n_quote_escape_character().len() ==> is_name_byte(#[trigger] n_quote_escape_character()[ii]),
        n_quote_fields().len() >= 1,
        forall|ii: int| 0 <= ii < n_quote_fields().len() ==> is_name_byte(#[trigger] n_quote_fields()[ii]),
        n_record_delimiter().len() >= 1,
        forall|ii: int| 0 <= ii < n_record_delimiter().len() ==> is_name_byte(#[trigger] n_record_delimiter()[ii]),
        n_field_delimiter() != n_quote_character(),
        n_field_delimiter() != n_quote_escape_character(),
        n_field_delimiter() != n_quote_fields(),
        n_field_delimiter() != n_record_delimiter(),
        n_quote_character() != n_quote_escape_character(),
        n_quote_character() != n_quote_fields(),
        n_quote_character() != n_record_delimiter(),
        n_quote_escape_character() != n_quote_fields(),
        n_quote_escape_character() != n_record_delimiter(),
        n_quote_fields() != n_record_delimiter(),
{
    assert(n_field_delimiter()[0] == 0x46 && n_quote_character()[0] == 0x51);
    assert(n_field_delimiter().len() != n_quote_escape_character().len());
    assert(n_field_delimiter().len() != n_quote_fields().len());
    assert(n_field_delimiter().len() != n_record_delimiter().len());
    assert(n_quote_character().len() != n_quote_escape_character().len());
    assert(n_quote_character().len() != n_quote_fields().len());
    assert(n_quote_character().len() != n_record_delimiter().len());
    assert(n_quote_escape_character().len() != n_quote_fields().len());
    assert(n_quote_escape_character().len() != n_record_delimiter().len());
    assert(n_quote_fields().len() != n_record_delimiter().len());
}

proof fn lemma_csv_output_walk(v: CSVOutput, i: int)
    requires
        0 <= i <= 5,
    ensures
        ({
            let p = next_member_csv_output(v, i);
            &&& i <= p <= 5
            &&& suffix_csv_output(v, i) == suffix_csv_output(v, p)
            &&& (i <= 0 && 0 < p ==> v.field_delimiter is None)
            &&& (i <= 1 && 1 < p ==> v.quote_character is None)
            &&& (i <= 2 && 2 < p ==> v.quote_escape_character is None)
            &&& (i <= 3 && 3 < p ==> v.quote_fields is None)
            &&& (i <= 4 && 4 < p ==> v.record_delimiter is None)
            &&& (p == 0 ==> (v.field_delimiter is Some))
            &&& (p == 1 ==> (v.quote_character is Some))
            &&& (p == 2 ==> (v.quote_escape_character is Some))
            &&& (p == 3 ==> (v.quote_fields is Some))
            &&& (p == 4 ==> (v.record_delimiter is Some))
        }),
    decreases 5 - i,
{
    if i < 5 {
        if i == 0 {
            if !(v.field_delimiter is Some) {
                assert(suffix_csv_output(v, 0) =~= suffix_csv_output(v, 1));
                lemma_csv_output_walk(v, 1);
            }
        } else if i == 1 {
            if !(v.quote_character is Some) {
                assert(suffix_csv_output(v, 1) =~= suffix_csv_output(v, 2));
                lemma_csv_output_walk(v, 2);
            }
        } else if i == 2 {
            if !(v.quote_escape_character is Some) {
                assert(suffix_csv_output(v, 2) =~= suffix_csv_output(v, 3));
                lemma_csv_output_walk(v, 3);
            }
        } else if i == 3 {
            if !(v.quote_fields is Some) {
                assert(suffix_csv_output(v, 3) =~= suffix_csv_output(v, 4));
                lemma_csv_output_walk(v, 4);
            }
        } else if i == 4 {
            if !(v.record_delimiter is Some) {
                assert(suffix_csv_output(v, 4) =~= suffix_csv_output(v, 5));
                lemma_csv_output_walk(v, 5);
            }
        }
    }
}

#[verifier::rlimit(100)]
proof fn lemma_csv_output_member_0(v: CSVOutput, rest: Seq<u8>, cur: Seq<u8>)
    requires
        content_end(rest),
        v.field_delimiter is Some,
        cur == suffix_csv_output(v, 0) + rest,
    ensures
        ({
                let s1 = cur.skip(open_tag(n_field_delimiter()).len() as int);
                let m = escape_seq(v.field_delimiter->Some_0@).len() as int;
                &&& v.field_delimiter is Some
                &&& child_scan(cur) == Some((Some((n_field_delimiter(), false)), open_tag(n_field_delimiter()).len() as nat))
                &&& until_count(s1, LT) == m
                &&& unescape_seq(s1.take(m)) == Some(v.field_delimiter->Some_0@)
                &&& close_scan(s1.skip(m), n_field_delimiter()) == Some((n_field_delimiter().len() + 3) as nat)
                &&& s1.skip(m).skip(n_field_delimiter().len() as int + 3) == suffix_csv_output(v, 1) + rest
            }),
{
    lemma_csv_output_names();
    assert(suffix_csv_output(v, 0) =~= text_el(n_field_delimiter(), v.field_delimiter->Some_0@) + suffix_csv_output(v, 1));
    assert(cur =~= text_el(n_field_delimiter(), v.field_delimiter->Some_0@) + (suffix_csv_output(v, 1) + rest));
    lemma_text_member_shape(n_field_delimiter(), v.field_delimiter->Some_0@, suffix_csv_output(v, 1) + rest);
}

#[verifier::rlimit(100)]
proof fn lemma_csv_output_member_1(v: CSVOutput, rest: Seq<u8>, cur: Seq<u8>)
    requires
        content_end(rest),
        v.quote_character is Some,
        cur == suffix_csv_output(v, 1) + rest,
    ensures
        ({
                let s1 = cur.skip(open_tag(n_quote_character()).len() as int);
                let m = escape_seq(v.quote_character->Some_0@).len() as int;
                &&& v.quote_character is Some
                &&& child_scan(cur) == Some((Some((n_quote_character(), false)), open_tag(n_quote_character()).len() as nat))
                &&& until_count(s1, LT) == m
                &&& unescape_seq(s1.take(m)) == Some(v.quote_character->Some_0@)
                &&& close_scan(s1.skip(m), n_quote_character()) == Some((n_quote_character().len() + 3) as nat)
                &&& s1.skip(m).skip(n_quote_character().len() as int + 3) == suffix_csv_output(v, 2) + rest
            }),
{
    lemma_csv_output_names();
    assert(suffix_csv_output(v, 1) =~= text_el(n_quote_character(), v.quote_character->Some_0@) + suffix_csv_output(v, 2));
    assert(cur =~= text_el(n_quote_character(), v.quote_character->Some_0@) + (suffix_csv_output(v, 2) + rest));
    lemma_text_member_shape(n_quote_character(), v.quote_character->Some_0@, suffix_csv_output(v, 2) + rest);
}

#[verifier::rlimit(100)]
proof fn lemma_csv_output_member_2(v: CSVOutput, rest: Seq<u8>, cur: Seq<u8>)
    requires
        content_end(rest),
        v.quote_escape_character is Some,
        cur == suffix_csv_output(v, 2) + rest,
    ensures
        ({
                let s1 = cur.skip(open_tag(n_quote_escape_character()).len() as int);
                let m = escape_seq(v.quote_escape_character->Some_0@).len() as int;
                &&& v.quote_escape_character is Some
                &&& child_scan(cur) == Some((Some((n_quote_escape_character(), false)), open_tag(n_quote_escape_character()).len() as nat))
                &&& until_count(s1, LT) == m
                &&& unescape_seq(s1.take(m)) == Some(v.quote_escape_character->Some_0@)
                &&& close_scan(s1.skip(m), n_quote_escape_character()) == Some((n_quote_escape_character().len() + 3) as nat)
                &&& s1.skip(m).skip(n_quote_escape_character().len() as int + 3) == suffix_csv_output(v, 3) + rest
            }),
{
    lemma_csv_output_names();
    assert(suffix_csv_output(v, 2) =~= text_el(n_quote_escape_character(), v.quote_escape_character->Some_0@) + suffix_csv_output(v, 3));
    assert(cur =~= text_el(n_quote_escape_character(), v.quote_escape_character->Some_0@) + (suffix_csv_output(v, 3) + rest));
    lemma_text_member_shape(n_quote_escape_character(), v.quote_escape_character->Some_0@, suffix_csv_output(v, 3) + rest);
}

#[verifier::rlimit(100)]
proof fn lemma_csv_output_member_3(v: CSVOutput, rest: Seq<u8>, cur: Seq<u8>)
    requires
        content_end(rest),
        v.quote_fields is Some,
        cur == suffix_csv_output(v, 3) + rest,
    ensures
        ({
                let s1 = cur.skip(open_tag(n_quote_fields()).len() as int);
                let m = escape_seq(v.quote_fields->Some_0.wire_spec()).len() as int;
                &&& v.quote_fields is Some
                &&& child_scan(cur) == Some((Some((n_quote_fields(), false)), open_tag(n_quote_fields()).len() as nat))
                &&& until_count(s1, LT) == m
                &&& unescape_seq(s1.take(m)) == Some(v.quote_fields->Some_0.wire_spec())
                &&& close_scan(s1.skip(m), n_quote_fields()) == Some((n_quote_fields().len() + 3) as nat)
                &&& s1.skip(m).skip(n_quote_fields().len() as int + 3) == suffix_csv_output(v, 4) + rest
            }),
{
    lemma_csv_output_names();
    assert(suffix_csv_output(v, 3) =~= text_el(n_quote_fields(), v.quote_fields->Some_0.wire_spec()) + suffix_csv_output(v, 4));
    assert(cur =~= text_el(n_quote_fields(), v.quote_fields->Some_0.wire_spec()) + (suffix_csv_output(v, 4) + rest));
    lemma_text_member_shape(n_quote_fields(), v.quote_fields->Some_0.wire_spec(), suffix_csv_output(v, 4) + rest);
}

#[verifier::rlimit(100)]
proof fn lemma_csv_output_member_4(v: CSVOutput, rest: Seq<u8>, cur: Seq<u8>)
    requires
        content_end(rest),
        v.record_delimiter is Some,
        cur == suffix_csv_output(v, 4) + rest,
    ensures
        ({
                let s1 = cur.skip(open_tag(n_record_delimiter()).len() as int);
                let m = escape_seq(v.record_delimiter->Some_0@).len() as int;
                &&& v.record_delimiter is Some
                &&& child_scan(cur) == Some((Some((n_record_delimiter(), false)), open_tag(n_record_delimiter()).len() as nat))
                &&& until_count(s1, LT) == m
                &&& unescape_seq(s1.take(m)) == Some(v.record_delimiter->Some_0@)
                &&& close_scan(s1.skip(m), n_record_delimiter()) == Some((n_record_delimiter().len() + 3) as nat)
                &&& s1.skip(m).skip(n_record_delimiter().len() as int + 3) == suffix_csv_output(v, 5) + rest
            }),
{
    lemma_csv_output_names();
    assert(suffix_csv_output(v, 4) =~= text_el(n_record_delimiter(), v.record_delimiter->Some_0@) + suffix_csv_output(v, 5));
    assert(cur =~= text_el(n_record_delimiter(), v.record_delimiter->Some_0@) + (suffix_csv_output(v, 5) + rest));
    lemma_text_member_shape(n_record_delimiter(), v.record_delimiter->Some_0@, suffix_csv_output(v, 5) + rest);
}


impl CSVOutput {
    /// Decode this type's element content: members in any order, unknown
    /// members skipped, required members demanded.
    ///
    /// Round-trip: the exact content encoding of any structurally valid
    /// value, followed by the end of the enclosing content, decodes back to
    /// a value with the same members, consuming exactly the encoding.
    #[verifier::rlimit(100)]
    pub fn read_content<'a>(d: &mut Deserializer<'a>) -> (r: DeResult<CSVOutput>)
        requires
            old(d).wf(),
        ensures
            final(d).wf(),
            final(d).remaining().len() <= old(d).remaining().len(),
            forall|v: CSVOutput, rest: Seq<u8>|
                (v.valid() && old(d).remaining() == #[trigger] (v.content_spec() + rest)
                    && content_end(rest)) ==> (r matches Ok(res) && v.same_model(&res)
                    && final(d).remaining() == rest),
    {
        let ghost orig = d.remaining();
        let mut field_delimiter_v: Option<Vec<u8>> = Option::None;
        let mut quote_character_v: Option<Vec<u8>> = Option::None;
        let mut quote_escape_character_v: Option<Vec<u8>> = Option::None;
        let mut quote_fields_v: Option<QuoteFields> = Option::None;
        let mut record_delimiter_v: Option<Vec<u8>> = Option::None;
        proof {
            assert forall|v: CSVOutput, rest: Seq<u8>|
                (v.valid() && orig == #[trigger] (v.content_spec() + rest) && content_end(rest)) implies exists|i: int|
                0 <= i <= 5 && orig == (#[trigger] suffix_csv_output(v, i)) + rest
                    && settled_csv_output(v, i, field_delimiter_v, quote_character_v, quote_escape_character_v, quote_fields_v, record_delimiter_v) by {
                    assert(v.content_spec() =~= suffix_csv_output(v, 0));
                    assert(0 <= 0 <= 5 && orig == suffix_csv_output(v, 0) + rest && settled_csv_output(v, 0, field_delimiter_v, quote_character_v, quote_escape_character_v, quote_fields_v, record_delimiter_v));
            }
        }
        loop
            invariant
                d.wf(),
                d.remaining().len() <= old(d).remaining().len(),
                orig == old(d).remaining(),
                forall|v: CSVOutput, rest: Seq<u8>|
                    (v.valid() && orig == #[trigger] (v.content_spec() + rest) && content_end(
                        rest,
                    )) ==> exists|i: int|
                        0 <= i <= 5 && d.remaining() == (#[trigger] suffix_csv_output(v, i))
                            + rest && settled_csv_output(v, i, field_delimiter_v, quote_character_v, quote_escape_character_v, quote_fields_v, record_delimiter_v),
            decreases d.remaining().len(),
        {
            let ghost cur = d.remaining();
            let ghost g_field_delimiter = field_delimiter_v;
            let ghost g_quote_character = quote_character_v;
            let ghost g_quote_escape_character = quote_escape_character_v;
            let ghost g_quote_fields = quote_fields_v;
            let ghost g_record_delimiter = record_delimiter_v;
            let c_opt = match d.read_child_open() {
                Result::Ok(x) => x,
                Result::Err(e) => {
                    proof {
                        assert forall|v: CSVOutput, rest: Seq<u8>|
                    (v.valid() && orig == #[trigger] (v.content_spec() + rest) && content_end(rest)) implies false by {
                        let i0 = choose|i: int| 0 <= i <= 5 && cur == (#[trigger] suffix_csv_output(v, i)) + rest && settled_csv_output(v, i, g_field_delimiter, g_quote_character, g_quote_escape_character, g_quote_fields, g_record_delimiter);
                        lemma_csv_output_names();
                        lemma_csv_output_walk(v, i0);
                        let p0 = next_member_csv_output(v, i0);
                        assert(cur == suffix_csv_output(v, p0) + rest);
                        if p0 == 5 {
                            assert(suffix_csv_output(v, 5) + rest =~= rest);
                            lemma_content_end_scan(rest);
                        } else if p0 == 0 {
                            lemma_csv_output_member_0(v, rest, cur);
                        } else if p0 == 1 {
                            lemma_csv_output_member_1(v, rest, cur);
                        } else if p0 == 2 {
                            lemma_csv_output_member_2(v, rest, cur);
                        } else if p0 == 3 {
                            lemma_csv_output_member_3(v, rest, cur);
                        } else if p0 == 4 {
                            lemma_csv_output_member_4(v, rest, cur);
                        }
                }
                    }
                    return Err(e);
                },
            };
            match c_opt {
                Option::Some(c) => {
                    if eq_bytes(c.name.as_slice(), t_field_delimiter()) {
                        let t = match read_text_member(d, &c) {
                            Result::Ok(t) => t,
                            Result::Err(e) => {
                                proof {
                                    assert forall|v: CSVOutput, rest: Seq<u8>|
                    (v.valid() && orig == #[trigger] (v.content_spec() + rest) && content_end(rest)) implies false by {
                        let i0 = choose|i: int| 0 <= i <= 5 && cur == (#[trigger] suffix_csv_output(v, i)) + rest && settled_csv_output(v, i, g_field_delimiter, g_quote_character, g_quote_escape_character, g_quote_fields, g_record_delimiter);
                        lemma_csv_output_names();
                        lemma_csv_output_walk(v, i0);
                        let p0 = next_member_csv_output(v, i0);
                        assert(cur == suffix_csv_output(v, p0) + rest);
                        if p0 == 5 {
                            assert(suffix_csv_output(v, 5) + rest =~= rest);
                            lemma_content_end_scan(rest);
                        } else if p0 == 0 {
                            lemma_csv_output_member_0(v, rest, cur);
                        } else if p0 == 1 {
                            lemma_csv_output_member_1(v, rest, cur);
                        } else if p0 == 2 {
                            lemma_csv_output_member_2(v, rest, cur);
                        } else if p0 == 3 {
                            lemma_csv_output_member_3(v, rest, cur);
                        } else if p0 == 4 {
                            lemma_csv_output_member_4(v, rest, cur);
                        }
                }
                                }
                                return Err(e);
                            },
                        };
                        field_delimiter_v = Option::Some(t);
                        proof {
                            assert forall|v: CSVOutput, rest: Seq<u8>|
                    (v.valid() && orig == #[trigger] (v.content_spec() + rest) && content_end(rest)) implies exists|i: int|
                    0 <= i <= 5 && d.remaining() == (#[trigger] suffix_csv_output(v, i)) + rest
                        && settled_csv_output(v, i, field_delimiter_v, quote_character_v, quote_escape_character_v, quote_fields_v, record_delimiter_v) by {
                        let i0 = choose|i: int| 0 <= i <= 5 && cur == (#[trigger] suffix_csv_output(v, i)) + rest && settled_csv_output(v, i, g_field_delimiter, g_quote_character, g_quote_escape_character, g_quote_fields, g_record_delimiter);
                        lemma_csv_output_names();
                        lemma_csv_output_walk(v, i0);
                        let p0 = next_member_csv_output(v, i0);
                        assert(cur == suffix_csv_output(v, p0) + rest);
                        if p0 == 5 {
                            assert(suffix_csv_output(v, 5) + rest =~= rest);
                            lemma_content_end_scan(rest);
                        } else if p0 == 0 {
                            lemma_csv_output_member_0(v, rest, cur);
                        } else if p0 == 1 {
                            lemma_csv_output_member_1(v, rest, cur);
                        } else if p0 == 2 {
                            lemma_csv_output_member_2(v, rest, cur);
                        } else if p0 == 3 {
                            lemma_csv_output_member_3(v, rest, cur);
                        } else if p0 == 4 {
                            lemma_csv_output_member_4(v, rest, cur);
                        }
                        assert(p0 == 0);
                        assert(0 <= 1 <= 5 && d.remaining() == suffix_csv_output(v, 1) + rest && settled_csv_output(v, 1, field_delimiter_v, quote_character_v, quote_escape_character_v, quote_fields_v, record_delimiter_v));
                }
                        }
                    } else if eq_bytes(c.name.as_slice(), t_quote_character()) {
                        let t = match read_text_member(d, &c) {
                            Result::Ok(t) => t,
                            Result::Err(e) => {
                                proof {
                                    assert forall|v: CSVOutput, rest: Seq<u8>|
                    (v.valid() && orig == #[trigger] (v.content_spec() + rest) && content_end(rest)) implies false by {
                        let i0 = choose|i: int| 0 <= i <= 5 && cur == (#[trigger] suffix_csv_output(v, i)) + rest && settled_csv_output(v, i, g_field_delimiter, g_quote_character, g_quote_escape_character, g_quote_fields, g_record_delimiter);
                        lemma_csv_output_names();
                        lemma_csv_output_walk(v, i0);
                        let p0 = next_member_csv_output(v, i0);
                        assert(cur == suffix_csv_output(v, p0) + rest);
                        if p0 == 5 {
                            assert(suffix_csv_output(v, 5) + rest =~= rest);
                            lemma_content_end_scan(rest);
                        } else if p0 == 0 {
                            lemma_csv_output_member_0(v, rest, cur);
                        } else if p0 == 1 {
                            lemma_csv_output_member_1(v, rest, cur);
                        } else if p0 == 2 {
                            lemma_csv_output_member_2(v, rest, cur);
                        } else if p0 == 3 {
                            lemma_csv_output_member_3(v, rest, cur);
                        } else if p0 == 4 {
                            lemma_csv_output_member_4(v, rest, cur);
                        }
                }
                                }
                                return Err(e);
                            },
                        };
                        quote_character_v = Option::Some(t);
                        proof {
                            assert forall|v: CSVOutput, rest: Seq<u8>|
                    (v.valid() && orig == #[trigger] (v.content_spec() + rest) && content_end(rest)) implies exists|i: int|
                    0 <= i <= 5 && d.remaining() == (#[trigger] suffix_csv_output(v, i)) + rest
                        && settled_csv_output(v, i, field_delimiter_v, quote_character_v, quote_escape_character_v, quote_fields_v, record_delimiter_v) by {
                        let i0 = choose|i: int| 0 <= i <= 5 && cur == (#[trigger] suffix_csv_output(v, i)) + rest && settled_csv_output(v, i, g_field_delimiter, g_quote_character, g_quote_escape_character, g_quote_fields, g_record_delimiter);
                        lemma_csv_output_names();
                        lemma_csv_output_walk(v, i0);
                        let p0 = next_member_csv_output(v, i0);
                        assert(cur == suffix_csv_output(v, p0) + rest);
                        if p0 == 5 {
                            assert(suffix_csv_output(v, 5) + rest =~= rest);
                            lemma_content_end_scan(rest);
                        } else if p0 == 0 {
                            lemma_csv_output_member_0(v, rest, cur);
                        } else if p0 == 1 {
                            lemma_csv_output_member_1(v, rest, cur);
                        } else if p0 == 2 {
                            lemma_csv_output_member_2(v, rest, cur);
                        } else if p0 == 3 {
                            lemma_csv_output_member_3(v, rest, cur);
                        } else if p0 == 4 {
                            lemma_csv_output_member_4(v, rest, cur);
                        }
                        assert(p0 == 1);
                        assert(0 <= 2 <= 5 && d.remaining() == suffix_csv_output(v, 2) + rest && settled_csv_output(v, 2, field_delimiter_v, quote_character_v, quote_escape_character_v, quote_fields_v, record_delimiter_v));
                }
                        }
                    } else if eq_bytes(c.name.as_slice(), t_quote_escape_character()) {
                        let t = match read_text_member(d, &c) {
                            Result::Ok(t) => t,
                            Result::Err(e) => {
                                proof {
                                    assert forall|v: CSVOutput, rest: Seq<u8>|
                    (v.valid() && orig == #[trigger] (v.content_spec() + rest) && content_end(rest)) implies false by {
                        let i0 = choose|i: int| 0 <= i <= 5 && cur == (#[trigger] suffix_csv_output(v, i)) + rest && settled_csv_output(v, i, g_field_delimiter, g_quote_character, g_quote_escape_character, g_quote_fields, g_record_delimiter);
                        lemma_csv_output_names();
                        lemma_csv_output_walk(v, i0);
                        let p0 = next_member_csv_output(v, i0);
                        assert(cur == suffix_csv_output(v, p0) + rest);
                        if p0 == 5 {
                            assert(suffix_csv_output(v, 5) + rest =~= rest);
                            lemma_content_end_scan(rest);
                        } else if p0 == 0 {
                            lemma_csv_output_member_0(v, rest, cur);
                        } else if p0 == 1 {
                            lemma_csv_output_member_1(v, rest, cur);
                        } else if p0 == 2 {
                            lemma_csv_output_member_2(v, rest, cur);
                        } else if p0 == 3 {
                            lemma_csv_output_member_3(v, rest, cur);
                        } else if p0 == 4 {
                            lemma_csv_output_member_4(v, rest, cur);
                        }
                }
                                }
                                return Err(e);
                            },
                        };
                        quote_escape_character_v = Option::Some(t);
                        proof {
                            assert forall|v: CSVOutput, rest: Seq<u8>|
                    (v.valid() && orig == #[trigger] (v.content_spec() + rest) && content_end(rest)) implies exists|i: int|
                    0 <= i <= 5 && d.remaining() == (#[trigger] suffix_csv_output(v, i)) + rest
                        && settled_csv_output(v, i, field_delimiter_v, quote_character_v, quote_escape_character_v, quote_fields_v, record_delimiter_v) by {
                        let i0 = choose|i: int| 0 <= i <= 5 && cur == (#[trigger] suffix_csv_output(v, i)) + rest && settled_csv_output(v, i, g_field_delimiter, g_quote_character, g_quote_escape_character, g_quote_fields, g_record_delimiter);
                        lemma_csv_output_names();
                        lemma_csv_output_walk(v, i0);
                        let p0 = next_member_csv_output(v, i0);
                        assert(cur == suffix_csv_output(v, p0) + rest);
                        if p0 == 5 {
                            assert(suffix_csv_output(v, 5) + rest =~= rest);
                            lemma_content_end_scan(rest);
                        } else if p0 == 0 {
                            lemma_csv_output_member_0(v, rest, cur);
                        } else if p0 == 1 {
                            lemma_csv_output_member_1(v, rest, cur);
                        } else if p0 == 2 {
                            lemma_csv_output_member_2(v, rest, cur);
                        } else if p0 == 3 {
                            lemma_csv_output_member_3(v, rest, cur);
                        } else if p0 == 4 {
                            lemma_csv_output_member_4(v, rest, cur);
                        }
                        assert(p0 == 2);
                        assert(0 <= 3 <= 5 && d.remaining() == suffix_csv_output(v, 3) + rest && settled_csv_output(v, 3, field_delimiter_v, quote_character_v, quote_escape_character_v, quote_fields_v, record_delimiter_v));
                }
                        }
                    } else if eq_bytes(c.name.as_slice(), t_quote_fields()) {
                        let t = match read_text_member(d, &c) {
                            Result::Ok(t) => t,
                            Result::Err(e) => {
                                proof {
                                    assert forall|v: CSVOutput, rest: Seq<u8>|
                    (v.valid() && orig == #[trigger] (v.content_spec() + rest) && content_end(rest)) implies false by {
                        let i0 = choose|i: int| 0 <= i <= 5 && cur == (#[trigger] suffix_csv_output(v, i)) + rest && settled_csv_output(v, i, g_field_delimiter, g_quote_character, g_quote_escape_character, g_quote_fields, g_record_delimiter);
                        lemma_csv_output_names();
                        lemma_csv_output_walk(v, i0);
                        let p0 = next_member_csv_output(v, i0);
                        assert(cur == suffix_csv_output(v, p0) + rest);
                        if p0 == 5 {
                            assert(suffix_csv_output(v, 5) + rest =~= rest);
                            lemma_content_end_scan(rest);
                        } else if p0 == 0 {
                            lemma_csv_output_member_0(v, rest, cur);
                        } else if p0 == 1 {
                            lemma_csv_output_member_1(v, rest, cur);
                        } else if p0 == 2 {
                            lemma_csv_output_member_2(v, rest, cur);
                        } else if p0 == 3 {
                            lemma_csv_output_member_3(v, rest, cur);
                        } else if p0 == 4 {
                            lemma_csv_output_member_4(v, rest, cur);
                        }
                }
                                }
                                return Err(e);
                            },
                        };
                        quote_fields_v = Option::Some(QuoteFields::from_bytes(t.as_slice()));
                        proof {
                            assert forall|v: CSVOutput, rest: Seq<u8>|
                    (v.valid() && orig == #[trigger] (v.content_spec() + rest) && content_end(rest)) implies exists|i: int|
                    0 <= i <= 5 && d.remaining() == (#[trigger] suffix_csv_output(v, i)) + rest
                        && settled_csv_output(v, i, field_delimiter_v, quote_character_v, quote_escape_character_v, quote_fields_v, record_delimiter_v) by {
                        let i0 = choose|i: int| 0 <= i <= 5 && cur == (#[trigger] suffix_csv_output(v, i)) + rest && settled_csv_output(v, i, g_field_delimiter, g_quote_character, g_quote_escape_character, g_quote_fields, g_record_delimiter);
                        lemma_csv_output_names();
                        lemma_csv_output_walk(v, i0);
                        let p0 = next_member_csv_output(v, i0);
                        assert(cur == suffix_csv_output(v, p0) + rest);
                        if p0 == 5 {
                            assert(suffix_csv_output(v, 5) + rest =~= rest);
                            lemma_content_end_scan(rest);
                        } else if p0 == 0 {
                            lemma_csv_output_member_0(v, rest, cur);
                        } else if p0 == 1 {
                            lemma_csv_output_member_1(v, rest, cur);
                        } else if p0 == 2 {
                            lemma_csv_output_member_2(v, rest, cur);
                        } else if p0 == 3 {
                            lemma_csv_output_member_3(v, rest, cur);
                        } else if p0 == 4 {
                            lemma_csv_output_member_4(v, rest, cur);
                        }
                        if !(v.quote_fields->Some_0 is Extension) {
                            lemma_quotefields_known(v.quote_fields->Some_0);
                        }
                        assert(p0 == 3);
                        assert(0 <= 4 <= 5 && d.remaining() == suffix_csv_output(v, 4) + rest && settled_csv_output(v, 4, field_delimiter_v, quote_character_v, quote_escape_character_v, quote_fields_v, record_delimiter_v));
                }
                        }
                    } else if eq_bytes(c.name.as_slice(), t_record_delimiter()) {
                        let t = match read_text_member(d, &c) {
                            Result::Ok(t) => t,
                            Result::Err(e) => {
                                proof {
                                    assert forall|v: CSVOutput, rest: Seq<u8>|
                    (v.valid() && orig == #[trigger] (v.content_spec() + rest) && content_end(rest)) implies false by {
                        let i0 = choose|i: int| 0 <= i <= 5 && cur == (#[trigger] suffix_csv_output(v, i)) + rest && settled_csv_output(v, i, g_field_delimiter, g_quote_character, g_quote_escape_character, g_quote_fields, g_record_delimiter);
                        lemma_csv_output_names();
                        lemma_csv_output_walk(v, i0);
                        let p0 = next_member_csv_output(v, i0);
                        assert(cur == suffix_csv_output(v, p0) + rest);
                        if p0 == 5 {
                            assert(suffix_csv_output(v, 5) + rest =~= rest);
                            lemma_content_end_scan(rest);
                        } else if p0 == 0 {
                            lemma_csv_output_member_0(v, rest, cur);
                        } else if p0 == 1 {
                            lemma_csv_output_member_1(v, rest, cur);
                        } else if p0 == 2 {
                            lemma_csv_output_member_2(v, rest, cur);
                        } else if p0 == 3 {
                            lemma_csv_output_member_3(v, rest, cur);
                        } else if p0 == 4 {
                            lemma_csv_output_member_4(v, rest, cur);
                        }
                }
                                }
                                return Err(e);
                            },
                        };
                        record_delimiter_v = Option::Some(t);
                        proof {
                            assert forall|v: CSVOutput, rest: Seq<u8>|
                    (v.valid() && orig == #[trigger] (v.content_spec() + rest) && content_end(rest)) implies exists|i: int|
                    0 <= i <= 5 && d.remaining() == (#[trigger] suffix_csv_output(v, i)) + rest
                        && settled_csv_output(v, i, field_delimiter_v, quote_character_v, quote_escape_character_v, quote_fields_v, record_delimiter_v) by {
                        let i0 = choose|i: int| 0 <= i <= 5 && cur == (#[trigger] suffix_csv_output(v, i)) + rest && settled_csv_output(v, i, g_field_delimiter, g_quote_character, g_quote_escape_character, g_quote_fields, g_record_delimiter);
                        lemma_csv_output_names();
                        lemma_csv_output_walk(v, i0);
                        let p0 = next_member_csv_output(v, i0);
                        assert(cur == suffix_csv_output(v, p0) + rest);
                        if p0 == 5 {
                            assert(suffix_csv_output(v, 5) + rest =~= rest);
                            lemma_content_end_scan(rest);
                        } else if p0 == 0 {
                            lemma_csv_output_member_0(v, rest, cur);
                        } else if p0 == 1 {
                            lemma_csv_output_member_1(v, rest, cur);
                        } else if p0 == 2 {
                            lemma_csv_output_member_2(v, rest, cur);
                        } else if p0 == 3 {
                            lemma_csv_output_member_3(v, rest, cur);
                        } else if p0 == 4 {
                            lemma_csv_output_member_4(v, rest, cur);
                        }
                        assert(p0 == 4);
                        assert(0 <= 5 <= 5 && d.remaining() == suffix_csv_output(v, 5) + rest && settled_csv_output(v, 5, field_delimiter_v, quote_character_v, quote_escape_character_v, quote_fields_v, record_delimiter_v));
                }
                        }
                    } else {
                        match skip_member(d, &c) {
                            Result::Ok(u) => {},
                            Result::Err(e) => {
                                proof {
                                    assert forall|v: CSVOutput, rest: Seq<u8>|
                    (v.valid() && orig == #[trigger] (v.content_spec() + rest) && content_end(rest)) implies false by {
                        let i0 = choose|i: int| 0 <= i <= 5 && cur == (#[trigger] suffix_csv_output(v, i)) + rest && settled_csv_output(v, i, g_field_delimiter, g_quote_character, g_quote_escape_character, g_quote_fields, g_record_delimiter);
                        lemma_csv_output_names();
                        lemma_csv_output_walk(v, i0);
                        let p0 = next_member_csv_output(v, i0);
                        assert(cur == suffix_csv_output(v, p0) + rest);
                        if p0 == 5 {
                            assert(suffix_csv_output(v, 5) + rest =~= rest);
                            lemma_content_end_scan(rest);
                        } else if p0 == 0 {
                            lemma_csv_output_member_0(v, rest, cur);
                        } else if p0 == 1 {
                            lemma_csv_output_member_1(v, rest, cur);
                        } else if p0 == 2 {
                            lemma_csv_output_member_2(v, rest, cur);
                        } else if p0 == 3 {
                            lemma_csv_output_member_3(v, rest, cur);
                        } else if p0 == 4 {
                            lemma_csv_output_member_4(v, rest, cur);
                        }
                }
                                }
                                return Err(e);
                            },
                        }
                        proof {
                            assert forall|v: CSVOutput, rest: Seq<u8>|
                    (v.valid() && orig == #[trigger] (v.content_spec() + rest) && content_end(rest)) implies false by {
                        let i0 = choose|i: int| 0 <= i <= 5 && cur == (#[trigger] suffix_csv_output(v, i)) + rest && settled_csv_output(v, i, g_field_delimiter, g_quote_character, g_quote_escape_character, g_quote_fields, g_record_delimiter);
                        lemma_csv_output_names();
                        lemma_csv_output_walk(v, i0);
                        let p0 = next_member_csv_output(v, i0);
                        assert(cur == suffix_csv_output(v, p0) + rest);
                        if p0 == 5 {
                            assert(suffix_csv_output(v, 5) + rest =~= rest);
                            lemma_content_end_scan(rest);
                        } else if p0 == 0 {
                            lemma_csv_output_member_0(v, rest, cur);
                        } else if p0 == 1 {
                            lemma_csv_output_member_1(v, rest, cur);
                        } else if p0 == 2 {
                            lemma_csv_output_member_2(v, rest, cur);
                        } else if p0 == 3 {
                            lemma_csv_output_member_3(v, rest, cur);
                        } else if p0 == 4 {
                            lemma_csv_output_member_4(v, rest, cur);
                        }
                }
                        }
                    }
                },
                Option::None => {
                    let field_delimiter = field_delimiter_v;
                    let quote_character = quote_character_v;
                    let quote_escape_character = quote_escape_character_v;
                    let quote_fields = quote_fields_v;
                    let record_delimiter = record_delimiter_v;
                    let res = CSVOutput { field_delimiter, quote_character, quote_escape_character, quote_fields, record_delimiter };
                    proof {
                        assert forall|v: CSVOutput, rest: Seq<u8>|
                        (v.valid() && orig == #[trigger] (v.content_spec() + rest) && content_end(rest)) implies (v.same_model(&res) && d.remaining() == rest) by {
                            let i0 = choose|i: int| 0 <= i <= 5 && cur == (#[trigger] suffix_csv_output(v, i)) + rest && settled_csv_output(v, i, g_field_delimiter, g_quote_character, g_quote_escape_character, g_quote_fields, g_record_delimiter);
                            lemma_csv_output_names();
                            lemma_csv_output_walk(v, i0);
                            let p0 = next_member_csv_output(v, i0);
                            assert(cur == suffix_csv_output(v, p0) + rest);
                            if p0 == 5 {
                                assert(suffix_csv_output(v, 5) + rest =~= rest);
                                lemma_content_end_scan(rest);
                            } else if p0 == 0 {
                                lemma_csv_output_member_0(v, rest, cur);
                            } else if p0 == 1 {
                                lemma_csv_output_member_1(v, rest, cur);
                            } else if p0 == 2 {
                                lemma_csv_output_member_2(v, rest, cur);
                            } else if p0 == 3 {
                                lemma_csv_output_member_3(v, rest, cur);
                            } else if p0 == 4 {
                                lemma_csv_output_member_4(v, rest, cur);
                            }
                    }
                    }
                    return Ok(res);
                },
            }
        }
    }
}

impl DeserializeContent for CSVOutput {
    fn deserialize_content<'a>(d: &mut Deserializer<'a>) -> (r: DeResult<Self>) {
        CSVOutput::read_content(d)
    }
}

/// How JSON input documents are structured.
#[derive(Debug, Clone, PartialEq, Eq)]
pub struct JSONInput {
    pub json_type: Option<JSONType>,
}

impl SerializeContent for JSONInput {
    open spec fn content_spec(&self) -> Seq<u8> {
        opt_el_of(n_type_tag(), self.json_type)
    }

    fn serialize_content(&self, s: &mut Serializer) {
        let ghost orig = s@;
        write_opt_el(s, t_type_tag(), &self.json_type);
        proof {
            assert(s@ =~= orig + self.content_spec());
        }
    }
}

impl JSONInput {
    /// Structurally valid: extension values hold only unrecognized text, and
    /// a present flattened list is non-empty (an empty one is
    /// indistinguishable on the wire from an absent member).
    pub open spec fn valid(&self) -> bool {
        &&& (match self.json_type { Option::Some(e) => e.wf(), Option::None => true })
    }

    /// Member-wise agreement: scalar members equal as values, text members
    /// equal as byte strings, enumerated members equal as wire strings on the
    /// same side of the known/extension split, nested members agreeing
    /// member-wise.
    pub open spec fn same_model(&self, other: &JSONInput) -> bool {
        &&& (match (self.json_type, other.json_type) { (Option::Some(a), Option::Some(b)) => a.same_as(&b), (Option::None, Option::None) => true, _ => false })
    }
}

/// The content encoding of the members from index `i` on.
pub open spec fn suffix_json_input(v: JSONInput, i: int) -> Seq<u8> {
    if i <= 0 {
        opt_el_of(n_type_tag(), v.json_type) + (Seq::empty())
    } else {
        Seq::empty()
    }
}

/// The first member at or after `i` that the next child element can belong
/// to.
pub open spec fn next_member_json_input(v: JSONInput, i: int) -> int {
    if i <= 0 && (v.json_type is Some) {
        0
    } else {
        1
    }
}

/// What the decoder's state says after the members before `i` have been
/// dealt with.
pub open spec fn settled_json_input(v: JSONInput, i: int, json_type_s: Option<JSONType>) -> bool {
    &&& (0 < i ==> (match (json_type_s, v.json_type) { (Option::Some(a), Option::Some(b)) => a.same_as(&b), (Option::None, Option::None) => true, _ => false }))
    &&& (0 >= i ==> json_type_s is None)
}

proof fn lemma_json_input_names()
    ensures
        n_type_tag().len() >= 1,
        forall|ii: int| 0 <= ii < n_type_tag().len() ==> is_name_byte(#[trigger] n_type_tag()[ii]),
{

}

proof fn lemma_json_input_walk(v: JSONInput, i: int)
    requires
        0 <= i <= 1,
    ensures
        ({
            let p = next_member_json_input(v, i);
            &&& i <= p <= 1
            &&& suffix_json_input(v, i) == suffix_json_input(v, p)
            &&& (i <= 0 && 0 < p ==> v.json_type is None)
            &&& (p == 0 ==> (v.json_type is Some))
        }),
    decreases 1 - i,
{
    if i < 1 {
        if i == 0 {
            if !(v.json_type is Some) {
                assert(suffix_json_input(v, 0) =~= suffix_json_input(v, 1));
                lemma_json_input_walk(v, 1);
            }
        }
    }
}

#[verifier::rlimit(100)]
proof fn lemma_json_input_member_0(v: JSONInput, rest: Seq<u8>, cur: Seq<u8>)
    requires
        content_end(rest),
        v.json_type is Some,
        cur == suffix_json_input(v, 0) + rest,
    ensures
        ({
                let s1 = cur.skip(open_tag(n_type_tag()).len() as int);
                let m = escape_seq(v.json_type->Some_0.wire_spec()).len() as int;
                &&& v.json_type is Some
                &&& child_scan(cur) == Some((Some((n_type_tag(), false)), open_tag(n_type_tag()).len() as nat))
                &&& until_count(s1, LT) == m
                &&& unescape_seq(s1.take(m)) == Some(v.json_type->Some_0.wire_spec())
                &&& close_scan(s1.skip(m), n_type_tag()) == Some((n_type_tag().len() + 3) as nat)
                &&& s1.skip(m).skip(n_type_tag().len() as int + 3) == suffix_json_input(v, 1) + rest
            }),
{
    lemma_json_input_names();
    assert(suffix_json_input(v, 0) =~= text_el(n_type_tag(), v.json_type->Some_0.wire_spec()) + suffix_json_input(v, 1));
    assert(cur =~= text_el(n_type_tag(), v.json_type->Some_0.wire_spec()) + (suffix_json_input(v, 1) + rest));
    lemma_text_member_shape(n_type_tag(), v.json_type->Some_0.wire_spec(), suffix_json_input(v, 1) + rest);
}


impl JSONInput {
    /// Decode this type's element content: members in any order, unknown
    /// members skipped, required members demanded.
    ///
    /// Round-trip: the exact content encoding of any structurally valid
    /// value, followed by the end of the enclosing content, decodes back to
    /// a value with the same members, consuming exactly the encoding.
    #[verifier::rlimit(100)]
    pub fn read_content<'a>(d: &mut Deserializer<'a>) -> (r: DeResult<JSONInput>)
        requires
            old(d).wf(),
        ensures
            final(d).wf(),
            final(d).remaining().len() <= old(d).remaining().len(),
            forall|v: JSONInput, rest: Seq<u8>|
                (v.valid() && old(d).remaining() == #[trigger] (v.content_spec() + rest)
                    && content_end(rest)) ==> (r matches Ok(res) && v.same_model(&res)
                    && final(d).remaining() == rest),
    {
        let ghost orig = d.remaining();
        let mut json_type_v: Option<JSONType> = Option::None;
        proof {
            assert forall|v: JSONInput, rest: Seq<u8>|
                (v.valid() && orig == #[trigger] (v.content_spec() + rest) && content_end(rest)) implies exists|i: int|
                0 <= i <= 1 && orig == (#[trigger] suffix_json_input(v, i)) + rest
                    && settled_json_input(v, i, json_type_v) by {
                    assert(v.content_spec() =~= suffix_json_input(v, 0));
                    assert(0 <= 0 <= 1 && orig == suffix_json_input(v, 0) + rest && settled_json_input(v, 0, json_type_v));
            }
        }
        loop
            invariant
                d.wf(),
                d.remaining().len() <= old(d).remaining().len(),
                orig == old(d).remaining(),
                forall|v: JSONInput, rest: Seq<u8>|
                    (v.valid() && orig == #[trigger] (v.content_spec() + rest) && content_end(
                        rest,
                    )) ==> exists|i: int|
                        0 <= i <= 1 && d.remaining() == (#[trigger] suffix_json_input(v, i))
                            + rest && settled_json_input(v, i, json_type_v),
            decreases d.remaining().len(),
        {
            let ghost cur = d.remaining();
            let ghost g_json_type = json_type_v;
            let c_opt = match d.read_child_open() {
                Result::Ok(x) => x,
                Result::Err(e) => {
                    proof {
                        assert forall|v: JSONInput, rest: Seq<u8>|
                    (v.valid() && orig == #[trigger] (v.content_spec() + rest) && content_end(rest)) implies false by {
                        let i0 = choose|i: int| 0 <= i <= 1 && cur == (#[trigger] suffix_json_input(v, i)) + rest && settled_json_input(v, i, g_json_type);
                        lemma_json_input_names();
                        lemma_json_input_walk(v, i0);
                        let p0 = next_member_json_input(v, i0);
                        assert(cur == suffix_json_input(v, p0) + rest);
                        if p0 == 1 {
                            assert(suffix_json_input(v, 1) + rest =~= rest);
                            lemma_content_end_scan(rest);
                        } else if p0 == 0 {
                            lemma_json_input_member_0(v, rest, cur);
                        }
                }
                    }
                    return Err(e);
                },
            };
            match c_opt {
                Option::Some(c) => {
                    if eq_bytes(c.name.as_slice(), t_type_tag()) {
                        let t = match read_text_member(d, &c) {
                            Result::Ok(t) => t,
                            Result::Err(e) => {
                                proof {
                                    assert forall|v: JSONInput, rest: Seq<u8>|
                    (v.valid() && orig == #[trigger] (v.content_spec() + rest) && content_end(rest)) implies false by {
                        let i0 = choose|i: int| 0 <= i <= 1 && cur == (#[trigger] suffix_json_input(v, i)) + rest && settled_json_input(v, i, g_json_type);
                        lemma_json_input_names();
                        lemma_json_input_walk(v, i0);
                        let p0 = next_member_json_input(v, i0);
                        assert(cur == suffix_json_input(v, p0) + rest);
                        if p0 == 1 {
                            assert(suffix_json_input(v, 1) + rest =~= rest);
                            lemma_content_end_scan(rest);
                        } else if p0 == 0 {
                            lemma_json_input_member_0(v, rest, cur);
                        }
                }
                                }
                                return Err(e);
                            },
                        };
                        json_type_v = Option::Some(JSONType::from_bytes(t.as_slice()));
                        proof {
                            assert forall|v: JSONInput, rest: Seq<u8>|
                    (v.valid() && orig == #[trigger] (v.content_spec() + rest) && content_end(rest)) implies exists|i: int|
                    0 <= i <= 1 && d.remaining() == (#[trigger] suffix_json_input(v, i)) + rest
                        && settled_json_input(v, i, json_type_v) by {
                        let i0 = choose|i: int| 0 <= i <= 1 && cur == (#[trigger] suffix_json_input(v, i)) + rest && settled_json_input(v, i, g_json_type);
                        lemma_json_input_names();
                        lemma_json_input_walk(v, i0);
                        let p0 = next_member_json_input(v, i0);
                        assert(cur == suffix_json_input(v, p0) + rest);
                        if p0 == 1 {
                            assert(suffix_json_input(v, 1) + rest =~= rest);
                            lemma_content_end_scan(rest);
                        } else if p0 == 0 {
                            lemma_json_input_member_0(v, rest, cur);
                        }
                        if !(v.json_type->Some_0 is Extension) {
                            lemma_jsontype_known(v.json_type->Some_0);
                        }
                        assert(p0 == 0);
                        assert(0 <= 1 <= 1 && d.remaining() == suffix_json_input(v, 1) + rest && settled_json_input(v, 1, json_type_v));
                }
                        }
                    } else {
                        match skip_member(d, &c) {
                            Result::Ok(u) => {},
                            Result::Err(e) => {
                                proof {
                                    assert forall|v: JSONInput, rest: Seq<u8>|
                    (v.valid() && orig == #[trigger] (v.content_spec() + rest) && content_end(rest)) implies false by {
                        let i0 = choose|i: int| 0 <= i <= 1 && cur == (#[trigger] suffix_json_input(v, i)) + rest && settled_json_input(v, i, g_json_type);
                        lemma_json_input_names();
                        lemma_json_input_walk(v, i0);
                        let p0 = next_member_json_input(v, i0);
                        assert(cur == suffix_json_input(v, p0) + rest);
                        if p0 == 1 {
                            assert(suffix_json_input(v, 1) + rest =~= rest);
                            lemma_content_end_scan(rest);
                        } else if p0 == 0 {
                            lemma_json_input_member_0(v, rest, cur);
                        }
                }
                                }
                                return Err(e);
                            },
                        }
                        proof {
                            assert forall|v: JSONInput, rest: Seq<u8>|
                    (v.valid() && orig == #[trigger] (v.content_spec() + rest) && content_end(rest)) implies false by {
                        let i0 = choose|i: int| 0 <= i <= 1 && cur == (#[trigger] suffix_json_input(v, i)) + rest && settled_json_input(v, i, g_json_type);
                        lemma_json_input_names();
                        lemma_json_input_walk(v, i0);
                        let p0 = next_member_json_input(v, i0);
                        assert(cur == suffix_json_input(v, p0) + rest);
                        if p0 == 1 {
                            assert(suffix_json_input(v, 1) + rest =~= rest);
                            lemma_content_end_scan(rest);
                        } else if p0 == 0 {
                            lemma_json_input_member_0(v, rest, cur);
                        }
                }
                        }
                    }
                },
                Option::None => {
                    let json_type = json_type_v;
                    let res = JSONInput { json_type };
                    proof {
                        assert forall|v: JSONInput, rest: Seq<u8>|
                        (v.valid() && orig == #[trigger] (v.content_spec() + rest) && content_end(rest)) implies (v.same_model(&res) && d.remaining() == rest) by {
                            let i0 = choose|i: int| 0 <= i <= 1 && cur == (#[trigger] suffix_json_input(v, i)) + rest && settled_json_input(v, i, g_json_type);
                            lemma_json_input_names();
                            lemma_json_input_walk(v, i0);
                            let p0 = next_member_json_input(v, i0);
                            assert(cur == suffix_json_input(v, p0) + rest);
                            if p0 == 1 {
                                assert(suffix_json_input(v, 1) + rest =~= rest);
                                lemma_content_end_scan(rest);
                            } else if p0 == 0 {
                                lemma_json_input_member_0(v, rest, cur);
                            }
                    }
                    }
                    return Ok(res);
                },
            }
        }
    }
}

impl DeserializeContent for JSONInput {
    fn deserialize_content<'a>(d: &mut Deserializer<'a>) -> (r: DeResult<Self>) {
        JSONInput::read_content(d)
    }
}

/// How JSON output records are delimited.
#[derive(Debug, Clone, PartialEq, Eq)]
pub struct JSONOutput {
    pub record_delimiter: Option<Vec<u8>>,
}

impl SerializeContent for JSONOutput {
    open spec fn content_spec(&self) -> Seq<u8> {
        opt_text_el(n_record_delimiter(), opt_view(self.record_delimiter))
    }

    fn serialize_content(&self, s: &mut Serializer) {
        let ghost orig = s@;
        write_opt_text(s, t_record_delimiter(), &self.record_delimiter);
        proof {
            assert(s@ =~= orig + self.content_spec());
        }
    }
}

impl JSONOutput {
    /// Structurally valid: extension values hold only unrecognized text, and
    /// a present flattened list is non-empty (an empty one is
    /// indistinguishable on the wire from an absent member).
    pub open spec fn valid(&self) -> bool {
        true
    }

    /// Member-wise agreement: scalar members equal as values, text members
    /// equal as byte strings, enumerated members equal as wire strings on the
    /// same side of the known/extension split, nested members agreeing
    /// member-wise.
    pub open spec fn same_model(&self, other: &JSONOutput) -> bool {
        &&& opt_view(self.record_delimiter) == opt_view(other.record_delimiter)
    }
}

/// The content encoding of the members from index `i` on.
pub open spec fn suffix_json_output(v: JSONOutput, i: int) -> Seq<u8> {
    if i <= 0 {
        opt_text_el(n_record_delimiter(), opt_view(v.record_delimiter)) + (Seq::empty())
    } else {
        Seq::empty()
    }
}

/// The first member at or after `i` that the next child element can belong
/// to.
pub open spec fn next_member_json_output(v: JSONOutput, i: int) -> int {
    if i <= 0 && (v.record_delimiter is Some) {
        0
    } else {
        1
    }
}

/// What the decoder's state says after the members before `i` have been
/// dealt with.
pub open spec fn settled_json_output(v: JSONOutput, i: int, record_delimiter_s: Option<Vec<u8>>) -> bool {
    &&& (0 < i ==> opt_view(record_delimiter_s) == opt_view(v.record_delimiter))
    &&& (0 >= i ==> record_delimiter_s is None)
}

proof fn lemma_json_output_names()
    ensures
        n_record_delimiter().len() >= 1,
        forall|ii: int| 0 <= ii < n_record_delimiter().len() ==> is_name_byte(#[trigger] n_record_delimiter()[ii]),
{

}

#[verifier::rlimit(100)]
proof fn lemma_json_output_at(v: JSONOutput, rest: Seq<u8>, i: int, cur: Seq<u8>)
    requires
        0 <= i <= 1,
        content_end(rest),
        cur == suffix_json_output(v, i) + rest,
    ensures
        ({
            let p = next_member_json_output(v, i);
            &&& i <= p <= 1
            &&& (i <= 0 && 0 < p ==> v.record_delimiter is None)
            &&& (p == 0 ==> ({
                let s1 = cur.skip(open_tag(n_record_delimiter()).len() as int);
                let m = escape_seq(v.record_delimiter->Some_0@).len() as int;
                &&& v.record_delimiter is Some
                &&& child_scan(cur) == Some((Some((n_record_delimiter(), false)), open_tag(n_record_delimiter()).len() as nat))
                &&& until_count(s1, LT) == m
                &&& unescape_seq(s1.take(m)) == Some(v.record_delimiter->Some_0@)
                &&& close_scan(s1.skip(m), n_record_delimiter()) == Some((n_record_delimiter().len() + 3) as nat)
                &&& s1.skip(m).skip(n_record_delimiter().len() as int + 3) == suffix_json_output(v, 1) + rest
            }))
            &&& (p == 1 ==> cur == rest && child_scan(cur) == Some((Option::<(Seq<u8>, bool)>::None, 0 as nat)) && rest.skip(0) == rest)
        }),
    decreases 1 - i,
{
    lemma_json_output_names();
    if i == 1 {
        assert(suffix_json_output(v, 1) + rest =~= rest);
        assert(cur == rest);
        lemma_content_end_scan(rest);
    } else {
        if i == 0 {
            if v.record_delimiter is Some {
                assert(suffix_json_output(v, 0) =~= text_el(n_record_delimiter(), v.record_delimiter->Some_0@) + suffix_json_output(v, 1));
                assert(cur =~= text_el(n_record_delimiter(), v.record_delimiter->Some_0@) + (suffix_json_output(v, 1) + rest));
                lemma_text_member_shape(n_record_delimiter(), v.record_delimiter->Some_0@, suffix_json_output(v, 1) + rest);
            } else {
                assert(suffix_json_output(v, 0) =~= suffix_json_output(v, 1));
                assert(suffix_json_output(v, 0) + rest == suffix_json_output(v, 1) + rest);
                lemma_json_output_at(v, rest, 1, cur);
            }
        }
    }
}

impl JSONOutput {
    /// Decode this type's element content: members in any order, unknown
    /// members skipped, required members demanded.
    ///
    /// Round-trip: the exact content encoding of any structurally valid
    /// value, followed by the end of the enclosing content, decodes back to
    /// a value with the same members, consuming exactly the encoding.
    #[verifier::rlimit(100)]
    pub fn read_content<'a>(d: &mut Deserializer<'a>) -> (r: DeResult<JSONOutput>)
        requires
            old(d).wf(),
        ensures
            final(d).wf(),
            final(d).remaining().len() <= old(d).remaining().len(),
            forall|v: JSONOutput, rest: Seq<u8>|
                (v.valid() && old(d).remaining() == #[trigger] (v.content_spec() + rest)
                    && content_end(rest)) ==> (r matches Ok(res) && v.same_model(&res)
                    && final(d).remaining() == rest),
    {
        let ghost orig = d.remaining();
        let mut record_delimiter_v: Option<Vec<u8>> = Option::None;
        proof {
            assert forall|v: JSONOutput, rest: Seq<u8>|
                (v.valid() && orig == #[trigger] (v.content_spec() + rest) && content_end(rest)) implies exists|i: int|
                0 <= i <= 1 && orig == (#[trigger] suffix_json_output(v, i)) + rest
                    && settled_json_output(v, i, record_delimiter_v) by {
                    assert(v.content_spec() =~= suffix_json_output(v, 0));
                    assert(0 <= 0 <= 1 && orig == suffix_json_output(v, 0) + rest && settled_json_output(v, 0, record_delimiter_v));
            }
        }
        loop
            invariant
                d.wf(),
                d.remaining().len() <= old(d).remaining().len(),
                orig == old(d).remaining(),
                forall|v: JSONOutput, rest: Seq<u8>|
                    (v.valid() && orig == #[trigger] (v.content_spec() + rest) && content_end(
                        rest,
                    )) ==> exists|i: int|
                        0 <= i <= 1 && d.remaining() == (#[trigger] suffix_json_output(v, i))
                            + rest && settled_json_output(v, i, record_delimiter_v),
            decreases d.remaining().len(),
        {
            let ghost cur = d.remaining();
            let ghost g_record_delimiter = record_delimiter_v;
            let c_opt = match d.read_child_open() {
                Result::Ok(x) => x,
                Result::Err(e) => {
                    proof {
                        assert forall|v: JSONOutput, rest: Seq<u8>|
                    (v.valid() && orig == #[trigger] (v.content_spec() + rest) && content_end(rest)) implies false by {
                        let i0 = choose|i: int| 0 <= i <= 1 && cur == (#[trigger] suffix_json_output(v, i)) + rest && settled_json_output(v, i, g_record_delimiter);
                        lemma_json_output_at(v, rest, i0, cur);
                }
                    }
                    return Err(e);
                },
            };
            match c_opt {
                Option::Some(c) => {
                    if eq_bytes(c.name.as_slice(), t_record_delimiter()) {
                        let t = match read_text_member(d, &c) {
                            Result::Ok(t) => t,
                            Result::Err(e) => {
                                proof {
                                    assert forall|v: JSONOutput, rest: Seq<u8>|
                    (v.valid() && orig == #[trigger] (v.content_spec() + rest) && content_end(rest)) implies false by {
                        let i0 = choose|i: int| 0 <= i <= 1 && cur == (#[trigger] suffix_json_output(v, i)) + rest && settled_json_output(v, i, g_record_delimiter);
                        lemma_json_output_at(v, rest, i0, cur);
                }
                                }
                                return Err(e);
                            },
                        };
                        record_delimiter_v = Option::Some(t);
                        proof {
                            assert forall|v: JSONOutput, rest: Seq<u8>|
                    (v.valid() && orig == #[trigger] (v.content_spec() + rest) && content_end(rest)) implies exists|i: int|
                    0 <= i <= 1 && d.remaining() == (#[trigger] suffix_json_output(v, i)) + rest
                        && settled_json_output(v, i, record_delimiter_v) by {
                        let i0 = choose|i: int| 0 <= i <= 1 && cur == (#[trigger] suffix_json_output(v, i)) + rest && settled_json_output(v, i, g_record_delimiter);
                        lemma_json_output_at(v, rest, i0, cur);
                        assert(next_member_json_output(v, i0) == 0);
                        assert(0 <= 1 <= 1 && d.remaining() == suffix_json_output(v, 1) + rest && settled_json_output(v, 1, record_delimiter_v));
                }
                        }
                    } else {
                        match skip_member(d, &c) {
                            Result::Ok(u) => {},
                            Result::Err(e) => {
                                proof {
                                    assert forall|v: JSONOutput, rest: Seq<u8>|
                    (v.valid() && orig == #[trigger] (v.content_spec() + rest) && content_end(rest)) implies false by {
                        let i0 = choose|i: int| 0 <= i <= 1 && cur == (#[trigger] suffix_json_output(v, i)) + rest && settled_json_output(v, i, g_record_delimiter);
                        lemma_json_output_at(v, rest, i0, cur);
                }
                                }
                                return Err(e);
                            },
                        }
                        proof {
                            assert forall|v: JSONOutput, rest: Seq<u8>|
                    (v.valid() && orig == #[trigger] (v.content_spec() + rest) && content_end(rest)) implies false by {
                        let i0 = choose|i: int| 0 <= i <= 1 && cur == (#[trigger] suffix_json_output(v, i)) + rest && settled_json_output(v, i, g_record_delimiter);
                        lemma_json_output_at(v, rest, i0, cur);
                }
                        }
                    }
                },
                Option::None => {
                    let record_delimiter = record_delimiter_v;
                    let res = JSONOutput { record_delimiter };
                    proof {
                        assert forall|v: JSONOutput, rest: Seq<u8>|
                        (v.valid() && orig == #[trigger] (v.content_spec() + rest) && content_end(rest)) implies (v.same_model(&res) && d.remaining() == rest) by {
                            let i0 = choose|i: int| 0 <= i <= 1 && cur == (#[trigger] suffix_json_output(v, i)) + rest && settled_json_output(v, i, g_record_delimiter);
                            lemma_json_output_at(v, rest, i0, cur);
                    }
                    }
                    return Ok(res);
                },
            }
        }
    }
}

impl DeserializeContent for JSONOutput {
    fn deserialize_content<'a>(d: &mut Deserializer<'a>) -> (r: DeResult<Self>) {
        JSONOutput::read_content(d)
    }
}

/// Parquet input selection; it has no members.
#[derive(Debug, Clone, PartialEq, Eq, Default)]
pub struct ParquetInput {
}

impl SerializeContent for ParquetInput {
    open spec fn content_spec(&self) -> Seq<u8> {
        Seq::empty()
    }

    fn serialize_content(&self, s: &mut Serializer) {
        let ghost orig = s@;
        proof {
            assert(s@ =~= orig + self.content_spec());
        }
    }
}

impl ParquetInput {
    /// Structurally valid: extension values hold only unrecognized text, and
    /// a present flattened list is non-empty (an empty one is
    /// indistinguishable on the wire from an absent member).
    pub open spec fn valid(&self) -> bool {
        true
    }

    /// Member-wise agreement: scalar members equal as values, text members
    /// equal as byte strings, enumerated members equal as wire strings on the
    /// same side of the known/extension split, nested members agreeing
    /// member-wise.
    pub open spec fn same_model(&self, other: &ParquetInput) -> bool {
        true
    }
}

/// The content encoding of the members from index `i` on.
pub open spec fn suffix_parquet_input(v: ParquetInput, i: int) -> Seq<u8> {
    Seq::empty()
}

/// The first member at or after `i` that the next child element can belong
/// to.
pub open spec fn next_member_parquet_input(v: ParquetInput, i: int) -> int {
    0
}

/// What the decoder's state says after the members before `i` have been
/// dealt with.
pub open spec fn settled_parquet_input(v: ParquetInput, i: int) -> bool {
    true
}

proof fn lemma_parquet_input_names()
    ensures
        true,
{

}

#[verifier::rlimit(100)]
proof fn lemma_parquet_input_at(v: ParquetInput, rest: Seq<u8>, i: int, cur: Seq<u8>)
    requires
        0 <= i <= 0,
        content_end(rest),
        cur == suffix_parquet_input(v, i) + rest,
    ensures
        ({
            let p = next_member_parquet_input(v, i);
            &&& i <= p <= 0
            &&& (p == 0 ==> cur == rest && child_scan(cur) == Some((Option::<(Seq<u8>, bool)>::None, 0 as nat)) && rest.skip(0) == rest)
        }),
    decreases 0 - i,
{
    lemma_parquet_input_names();
    if i == 0 {
        assert(suffix_parquet_input(v, 0) + rest =~= rest);
        assert(cur == rest);
        lemma_content_end_scan(rest);
    } else {

    }
}

impl ParquetInput {
    /// Decode this type's element content: members in any order, unknown
    /// members skipped, required members demanded.
    ///
    /// Round-trip: the exact content encoding of any structurally valid
    /// value, followed by the end of the enclosing content, decodes back to
    /// a value with the same members, consuming exactly the encoding.
    #[verifier::rlimit(100)]
    pub fn read_content<'a>(d: &mut Deserializer<'a>) -> (r: DeResult<ParquetInput>)
        requires
            old(d).wf(),
        ensures
            final(d).wf(),
            final(d).remaining().len() <= old(d).remaining().len(),
            forall|v: ParquetInput, rest: Seq<u8>|
                (v.valid() && old(d).remaining() == #[trigger] (v.content_spec() + rest)
                    && content_end(rest)) ==> (r matches Ok(res) && v.same_model(&res)
                    && final(d).remaining() == rest),
    {
        let ghost orig = d.remaining();

        proof {
            assert forall|v: ParquetInput, rest: Seq<u8>|
                (v.valid() && orig == #[trigger] (v.content_spec() + rest) && content_end(rest)) implies exists|i: int|
                0 <= i <= 0 && orig == (#[trigger] suffix_parquet_input(v, i)) + rest
                    && settled_parquet_input(v, i) by {
                    assert(v.content_spec() =~= suffix_parquet_input(v, 0));
                    assert(0 <= 0 <= 0 && orig == suffix_parquet_input(v, 0) + rest && settled_parquet_input(v, 0));
            }
        }
        loop
            invariant
                d.wf(),
                d.remaining().len() <= old(d).remaining().len(),
                orig == old(d).remaining(),
                forall|v: ParquetInput, rest: Seq<u8>|
                    (v.valid() && orig == #[trigger] (v.content_spec() + rest) && content_end(
                        rest,
                    )) ==> exists|i: int|
                        0 <= i <= 0 && d.remaining() == (#[trigger] suffix_parquet_input(v, i))
                            + rest && settled_parquet_input(v, i),
            decreases d.remaining().len(),
        {
            let ghost cur = d.remaining();

            let c_opt = match d.read_child_open() {
                Result::Ok(x) => x,
                Result::Err(e) => {
                    proof {
                        assert forall|v: ParquetInput, rest: Seq<u8>|
                    (v.valid() && orig == #[trigger] (v.content_spec() + rest) && content_end(rest)) implies false by {
                        let i0 = choose|i: int| 0 <= i <= 0 && cur == (#[trigger] suffix_parquet_input(v, i)) + rest && settled_parquet_input(v, i);
                        lemma_parquet_input_at(v, rest, i0, cur);
                }
                    }
                    return Err(e);
                },
            };
            match c_opt {
                Option::Some(c) => {
                    match skip_member(d, &c) {
                        Result::Ok(u) => {},
                        Result::Err(e) => {
                            proof {
                                assert forall|v: ParquetInput, rest: Seq<u8>|
                    (v.valid() && orig == #[trigger] (v.content_spec() + rest) && content_end(rest)) implies false by {
                        let i0 = choose|i: int| 0 <= i <= 0 && cur == (#[trigger] suffix_parquet_input(v, i)) + rest && settled_parquet_input(v, i);
                        lemma_parquet_input_at(v, rest, i0, cur);
                }
                            }
                            return Err(e);
                        },
                    }
                    proof {
                        assert forall|v: ParquetInput, rest: Seq<u8>|
                    (v.valid() && orig == #[trigger] (v.content_spec() + rest) && content_end(rest)) implies false by {
                        let i0 = choose|i: int| 0 <= i <= 0 && cur == (#[trigger] suffix_parquet_input(v, i)) + rest && settled_parquet_input(v, i);
                        lemma_parquet_input_at(v, rest, i0, cur);
                }
                    }
                },
                Option::None => {

                    let res = ParquetInput { };
                    proof {
                        assert forall|v: ParquetInput, rest: Seq<u8>|
                        (v.valid() && orig == #[trigger] (v.content_spec() + rest) && content_end(rest)) implies (v.same_model(&res) && d.remaining() == rest) by {
                            let i0 = choose|i: int| 0 <= i <= 0 && cur == (#[trigger] suffix_parquet_input(v, i)) + rest && settled_parquet_input(v, i);
                            lemma_parquet_input_at(v, rest, i0, cur);
                    }
                    }
                    return Ok(res);
                },
            }
        }
    }
}

impl DeserializeContent for ParquetInput {
    fn deserialize_content<'a>(d: &mut Deserializer<'a>) -> (r: DeResult<Self>) {
        ParquetInput::read_content(d)
    }
}

/// How the object being queried is serialized.
#[derive(Debug, Clone, PartialEq, Eq)]
pub struct InputSerialization {
    pub csv: Option<CSVInput>,
    pub compression_type: Option<CompressionType>,
    pub json: Option<JSONInput>,
    pub parquet: Option<ParquetInput>,
}

impl SerializeContent for InputSerialization {
    open spec fn content_spec(&self) -> Seq<u8> {
        opt_el_of(n_csv(), self.csv)
            + opt_el_of(n_compression_type(), self.compression_type)
            + opt_el_of(n_json(), self.json)
            + opt_el_of(n_parquet(), self.parquet)
    }

    #[verifier::rlimit(60)]
    fn serialize_content(&self, s: &mut Serializer) {
        let ghost orig = s@;
        write_opt_el(s, t_csv(), &self.csv);
        write_opt_el(s, t_compression_type(), &self.compression_type);
        write_opt_el(s, t_json(), &self.json);
        write_opt_el(s, t_parquet(), &self.parquet);
        proof {
            assert(s@ =~= orig + self.content_spec());
        }
    }
}

impl DeserializeContent for InputSerialization {
    fn deserialize_content<'a>(d: &mut Deserializer<'a>) -> (r: DeResult<Self>) {
        let mut csv_v: Option<CSVInput> = Option::None;
        let mut compression_type_v: Option<CompressionType> = Option::None;
        let mut json_v: Option<JSONInput> = Option::None;
        let mut parquet_v: Option<ParquetInput> = Option::None;
        loop
            invariant
                d.wf(),
                d.remaining().len() <= old(d).remaining().len(),
            decreases d.remaining().len(),
        {
            let c = match d.read_child_open() {
                Result::Ok(x) => x,
                Result::Err(e) => return Err(e),
            };
            let c = match c {
                Option::Some(x) => x,
                Option::None => break,
            };
            if eq_bytes(c.name.as_slice(), t_csv()) {
                let v = if c.self_closed {
                    decode_empty_content::<CSVInput>()?
                } else {
                    let v = CSVInput::deserialize_content(d)?;
                    d.expect_close(t_csv())?;
                    v
                };
                csv_v = Option::Some(v);
            } else if eq_bytes(c.name.as_slice(), t_compression_type()) {
                let t = read_text_member(d, &c)?;
                compression_type_v = Option::Some(CompressionType::from_bytes(t.as_slice()));
            } else if eq_bytes(c.name.as_slice(), t_json()) {
                let v = if c.self_closed {
                    decode_empty_content::<JSONInput>()?
                } else {
                    let v = JSONInput::deserialize_content(d)?;
                    d.expect_close(t_json())?;
                    v
                };
                json_v = Option::Some(v);
            } else if eq_bytes(c.name.as_slice(), t_parquet()) {
                let v = if c.self_closed {
                    decode_empty_content::<ParquetInput>()?
                } else {
                    let v = ParquetInput::deserialize_content(d)?;
                    d.expect_close(t_parquet())?;
                    v
                };
                parquet_v = Option::Some(v);
            } else {
                skip_member(d, &c)?;
            }
        }
        let csv = csv_v;
        let compression_type = compression_type_v;
        let json = json_v;
        let parquet = parquet_v;
        Ok(InputSerialization {
            csv,
            compression_type,
            json,
            parquet,
        })
    }
}

/// How the query results are serialized.
#[derive(Debug, Clone, PartialEq, Eq)]
pub struct OutputSerialization {
    pub csv: Option<CSVOutput>,
    pub json: Option<JSONOutput>,
}

impl SerializeContent for OutputSerialization {
    open spec fn content_spec(&self) -> Seq<u8> {
        opt_el_of(n_csv(), self.csv)
            + opt_el_of(n_json(), self.json)
    }

    fn serialize_content(&self, s: &mut Serializer) {
        let ghost orig = s@;
        write_opt_el(s, t_csv(), &self.csv);
        write_opt_el(s, t_json(), &self.json);
        proof {
            assert(s@ =~= orig + self.content_spec());
        }
    }
}

impl OutputSerialization {
    /// Structurally valid: extension values hold only unrecognized text, and
    /// a present flattened list is non-empty (an empty one is
    /// indistinguishable on the wire from an absent member).
    pub open spec fn valid(&self) -> bool {
        &&& (match self.csv { Option::Some(x) => x.valid(), Option::None => true })
        &&& (match self.json { Option::Some(x) => x.valid(), Option::None => true })
    }

    /// Member-wise agreement: scalar members equal as values, text members
    /// equal as byte strings, enumerated members equal as wire strings on the
    /// same side of the known/extension split, nested members agreeing
    /// member-wise.
    pub open spec fn same_model(&self, other: &OutputSerialization) -> bool {
        &&& (match (self.csv, other.csv) { (Option::Some(a), Option::Some(b)) => a.same_model(&b), (Option::None, Option::None) => true, _ => false })
        &&& (match (self.json, other.json) { (Option::Some(a), Option::Some(b)) => a.same_model(&b), (Option::None, Option::None) => true, _ => false })
    }
}

/// The content encoding of the members from index `i` on.
pub open spec fn suffix_output_serialization(v: OutputSerialization, i: int) -> Seq<u8> {
    if i <= 0 {
        opt_el_of(n_csv(), v.csv) + (opt_el_of(n_json(), v.json) + (Seq::empty()))
    } else if i <= 1 {
        opt_el_of(n_json(), v.json) + (Seq::empty())
    } else {
        Seq::empty()
    }
}

/// The first member at or after `i` that the next child element can belong
/// to.
pub open spec fn next_member_output_serialization(v: OutputSerialization, i: int) -> int {
    if i <= 0 && (v.csv is Some) {
        0
    } else if i <= 1 && (v.json is Some) {
        1
    } else {
        2
    }
}

/// What the decoder's state says after the members before `i` have been
/// dealt with.
pub open spec fn settled_output_serialization(v: OutputSerialization, i: int, csv_s: Option<CSVOutput>, json_s: Option<JSONOutput>) -> bool {
    &&& (0 < i ==> (match (csv_s, v.csv) { (Option::Some(a), Option::Some(b)) => a.same_model(&b), (Option::None, Option::None) => true, _ => false }))
    &&& (0 >= i ==> csv_s is None)
    &&& (1 < i ==> (match (json_s, v.json) { (Option::Some(a), Option::Some(b)) => a.same_model(&b), (Option::None, Option::None) => true, _ => false }))
    &&& (1 >= i ==> json_s is None)
}

proof fn lemma_output_serialization_names()
    ensures
        n_csv().len() >= 1,
        forall|ii: int| 0 <= ii < n_csv().len() ==> is_name_byte(#[trigger] n_csv()[ii]),
        n_json().len() >= 1,
        forall|ii: int| 0 <= ii < n_json().len() ==> is_name_byte(#[trigger] n_json()[ii]),
        n_csv() != n_json(),
{
    assert(n_csv().len() != n_json().len());
}

proof fn lemma_output_serialization_walk(v: OutputSerialization, i: int)
    requires
        0 <= i <= 2,
    ensures
        ({
            let p = next_member_output_serialization(v, i);
            &&& i <= p <= 2
            &&& suffix_output_serialization(v, i) == suffix_output_serialization(v, p)
            &&& (i <= 0 && 0 < p ==> v.csv is None)
            &&& (i <= 1 && 1 < p ==> v.json is None)
            &&& (p == 0 ==> (v.csv is Some))
            &&& (p == 1 ==> (v.json is Some))
        }),
    decreases 2 - i,
{
    if i < 2 {
        if i == 0 {
            if !(v.csv is Some) {
                assert(suffix_output_serialization(v, 0) =~= suffix_output_serialization(v, 1));
                lemma_output_serialization_walk(v, 1);
            }
        } else if i == 1 {
            if !(v.json is Some) {
                assert(suffix_output_serialization(v, 1) =~= suffix_output_serialization(v, 2));
                lemma_output_serialization_walk(v, 2);
            }
        }
    }
}

#[verifier::rlimit(100)]
proof fn lemma_output_serialization_member_0(v: OutputSerialization, rest: Seq<u8>, cur: Seq<u8>)
    requires
        content_end(rest),
        v.csv is Some,
        cur == suffix_output_serialization(v, 0) + rest,
    ensures
        ({
                let s1 = cur.skip(open_tag(n_csv()).len() as int);
                let tail = suffix_output_serialization(v, 1) + rest;
                &&& v.csv is Some
                &&& child_scan(cur) == Some((Some((n_csv(), false)), open_tag(n_csv()).len() as nat))
                &&& s1 == v.csv->Some_0.content_spec() + (close_tag(n_csv()) + tail)
                &&& content_end(close_tag(n_csv()) + tail)
                &&& close_scan(close_tag(n_csv()) + tail, n_csv()) == Some((n_csv().len() + 3) as nat)
                &&& (close_tag(n_csv()) + tail).skip(n_csv().len() as int + 3) == tail
            }),
{
    lemma_output_serialization_names();
    assert(suffix_output_serialization(v, 0) =~= element(n_csv(), v.csv->Some_0.content_spec()) + suffix_output_serialization(v, 1));
    assert(cur =~= element(n_csv(), v.csv->Some_0.content_spec()) + (suffix_output_serialization(v, 1) + rest));
    lemma_element_open_shape(n_csv(), v.csv->Some_0.content_spec(), suffix_output_serialization(v, 1) + rest);
    lemma_close_is_content_end(n_csv(), suffix_output_serialization(v, 1) + rest);
    lemma_close_shape(n_csv(), suffix_output_serialization(v, 1) + rest);
}

#[verifier::rlimit(100)]
proof fn lemma_output_serialization_member_1(v: OutputSerialization, rest: Seq<u8>, cur: Seq<u8>)
    requires
        content_end(rest),
        v.json is Some,
        cur == suffix_output_serialization(v, 1) + rest,
    ensures
        ({
                let s1 = cur.skip(open_tag(n_json()).len() as int);
                let tail = suffix_output_serialization(v, 2) + rest;
                &&& v.json is Some
                &&& child_scan(cur) == Some((Some((n_json(), false)), open_tag(n_json()).len() as nat))
                &&& s1 == v.json->Some_0.content_spec() + (close_tag(n_json()) + tail)
                &&& content_end(close_tag(n_json()) + tail)
                &&& close_scan(close_tag(n_json()) + tail, n_json()) == Some((n_json().len() + 3) as nat)
                &&& (close_tag(n_json()) + tail).skip(n_json().len() as int + 3) == tail
            }),
{
    lemma_output_serialization_names();
    assert(suffix_output_serialization(v, 1) =~= element(n_json(), v.json->Some_0.content_spec()) + suffix_output_serialization(v, 2));
    assert(cur =~= element(n_json(), v.json->Some_0.content_spec()) + (suffix_output_serialization(v, 2) + rest));
    lemma_element_open_shape(n_json(), v.json->Some_0.content_spec(), suffix_output_serialization(v, 2) + rest);
    lemma_close_is_content_end(n_json(), suffix_output_serialization(v, 2) + rest);
    lemma_close_shape(n_json(), suffix_output_serialization(v, 2) + rest);
}


impl OutputSerialization {
    /// Decode this type's element content: members in any order, unknown
    /// members skipped, required members demanded.
    ///
    /// Round-trip: the exact content encoding of any structurally valid
    /// value, followed by the end of the enclosing content, decodes back to
    /// a value with the same members, consuming exactly the encoding.
    #[verifier::rlimit(100)]
    pub fn read_content<'a>(d: &mut Deserializer<'a>) -> (r: DeResult<OutputSerialization>)
        requires
            old(d).wf(),
        ensures
            final(d).wf(),
            final(d).remaining().len() <= old(d).remaining().len(),
            forall|v: OutputSerialization, rest: Seq<u8>|
                (v.valid() && old(d).remaining() == #[trigger] (v.content_spec() + rest)
                    && content_end(rest)) ==> (r matches Ok(res) && v.same_model(&res)
                    && final(d).remaining() == rest),
    {
        let ghost orig = d.remaining();
        let mut csv_v: Option<CSVOutput> = Option::None;
        let mut json_v: Option<JSONOutput> = Option::None;
        proof {
            assert forall|v: OutputSerialization, rest: Seq<u8>|
                (v.valid() && orig == #[trigger] (v.content_spec() + rest) && content_end(rest)) implies exists|i: int|
                0 <= i <= 2 && orig == (#[trigger] suffix_output_serialization(v, i)) + rest
                    && settled_output_serialization(v, i, csv_v, json_v) by {
                    assert(v.content_spec() =~= suffix_output_serialization(v, 0));
                    assert(0 <= 0 <= 2 && orig == suffix_output_serialization(v, 0) + rest && settled_output_serialization(v, 0, csv_v, json_v));
            }
        }
        loop
            invariant
                d.wf(),
                d.remaining().len() <= old(d).remaining().len(),
                orig == old(d).remaining(),
                forall|v: OutputSerialization, rest: Seq<u8>|
                    (v.valid() && orig == #[trigger] (v.content_spec() + rest) && content_end(
                        rest,
                    )) ==> exists|i: int|
                        0 <= i <= 2 && d.remaining() == (#[trigger] suffix_output_serialization(v, i))
                            + rest && settled_output_serialization(v, i, csv_v, json_v),
            decreases d.remaining().len(),
        {
            let ghost cur = d.remaining();
            let ghost g_csv = csv_v;
            let ghost g_json = json_v;
            let c_opt = match d.read_child_open() {
                Result::Ok(x) => x,
                Result::Err(e) => {
                    proof {
                        assert forall|v: OutputSerialization, rest: Seq<u8>|
                    (v.valid() && orig == #[trigger] (v.content_spec() + rest) && content_end(rest)) implies false by {
                        let i0 = choose|i: int| 0 <= i <= 2 && cur == (#[trigger] suffix_output_serialization(v, i)) + rest && settled_output_serialization(v, i, g_csv, g_json);
                        lemma_output_serialization_names();
                        lemma_output_serialization_walk(v, i0);
                        let p0 = next_member_output_serialization(v, i0);
                        assert(cur == suffix_output_serialization(v, p0) + rest);
                        if p0 == 2 {
                            assert(suffix_output_serialization(v, 2) + rest =~= rest);
                            lemma_content_end_scan(rest);
                        } else if p0 == 0 {
                            lemma_output_serialization_member_0(v, rest, cur);
                        } else if p0 == 1 {
                            lemma_output_serialization_member_1(v, rest, cur);
                        }
                }
                    }
                    return Err(e);
                },
            };
            match c_opt {
                Option::Some(c) => {
                    if eq_bytes(c.name.as_slice(), t_csv()) {
                        let got = if c.self_closed {
                            let empty_in: [u8; 0] = [];
                            let mut d2 = Deserializer::new(&empty_in);
                            match CSVOutput::read_content(&mut d2) {
                                Result::Ok(x) => x,
                                Result::Err(e) => {
                                    proof {
                                        assert forall|v: OutputSerialization, rest: Seq<u8>|
                    (v.valid() && orig == #[trigger] (v.content_spec() + rest) && content_end(rest)) implies false by {
                        let i0 = choose|i: int| 0 <= i <= 2 && cur == (#[trigger] suffix_output_serialization(v, i)) + rest && settled_output_serialization(v, i, g_csv, g_json);
                        lemma_output_serialization_names();
                        lemma_output_serialization_walk(v, i0);
                        let p0 = next_member_output_serialization(v, i0);
                        assert(cur == suffix_output_serialization(v, p0) + rest);
                        if p0 == 2 {
                            assert(suffix_output_serialization(v, 2) + rest =~= rest);
                            lemma_content_end_scan(rest);
                        } else if p0 == 0 {
                            lemma_output_serialization_member_0(v, rest, cur);
                        } else if p0 == 1 {
                            lemma_output_serialization_member_1(v, rest, cur);
                        }
                }
                                    }
                                    return Err(e);
                                },
                            }
                        } else {
                            let x = match CSVOutput::read_content(d) {
                                Result::Ok(x) => x,
                                Result::Err(e) => {
                                    proof {
                                        assert forall|v: OutputSerialization, rest: Seq<u8>|
                    (v.valid() && orig == #[trigger] (v.content_spec() + rest) && content_end(rest)) implies false by {
                        let i0 = choose|i: int| 0 <= i <= 2 && cur == (#[trigger] suffix_output_serialization(v, i)) + rest && settled_output_serialization(v, i, g_csv, g_json);
                        lemma_output_serialization_names();
                        lemma_output_serialization_walk(v, i0);
                        let p0 = next_member_output_serialization(v, i0);
                        assert(cur == suffix_output_serialization(v, p0) + rest);
                        if p0 == 2 {
                            assert(suffix_output_serialization(v, 2) + rest =~= rest);
                            lemma_content_end_scan(rest);
                        } else if p0 == 0 {
                            lemma_output_serialization_member_0(v, rest, cur);
                        } else if p0 == 1 {
                            lemma_output_serialization_member_1(v, rest, cur);
                        }
                        assert(cur.skip(open_tag(n_csv()).len() as int) == v.csv->Some_0.content_spec() + (close_tag(n_csv()) + (suffix_output_serialization(v, 1) + rest)));
                }
                                    }
                                    return Err(e);
                                },
                            };
                            match d.expect_close(t_csv()) {
                                Result::Ok(u) => {},
                                Result::Err(e) => {
                                    proof {
                                        assert forall|v: OutputSerialization, rest: Seq<u8>|
                    (v.valid() && orig == #[trigger] (v.content_spec() + rest) && content_end(rest)) implies false by {
                        let i0 = choose|i: int| 0 <= i <= 2 && cur == (#[trigger] suffix_output_serialization(v, i)) + rest && settled_output_serialization(v, i, g_csv, g_json);
                        lemma_output_serialization_names();
                        lemma_output_serialization_walk(v, i0);
                        let p0 = next_member_output_serialization(v, i0);
                        assert(cur == suffix_output_serialization(v, p0) + rest);
                        if p0 == 2 {
                            assert(suffix_output_serialization(v, 2) + rest =~= rest);
                            lemma_content_end_scan(rest);
                        } else if p0 == 0 {
                            lemma_output_serialization_member_0(v, rest, cur);
                        } else if p0 == 1 {
                            lemma_output_serialization_member_1(v, rest, cur);
                        }
                        assert(cur.skip(open_tag(n_csv()).len() as int) == v.csv->Some_0.content_spec() + (close_tag(n_csv()) + (suffix_output_serialization(v, 1) + rest)));
                }
                                    }
                                    return Err(e);
                                },
                            }
                            x
                        };
                        csv_v = Option::Some(got);
                        proof {
                            assert forall|v: OutputSerialization, rest: Seq<u8>|
                    (v.valid() && orig == #[trigger] (v.content_spec() + rest) && content_end(rest)) implies exists|i: int|
                    0 <= i <= 2 && d.remaining() == (#[trigger] suffix_output_serialization(v, i)) + rest
                        && settled_output_serialization(v, i, csv_v, json_v) by {
                        let i0 = choose|i: int| 0 <= i <= 2 && cur == (#[trigger] suffix_output_serialization(v, i)) + rest && settled_output_serialization(v, i, g_csv, g_json);
                        lemma_output_serialization_names();
                        lemma_output_serialization_walk(v, i0);
                        let p0 = next_member_output_serialization(v, i0);
                        assert(cur == suffix_output_serialization(v, p0) + rest);
                        if p0 == 2 {
                            assert(suffix_output_serialization(v, 2) + rest =~= rest);
                            lemma_content_end_scan(rest);
                        } else if p0 == 0 {
                            lemma_output_serialization_member_0(v, rest, cur);
                        } else if p0 == 1 {
                            lemma_output_serialization_member_1(v, rest, cur);
                        }
                        assert(cur.skip(open_tag(n_csv()).len() as int) == v.csv->Some_0.content_spec() + (close_tag(n_csv()) + (suffix_output_serialization(v, 1) + rest)));
                        assert(p0 == 0);
                        assert(0 <= 1 <= 2 && d.remaining() == suffix_output_serialization(v, 1) + rest && settled_output_serialization(v, 1, csv_v, json_v));
                }
                        }
                    } else if eq_bytes(c.name.as_slice(), t_json()) {
                        let got = if c.self_closed {
                            let empty_in: [u8; 0] = [];
                            let mut d2 = Deserializer::new(&empty_in);
                            match JSONOutput::read_content(&mut d2) {
                                Result::Ok(x) => x,
                                Result::Err(e) => {
                                    proof {
                                        assert forall|v: OutputSerialization, rest: Seq<u8>|
                    (v.valid() && orig == #[trigger] (v.content_spec() + rest) && content_end(rest)) implies false by {
                        let i0 = choose|i: int| 0 <= i <= 2 && cur == (#[trigger] suffix_output_serialization(v, i)) + rest && settled_output_serialization(v, i, g_csv, g_json);
                        lemma_output_serialization_names();
                        lemma_output_serialization_walk(v, i0);
                        let p0 = next_member_output_serialization(v, i0);
                        assert(cur == suffix_output_serialization(v, p0) + rest);
                        if p0 == 2 {
                            assert(suffix_output_serialization(v, 2) + rest =~= rest);
                            lemma_content_end_scan(rest);
                        } else if p0 == 0 {
                            lemma_output_serialization_member_0(v, rest, cur);
                        } else if p0 == 1 {
                            lemma_output_serialization_member_1(v, rest, cur);
                        }
                }
                                    }
                                    return Err(e);
                                },
                            }
                        } else {
                            let x = match JSONOutput::read_content(d) {
                                Result::Ok(x) => x,
                                Result::Err(e) => {
                                    proof {
                                        assert forall|v: OutputSerialization, rest: Seq<u8>|
                    (v.valid() && orig == #[trigger] (v.content_spec() + rest) && content_end(rest)) implies false by {
                        let i0 = choose|i: int| 0 <= i <= 2 && cur == (#[trigger] suffix_output_serialization(v, i)) + rest && settled_output_serialization(v, i, g_csv, g_json);
                        lemma_output_serialization_names();
                        lemma_output_serialization_walk(v, i0);
                        let p0 = next_member_output_serialization(v, i0);
                        assert(cur == suffix_output_serialization(v, p0) + rest);
                        if p0 == 2 {
                            assert(suffix_output_serialization(v, 2) + rest =~= rest);
                            lemma_content_end_scan(rest);
                        } else if p0 == 0 {
                            lemma_output_serialization_member_0(v, rest, cur);
                        } else if p0 == 1 {
                            lemma_output_serialization_member_1(v, rest, cur);
                        }
                        assert(cur.skip(open_tag(n_json()).len() as int) == v.json->Some_0.content_spec() + (close_tag(n_json()) + (suffix_output_serialization(v, 2) + rest)));
                }
                                    }
                                    return Err(e);
                                },
                            };
                            match d.expect_close(t_json()) {
                                Result::Ok(u) => {},
                                Result::Err(e) => {
                                    proof {
                                        assert forall|v: OutputSerialization, rest: Seq<u8>|
                    (v.valid() && orig == #[trigger] (v.content_spec() + rest) && content_end(rest)) implies false by {
                        let i0 = choose|i: int| 0 <= i <= 2 && cur == (#[trigger] suffix_output_serialization(v, i)) + rest && settled_output_serialization(v, i, g_csv, g_json);
                        lemma_output_serialization_names();
                        lemma_output_serialization_walk(v, i0);
                        let p0 = next_member_output_serialization(v, i0);
                        assert(cur == suffix_output_serialization(v, p0) + rest);
                        if p0 == 2 {
                            assert(suffix_output_serialization(v, 2) + rest =~= rest);
                            lemma_content_end_scan(rest);
                        } else if p0 == 0 {
                            lemma_output_serialization_member_0(v, rest, cur);
                        } else if p0 == 1 {
                            lemma_output_serialization_member_1(v, rest, cur);
                        }
                        assert(cur.skip(open_tag(n_json()).len() as int) == v.json->Some_0.content_spec() + (close_tag(n_json()) + (suffix_output_serialization(v, 2) + rest)));
                }
                                    }
                                    return Err(e);
                                },
                            }
                            x
                        };
                        json_v = Option::Some(got);
                        proof {
                            assert forall|v: OutputSerialization, rest: Seq<u8>|
                    (v.valid() && orig == #[trigger] (v.content_spec() + rest) && content_end(rest)) implies exists|i: int|
                    0 <= i <= 2 && d.remaining() == (#[trigger] suffix_output_serialization(v, i)) + rest
                        && settled_output_serialization(v, i, csv_v, json_v) by {
                        let i0 = choose|i: int| 0 <= i <= 2 && cur == (#[trigger] suffix_output_serialization(v, i)) + rest && settled_output_serialization(v, i, g_csv, g_json);
                        lemma_output_serialization_names();
                        lemma_output_serialization_walk(v, i0);
                        let p0 = next_member_output_serialization(v, i0);
                        assert(cur == suffix_output_serialization(v, p0) + rest);
                        if p0 == 2 {
                            assert(suffix_output_serialization(v, 2) + rest =~= rest);
                            lemma_content_end_scan(rest);
                        } else if p0 == 0 {
                            lemma_output_serialization_member_0(v, rest, cur);
                        } else if p0 == 1 {
                            lemma_output_serialization_member_1(v, rest, cur);
                        }
                        assert(cur.skip(open_tag(n_json()).len() as int) == v.json->Some_0.content_spec() + (close_tag(n_json()) + (suffix_output_serialization(v, 2) + rest)));
                        assert(p0 == 1);
                        assert(0 <= 2 <= 2 && d.remaining() == suffix_output_serialization(v, 2) + rest && settled_output_serialization(v, 2, csv_v, json_v));
                }
                        }
                    } else {
                        match skip_member(d, &c) {
                            Result::Ok(u) => {},
                            Result::Err(e) => {
                                proof {
                                    assert forall|v: OutputSerialization, rest: Seq<u8>|
                    (v.valid() && orig == #[trigger] (v.content_spec() + rest) && content_end(rest)) implies false by {
                        let i0 = choose|i: int| 0 <= i <= 2 && cur == (#[trigger] suffix_output_serialization(v, i)) + rest && settled_output_serialization(v, i, g_csv, g_json);
                        lemma_output_serialization_names();
                        lemma_output_serialization_walk(v, i0);
                        let p0 = next_member_output_serialization(v, i0);
                        assert(cur == suffix_output_serialization(v, p0) + rest);
                        if p0 == 2 {
                            assert(suffix_output_serialization(v, 2) + rest =~= rest);
                            lemma_content_end_scan(rest);
                        } else if p0 == 0 {
                            lemma_output_serialization_member_0(v, rest, cur);
                        } else if p0 == 1 {
                            lemma_output_serialization_member_1(v, rest, cur);
                        }
                }
                                }
                                return Err(e);
                            },
                        }
                        proof {
                            assert forall|v: OutputSerialization, rest: Seq<u8>|
                    (v.valid() && orig == #[trigger] (v.content_spec() + rest) && content_end(rest)) implies false by {
                        let i0 = choose|i: int| 0 <= i <= 2 && cur == (#[trigger] suffix_output_serialization(v, i)) + rest && settled_output_serialization(v, i, g_csv, g_json);
                        lemma_output_serialization_names();
                        lemma_output_serialization_walk(v, i0);
                        let p0 = next_member_output_serialization(v, i0);
                        assert(cur == suffix_output_serialization(v, p0) + rest);
                        if p0 == 2 {
                            assert(suffix_output_serialization(v, 2) + rest =~= rest);
                            lemma_content_end_scan(rest);
                        } else if p0 == 0 {
                            lemma_output_serialization_member_0(v, rest, cur);
                        } else if p0 == 1 {
                            lemma_output_serialization_member_1(v, rest, cur);
                        }
                }
                        }
                    }
                },
                Option::None => {
                    let csv = csv_v;
                    let json = json_v;
                    let res = OutputSerialization { csv, json };
                    proof {
                        assert forall|v: OutputSerialization, rest: Seq<u8>|
                        (v.valid() && orig == #[trigger] (v.content_spec() + rest) && content_end(rest)) implies (v.same_model(&res) && d.remaining() == rest) by {
                            let i0 = choose|i: int| 0 <= i <= 2 && cur == (#[trigger] suffix_output_serialization(v, i)) + rest && settled_output_serialization(v, i, g_csv, g_json);
                            lemma_output_serialization_names();
                            lemma_output_serialization_walk(v, i0);
                            let p0 = next_member_output_serialization(v, i0);
                            assert(cur == suffix_output_serialization(v, p0) + rest);
                            if p0 == 2 {
                                assert(suffix_output_serialization(v, 2) + rest =~= rest);
                                lemma_content_end_scan(rest);
                            } else if p0 == 0 {
                                lemma_output_serialization_member_0(v, rest, cur);
                            } else if p0 == 1 {
                                lemma_output_serialization_member_1(v, rest, cur);
                            }
                    }
                    }
                    return Ok(res);
                },
            }
        }
    }
}

impl DeserializeContent for OutputSerialization {
    fn deserialize_content<'a>(d: &mut Deserializer<'a>) -> (r: DeResult<Self>) {
        OutputSerialization::read_content(d)
    }
}

/// An object-content selection request body.
#[derive(Debug, Clone, PartialEq, Eq)]
pub struct SelectObjectContentRequest {
    pub expression: Vec<u8>,
    pub expression_type: ExpressionType,
    pub input_serialization: InputSerialization,
    pub output_serialization: OutputSerialization,
    pub request_progress: Option<RequestProgress>,
    pub scan_range: Option<ScanRange>,
}

impl SerializeContent for SelectObjectContentRequest {
    open spec fn content_spec(&self) -> Seq<u8> {
        text_el(n_expression(), self.expression@)
            + element(n_expression_type(), self.expression_type.content_spec())
            + element(n_input_serialization(), self.input_serialization.content_spec())
            + element(n_output_serialization(), self.output_serialization.content_spec())
            + opt_el_of(n_request_progress(), self.request_progress)
            + opt_el_of(n_scan_range(), self.scan_range)
    }

    #[verifier::rlimit(60)]
    fn serialize_content(&self, s: &mut Serializer) {
        let ghost orig = s@;
        s.text_element(t_expression(), self.expression.as_slice());
        write_el(s, t_expression_type(), &self.expression_type);
        write_el(s, t_input_serialization(), &self.input_serialization);
        write_el(s, t_output_serialization(), &self.output_serialization);
        write_opt_el(s, t_request_progress(), &self.request_progress);
        write_opt_el(s, t_scan_range(), &self.scan_range);
        proof {
            assert(s@ =~= orig + self.content_spec());
        }
    }
}

impl Serialize for SelectObjectContentRequest {
    open spec fn full_spec(&self) -> Seq<u8> {
        element_ns(n_select_object_content_request(), n_s3_ns(), self.content_spec())
    }

    #[verifier::rlimit(60)]
    fn serialize(&self, s: &mut Serializer) {
        let ghost orig = s@;
        s.begin_ns(t_select_object_content_request(), t_s3_ns());
        self.serialize_content(s);
        s.end(t_select_object_content_request());
        proof {
            assert(s@ =~= orig + self.full_spec());
        }
    }
}

impl DeserializeContent for SelectObjectContentRequest {
    fn deserialize_content<'a>(d: &mut Deserializer<'a>) -> (r: DeResult<Self>) {
        let mut expression_v: Option<Vec<u8>> = Option::None;
        let mut expression_type_v: Option<ExpressionType> = Option::None;
        let mut input_serialization_v: Option<InputSerialization> = Option::None;
        let mut output_serialization_v: Option<OutputSerialization> = Option::None;
        let mut request_progress_v: Option<RequestProgress> = Option::None;
        let mut scan_range_v: Option<ScanRange> = Option::None;
        loop
            invariant
                d.wf(),
                d.remaining().len() <= old(d).remaining().len(),
            decreases d.remaining().len(),
        {
            let c = match d.read_child_open() {
                Result::Ok(x) => x,
                Result::Err(e) => return Err(e),
            };
            let c = match c {
                Option::Some(x) => x,
                Option::None => break,
            };
            if eq_bytes(c.name.as_slice(), t_expression()) {
                let t = read_text_member(d, &c)?;
                expression_v = Option::Some(t);
            } else if eq_bytes(c.name.as_slice(), t_expression_type()) {
                let t = read_text_member(d, &c)?;
                expression_type_v = Option::Some(ExpressionType::from_bytes(t.as_slice()));
            } else if eq_bytes(c.name.as_slice(), t_input_serialization()) {
                let v = if c.self_closed {
                    decode_empty_content::<InputSerialization>()?
                } else {
                    let v = InputSerialization::deserialize_content(d)?;
                    d.expect_close(t_input_serialization())?;
                    v
                };
                input_serialization_v = Option::Some(v);
            } else if eq_bytes(c.name.as_slice(), t_output_serialization()) {
                let v = if c.self_closed {
                    decode_empty_content::<OutputSerialization>()?
                } else {
                    let v = OutputSerialization::deserialize_content(d)?;
                    d.expect_close(t_output_serialization())?;
                    v
                };
                output_serialization_v = Option::Some(v);
            } else if eq_bytes(c.name.as_slice(), t_request_progress()) {
                let v = if c.self_closed {
                    decode_empty_content::<RequestProgress>()?
                } else {
                    let v = RequestProgress::deserialize_content(d)?;
                    d.expect_close(t_request_progress())?;
                    v
                };
                request_progress_v = Option::Some(v);
            } else if eq_bytes(c.name.as_slice(), t_scan_range()) {
                let v = if c.self_closed {
                    decode_empty_content::<ScanRange>()?
                } else {
                    let v = ScanRange::deserialize_content(d)?;
                    d.expect_close(t_scan_range())?;
                    v
                };
                scan_range_v = Option::Some(v);
            } else {
                skip_member(d, &c)?;
            }
        }
        let expression = match expression_v {
            Option::Some(x) => x,
            Option::None => return Err(DeError::MissingField),
        };
        let expression_type = match expression_type_v {
            Option::Some(x) => x,
            Option::None => return Err(DeError::MissingField),
        };
        let input_serialization = match input_serialization_v {
            Option::Some(x) => x,
            Option::None => return Err(DeError::MissingField),
        };
        let output_serialization = match output_serialization_v {
            Option::Some(x) => x,
            Option::None => return Err(DeError::MissingField),
        };
        let request_progress = request_progress_v;
        let scan_range = scan_range_v;
        Ok(SelectObjectContentRequest {
            expression,
            expression_type,
            input_serialization,
            output_serialization,
            request_progress,
            scan_range,
        })
    }
}

impl Deserialize for SelectObjectContentRequest {
    fn deserialize<'a>(d: &mut Deserializer<'a>) -> (r: DeResult<Self>) {
        let sc = match d.read_root_open(t_select_object_content_request()) {
            Result::Ok(b) => b,
            Result::Err(e) => return Err(e),
        };
        if sc {
            return decode_empty_content::<SelectObjectContentRequest>();
        }
        let v = match SelectObjectContentRequest::deserialize_content(d) {
            Result::Ok(v) => v,
            Result::Err(e) => return Err(e),
        };
        match d.expect_close(t_select_object_content_request()) {
            Result::Ok(u) => Ok(v),
            Result::Err(e) => Err(e),
        }
    }
}

/// Enables delivery of notifications to EventBridge; it has no members.
#[derive(Debug, Clone, PartialEq, Eq, Default)]
pub struct EventBridgeConfiguration {
}

impl SerializeContent for EventBridgeConfiguration {
    open spec fn content_spec(&self) -> Seq<u8> {
        Seq::empty()
    }

    fn serialize_content(&self, s: &mut Serializer) {
        let ghost orig = s@;
        proof {
            assert(s@ =~= orig + self.content_spec());
        }
    }
}

impl EventBridgeConfiguration {
    /// Structurally valid: extension values hold only unrecognized text, and
    /// a present flattened list is non-empty (an empty one is
    /// indistinguishable on the wire from an absent member).
    pub open spec fn valid(&self) -> bool {
        true
    }

    /// Member-wise agreement: scalar members equal as values, text members
    /// equal as byte strings, enumerated members equal as wire strings on the
    /// same side of the known/extension split, nested members agreeing
    /// member-wise.
    pub open spec fn same_model(&self, other: &EventBridgeConfiguration) -> bool {
        true
    }
}

/// The content encoding of the members from index `i` on.
pub open spec fn suffix_event_bridge_configuration(v: EventBridgeConfiguration, i: int) -> Seq<u8> {
    Seq::empty()
}

/// The first member at or after `i` that the next child element can belong
/// to.
pub open spec fn next_member_event_bridge_configuration(v: EventBridgeConfiguration, i: int) -> int {
    0
}

/// What the decoder's state says after the members before `i` have been
/// dealt with.
pub open spec fn settled_event_bridge_configuration(v: EventBridgeConfiguration, i: int) -> bool {
    true
}

proof fn lemma_event_bridge_configuration_names()
    ensures
        true,
{

}

#[verifier::rlimit(100)]
proof fn lemma_event_bridge_configuration_at(v: EventBridgeConfiguration, rest: Seq<u8>, i: int, cur: Seq<u8>)
    requires
        0 <= i <= 0,
        content_end(rest),
        cur == suffix_event_bridge_configuration(v, i) + rest,
    ensures
        ({
            let p = next_member_event_bridge_configuration(v, i);
            &&& i <= p <= 0
            &&& (p == 0 ==> cur == rest && child_scan(cur) == Some((Option::<(Seq<u8>, bool)>::None, 0 as nat)) && rest.skip(0) == rest)
        }),
    decreases 0 - i,
{
    lemma_event_bridge_configuration_names();
    if i == 0 {
        assert(suffix_event_bridge_configuration(v, 0) + rest =~= rest);
        assert(cur == rest);
        lemma_content_end_scan(rest);
    } else {

    }
}

impl EventBridgeConfiguration {
    /// Decode this type's element content: members in any order, unknown
    /// members skipped, required members demanded.
    ///
    /// Round-trip: the exact content encoding of any structurally valid
    /// value, followed by the end of the enclosing content, decodes back to
    /// a value with the same members, consuming exactly the encoding.
    #[verifier::rlimit(100)]
    pub fn read_content<'a>(d: &mut Deserializer<'a>) -> (r: DeResult<EventBridgeConfiguration>)
        requires
            old(d).wf(),
        ensures
            final(d).wf(),
            final(d).remaining().len() <= old(d).remaining().len(),
            forall|v: EventBridgeConfiguration, rest: Seq<u8>|
                (v.valid() && old(d).remaining() == #[trigger] (v.content_spec() + rest)
                    && content_end(rest)) ==> (r matches Ok(res) && v.same_model(&res)
                    && final(d).remaining() == rest),
    {
        let ghost orig = d.remaining();

        proof {
            assert forall|v: EventBridgeConfiguration, rest: Seq<u8>|
                (v.valid() && orig == #[trigger] (v.content_spec() + rest) && content_end(rest)) implies exists|i: int|
                0 <= i <= 0 && orig == (#[trigger] suffix_event_bridge_configuration(v, i)) + rest
                    && settled_event_bridge_configuration(v, i) by {
                    assert(v.content_spec() =~= suffix_event_bridge_configuration(v, 0));
                    assert(0 <= 0 <= 0 && orig == suffix_event_bridge_configuration(v, 0) + rest && settled_event_bridge_configuration(v, 0));
            }
        }
        loop
            invariant
                d.wf(),
                d.remaining().len() <= old(d).remaining().len(),
                orig == old(d).remaining(),
                forall|v: EventBridgeConfiguration, rest: Seq<u8>|
                    (v.valid() && orig == #[trigger] (v.content_spec() + rest) && content_end(
                        rest,
                    )) ==> exists|i: int|
                        0 <= i <= 0 && d.remaining() == (#[trigger] suffix_event_bridge_configuration(v, i))
                            + rest && settled_event_bridge_configuration(v, i),
            decreases d.remaining().len(),
        {
            let ghost cur = d.remaining();

            let c_opt = match d.read_child_open() {
                Result::Ok(x) => x,
                Result::Err(e) => {
                    proof {
                        assert forall|v: EventBridgeConfiguration, rest: Seq<u8>|
                    (v.valid() && orig == #[trigger] (v.content_spec() + rest) && content_end(rest)) implies false by {
                        let i0 = choose|i: int| 0 <= i <= 0 && cur == (#[trigger] suffix_event_bridge_configuration(v, i)) + rest && settled_event_bridge_configuration(v, i);
                        lemma_event_bridge_configuration_at(v, rest, i0, cur);
                }
                    }
                    return Err(e);
                },
            };
            match c_opt {
                Option::Some(c) => {
                    match skip_member(d, &c) {
                        Result::Ok(u) => {},
                        Result::Err(e) => {
                            proof {
                                assert forall|v: EventBridgeConfiguration, rest: Seq<u8>|
                    (v.valid() && orig == #[trigger] (v.content_spec() + rest) && content_end(rest)) implies false by {
                        let i0 = choose|i: int| 0 <= i <= 0 && cur == (#[trigger] suffix_event_bridge_configuration(v, i)) + rest && settled_event_bridge_configuration(v, i);
                        lemma_event_bridge_configuration_at(v, rest, i0, cur);
                }
                            }
                            return Err(e);
                        },
                    }
                    proof {
                        assert forall|v: EventBridgeConfiguration, rest: Seq<u8>|
                    (v.valid() && orig == #[trigger] (v.content_spec() + rest) && content_end(rest)) implies false by {
                        let i0 = choose|i: int| 0 <= i <= 0 && cur == (#[trigger] suffix_event_bridge_configuration(v, i)) + rest && settled_event_bridge_configuration(v, i);
                        lemma_event_bridge_configuration_at(v, rest, i0, cur);
                }
                    }
                },
                Option::None => {

                    let res = EventBridgeConfiguration { };
                    proof {
                        assert forall|v: EventBridgeConfiguration, rest: Seq<u8>|
                        (v.valid() && orig == #[trigger] (v.content_spec() + rest) && content_end(rest)) implies (v.same_model(&res) && d.remaining() == rest) by {
                            let i0 = choose|i: int| 0 <= i <= 0 && cur == (#[trigger] suffix_event_bridge_configuration(v, i)) + rest && settled_event_bridge_configuration(v, i);
                            lemma_event_bridge_configuration_at(v, rest, i0, cur);
                    }
                    }
                    return Ok(res);
                },
            }
        }
    }
}

impl DeserializeContent for EventBridgeConfiguration {
    fn deserialize_content<'a>(d: &mut Deserializer<'a>) -> (r: DeResult<Self>) {
        EventBridgeConfiguration::read_content(d)
    }
}

/// A notification target invoking a cloud function.
#[derive(Debug, Clone, PartialEq, Eq)]
pub struct LambdaFunctionConfiguration {
    pub id: Option<Vec<u8>>,
    pub lambda_function_arn: Vec<u8>,
    pub events: Vec<Event>,
}

impl SerializeContent for LambdaFunctionConfiguration {
    open spec fn content_spec(&self) -> Seq<u8> {
        opt_text_el(n_id(), opt_view(self.id))
            + text_el(n_cloud_function(), self.lambda_function_arn@)
            + flat_list_spec(n_event(), self.events@)
    }

    fn serialize_content(&self, s: &mut Serializer) {
        let ghost orig = s@;
        write_opt_text(s, t_id(), &self.id);
        s.text_element(t_cloud_function(), self.lambda_function_arn.as_slice());
        serialize_flat_list(s, t_event(), &self.events);
        proof {
            assert(s@ =~= orig + self.content_spec());
        }
    }
}

impl LambdaFunctionConfiguration {
    /// Structurally valid: extension values hold only unrecognized text, and
    /// a present flattened list is non-empty (an empty one is
    /// indistinguishable on the wire from an absent member).
    pub open spec fn valid(&self) -> bool {
        &&& self.events@.len() > 0 && (forall|t: int| 0 <= t < self.events@.len() ==> (#[trigger] self.events@[t]).wf())
    }

    /// Member-wise agreement: scalar members equal as values, text members
    /// equal as byte strings, enumerated members equal as wire strings on the
    /// same side of the known/extension split, nested members agreeing
    /// member-wise.
    pub open spec fn same_model(&self, other: &LambdaFunctionConfiguration) -> bool {
        &&& opt_view(self.id) == opt_view(other.id)
        &&& self.lambda_function_arn@ == other.lambda_function_arn@
        &&& self.events@.len() == other.events@.len() && (forall|t: int| 0 <= t < self.events@.len() ==> (#[trigger] self.events@[t]).same_as(&other.events@[t]))
    }
}

/// The content encoding of the members from index `i` on.
pub open spec fn suffix_lambda_function_configuration(v: LambdaFunctionConfiguration, i: int, j_events: int) -> Seq<u8> {
    if i <= 0 {
        opt_text_el(n_id(), opt_view(v.id)) + (text_el(n_cloud_function(), v.lambda_function_arn@) + (flat_list_spec(n_event(), v.events@.skip(j_events)) + (Seq::empty())))
    } else if i <= 1 {
        text_el(n_cloud_function(), v.lambda_function_arn@) + (flat_list_spec(n_event(), v.events@.skip(j_events)) + (Seq::empty()))
    } else if i <= 2 {
        flat_list_spec(n_event(), v.events@.skip(j_events)) + (Seq::empty())
    } else {
        Seq::empty()
    }
}

/// The first member at or after `i` that the next child element can belong
/// to.
pub open spec fn next_member_lambda_function_configuration(v: LambdaFunctionConfiguration, i: int, j_events: int) -> int {
    if i <= 0 && (v.id is Some) {
        0
    } else if i <= 1 {
        1
    } else if i <= 2 && (j_events < v.events@.len()) {
        2
    } else {
        3
    }
}

/// What the decoder's state says after the members before `i` have been
/// dealt with.
pub open spec fn settled_lambda_function_configuration(v: LambdaFunctionConfiguration, i: int, id_s: Option<Vec<u8>>, lambda_function_arn_s: Option<Vec<u8>>, events_s: Seq<Event>) -> bool {
    &&& (0 < i ==> opt_view(id_s) == opt_view(v.id))
    &&& (0 >= i ==> id_s is None)
    &&& (1 < i ==> (match lambda_function_arn_s { Option::Some(x) => x@ == v.lambda_function_arn@, Option::None => false }))
    &&& (1 >= i ==> lambda_function_arn_s is None)
    &&& (2 < i ==> events_s.len() == v.events@.len())
    &&& (2 == i ==> events_s.len() <= v.events@.len())
    &&& (2 > i ==> events_s.len() == 0)
    &&& (forall|t: int| 0 <= t < events_s.len() ==> t < v.events@.len() && (#[trigger] events_s[t]).same_as(&v.events@[t]))
}

proof fn lemma_lambda_function_configuration_names()
    ensures
        n_id().len() >= 1,
        forall|ii: int| 0 <= ii < n_id().len() ==> is_name_byte(#[trigger] n_id()[ii]),
        n_cloud_function().len() >= 1,
        forall|ii: int| 0 <= ii < n_cloud_function().len() ==> is_name_byte(#[trigger] n_cloud_function()[ii]),
        n_event().len() >= 1,
        forall|ii: int| 0 <= ii < n_event().len() ==> is_name_byte(#[trigger] n_event()[ii]),
        n_id() != n_cloud_function(),
        n_id() != n_event(),
        n_cloud_function() != n_event(),
{
    assert(n_id().len() != n_cloud_function().len());
    assert(n_id().len() != n_event().len());
    assert(n_cloud_function().len() != n_event().len());
}

proof fn lemma_lambda_function_configuration_walk(v: LambdaFunctionConfiguration, i: int, j_events: int)
    requires
        0 <= i <= 3,
        0 <= j_events <= v.events@.len(),
    ensures
        ({
            let p = next_member_lambda_function_configuration(v, i, j_events);
            &&& i <= p <= 3
            &&& suffix_lambda_function_configuration(v, i, j_events) == suffix_lambda_function_configuration(v, p, j_events)
            &&& (i <= 0 && 0 < p ==> v.id is None)
            &&& (i <= 1 ==> p <= 1)
            &&& (i <= 2 && 2 < p ==> j_events >= v.events@.len())
            &&& (p == 0 ==> (v.id is Some))
            &&& (p == 2 ==> (j_events < v.events@.len()))
        }),
    decreases 3 - i,
{
    if i < 3 {
        if i == 0 {
            if !(v.id is Some) {
                assert(suffix_lambda_function_configuration(v, 0, j_events) =~= suffix_lambda_function_configuration(v, 1, j_events));
                lemma_lambda_function_configuration_walk(v, 1, j_events);
            }
        } else if i == 1 {
            // this member is always pending here
        } else if i == 2 {
            if !(j_events < v.events@.len()) {
                assert(v.events@.skip(j_events) =~= Seq::<Event>::empty());
                assert(flat_list_spec(n_event(), v.events@.skip(j_events)) == Seq::<u8>::empty());
                assert(suffix_lambda_function_configuration(v, 2, j_events) =~= suffix_lambda_function_configuration(v, 3, j_events));
                lemma_lambda_function_configuration_walk(v, 3, j_events);
            }
        }
    }
}

#[verifier::rlimit(100)]
proof fn lemma_lambda_function_configuration_member_0(v: LambdaFunctionConfiguration, rest: Seq<u8>, j_events: int, cur: Seq<u8>)
    requires
        content_end(rest),
        0 <= j_events <= v.events@.len(),
        v.id is Some,
        cur == suffix_lambda_function_configuration(v, 0, j_events) + rest,
    ensures
        ({
                let s1 = cur.skip(open_tag(n_id()).len() as int);
                let m = escape_seq(v.id->Some_0@).len() as int;
                &&& v.id is Some
                &&& child_scan(cur) == Some((Some((n_id(), false)), open_tag(n_id()).len() as nat))
                &&& until_count(s1, LT) == m
                &&& unescape_seq(s1.take(m)) == Some(v.id->Some_0@)
                &&& close_scan(s1.skip(m), n_id()) == Some((n_id().len() + 3) as nat)
                &&& s1.skip(m).skip(n_id().len() as int + 3) == suffix_lambda_function_configuration(v, 1, j_events) + rest
            }),
{
    lemma_lambda_function_configuration_names();
    assert(suffix_lambda_function_configuration(v, 0, j_events) =~= text_el(n_id(), v.id->Some_0@) + suffix_lambda_function_configuration(v, 1, j_events));
    assert(cur =~= text_el(n_id(), v.id->Some_0@) + (suffix_lambda_function_configuration(v, 1, j_events) + rest));
    lemma_text_member_shape(n_id(), v.id->Some_0@, suffix_lambda_function_configuration(v, 1, j_events) + rest);
}

#[verifier::rlimit(100)]
proof fn lemma_lambda_function_configuration_member_1(v: LambdaFunctionConfiguration, rest: Seq<u8>, j_events: int, cur: Seq<u8>)
    requires
        content_end(rest),
        0 <= j_events <= v.events@.len(),
        true,
        cur == suffix_lambda_function_configuration(v, 1, j_events) + rest,
    ensures
        ({
                let s1 = cur.skip(open_tag(n_cloud_function()).len() as int);
                let m = escape_seq(v.lambda_function_arn@).len() as int;
                &&& true
                &&& child_scan(cur) == Some((Some((n_cloud_function(), false)), open_tag(n_cloud_function()).len() as nat))
                &&& until_count(s1, LT) == m
                &&& unescape_seq(s1.take(m)) == Some(v.lambda_function_arn@)
                &&& close_scan(s1.skip(m), n_cloud_function()) == Some((n_cloud_function().len() + 3) as nat)
                &&& s1.skip(m).skip(n_cloud_function().len() as int + 3) == suffix_lambda_function_configuration(v, 2, j_events) + rest
            }),
{
    lemma_lambda_function_configuration_names();
    assert(suffix_lambda_function_configuration(v, 1, j_events) =~= text_el(n_cloud_function(), v.lambda_function_arn@) + suffix_lambda_function_configuration(v, 2, j_events));
    assert(cur =~= text_el(n_cloud_function(), v.lambda_function_arn@) + (suffix_lambda_function_configuration(v, 2, j_events) + rest));
    lemma_text_member_shape(n_cloud_function(), v.lambda_function_arn@, suffix_lambda_function_configuration(v, 2, j_events) + rest);
}

#[verifier::rlimit(100)]
proof fn lemma_lambda_function_configuration_member_2(v: LambdaFunctionConfiguration, rest: Seq<u8>, j_events: int, cur: Seq<u8>)
    requires
        content_end(rest),
        0 <= j_events <= v.events@.len(),
        j_events < v.events@.len(),
        cur == suffix_lambda_function_configuration(v, 2, j_events) + rest,
    ensures
        ({
                let l = v.events@;
                let s1 = cur.skip(open_tag(n_event()).len() as int);
                let m = escape_seq(l[j_events].wire_spec()).len() as int;
                &&& true
                &&& j_events < l.len()
                &&& child_scan(cur) == Some((Some((n_event(), false)), open_tag(n_event()).len() as nat))
                &&& until_count(s1, LT) == m
                &&& unescape_seq(s1.take(m)) == Some(l[j_events].wire_spec())
                &&& close_scan(s1.skip(m), n_event()) == Some((n_event().len() + 3) as nat)
                &&& s1.skip(m).skip(n_event().len() as int + 3) == suffix_lambda_function_configuration(v, 2, j_events + 1) + rest
            }),
{
    lemma_lambda_function_configuration_names();
    let l = v.events@;
    assert(l.skip(j_events)[0] == l[j_events]);
    assert(l.skip(j_events).skip(1) =~= l.skip(j_events + 1));
    assert(flat_list_spec(n_event(), l.skip(j_events)) =~= element(n_event(), l[j_events].content_spec()) + flat_list_spec(n_event(), l.skip(j_events + 1)));
    let after0 = flat_list_spec(n_event(), l.skip(j_events + 1)) + (suffix_lambda_function_configuration(v, 3, j_events) + rest);
    assert(suffix_lambda_function_configuration(v, 2, j_events + 1) + rest =~= after0);
    assert(cur =~= text_el(n_event(), l[j_events].wire_spec()) + after0);
    lemma_text_member_shape(n_event(), l[j_events].wire_spec(), after0);
    assert(cur.skip(open_tag(n_event()).len() as int).skip(escape_seq(l[j_events].wire_spec()).len() as int).skip(n_event().len() as int + 3) == suffix_lambda_function_configuration(v, 2, j_events + 1) + rest);
}

#[verifier::rlimit(100)]
proof fn lemma_lambda_function_configuration_at(v: LambdaFunctionConfiguration, rest: Seq<u8>, i: int, j_events: int, cur: Seq<u8>)
    requires
        0 <= i <= 3,
        content_end(rest),
        0 <= j_events <= v.events@.len(),
        cur == suffix_lambda_function_configuration(v, i, j_events) + rest,
    ensures
        ({
            let p = next_member_lambda_function_configuration(v, i, j_events);
            &&& i <= p <= 3
            &&& (i <= 0 && 0 < p ==> v.id is None)
            &&& (i <= 1 ==> p <= 1)
            &&& (i <= 2 && 2 < p ==> j_events >= v.events@.len())
            &&& (p == 0 ==> ({
                let s1 = cur.skip(open_tag(n_id()).len() as int);
                let m = escape_seq(v.id->Some_0@).len() as int;
                &&& v.id is Some
                &&& child_scan(cur) == Some((Some((n_id(), false)), open_tag(n_id()).len() as nat))
                &&& until_count(s1, LT) == m
                &&& unescape_seq(s1.take(m)) == Some(v.id->Some_0@)
                &&& close_scan(s1.skip(m), n_id()) == Some((n_id().len() + 3) as nat)
                &&& s1.skip(m).skip(n_id().len() as int + 3) == suffix_lambda_function_configuration(v, 1, j_events) + rest
            }))
            &&& (p == 1 ==> ({
                let s1 = cur.skip(open_tag(n_cloud_function()).len() as int);
                let m = escape_seq(v.lambda_function_arn@).len() as int;
                &&& true
                &&& child_scan(cur) == Some((Some((n_cloud_function(), false)), open_tag(n_cloud_function()).len() as nat))
                &&& until_count(s1, LT) == m
                &&& unescape_seq(s1.take(m)) == Some(v.lambda_function_arn@)
                &&& close_scan(s1.skip(m), n_cloud_function()) == Some((n_cloud_function().len() + 3) as nat)
                &&& s1.skip(m).skip(n_cloud_function().len() as int + 3) == suffix_lambda_function_configuration(v, 2, j_events) + rest
            }))
            &&& (p == 2 ==> ({
                let l = v.events@;
                let s1 = cur.skip(open_tag(n_event()).len() as int);
                let m = escape_seq(l[j_events].wire_spec()).len() as int;
                &&& true
                &&& j_events < l.len()
                &&& child_scan(cur) == Some((Some((n_event(), false)), open_tag(n_event()).len() as nat))
                &&& until_count(s1, LT) == m
                &&& unescape_seq(s1.take(m)) == Some(l[j_events].wire_spec())
                &&& close_scan(s1.skip(m), n_event()) == Some((n_event().len() + 3) as nat)
                &&& s1.skip(m).skip(n_event().len() as int + 3) == suffix_lambda_function_configuration(v, 2, j_events + 1) + rest
            }))
            &&& (p == 3 ==> cur == rest && child_scan(cur) == Some((Option::<(Seq<u8>, bool)>::None, 0 as nat)) && rest.skip(0) == rest)
        }),
{
    lemma_lambda_function_configuration_names();
    lemma_lambda_function_configuration_walk(v, i, j_events);
    let p = next_member_lambda_function_configuration(v, i, j_events);
    assert(cur == suffix_lambda_function_configuration(v, p, j_events) + rest);
    if p == 3 {
        assert(suffix_lambda_function_configuration(v, 3, j_events) + rest =~= rest);
        lemma_content_end_scan(rest);
    } else if p == 0 {
        lemma_lambda_function_configuration_member_0(v, rest, j_events, cur);
    } else if p == 1 {
        lemma_lambda_function_configuration_member_1(v, rest, j_events, cur);
    } else if p == 2 {
        lemma_lambda_function_configuration_member_2(v, rest, j_events, cur);
    }
}


impl LambdaFunctionConfiguration {
    /// Decode this type's element content: members in any order, unknown
    /// members skipped, required members demanded.
    ///
    /// Round-trip: the exact content encoding of any structurally valid
    /// value, followed by the end of the enclosing content, decodes back to
    /// a value with the same members, consuming exactly the encoding.
    #[verifier::rlimit(100)]
    pub fn read_content<'a>(d: &mut Deserializer<'a>) -> (r: DeResult<LambdaFunctionConfiguration>)
        requires
            old(d).wf(),
        ensures
            final(d).wf(),
            final(d).remaining().len() <= old(d).remaining().len(),
            forall|v: LambdaFunctionConfiguration, rest: Seq<u8>|
                (v.valid() && old(d).remaining() == #[trigger] (v.content_spec() + rest)
                    && content_end(rest)) ==> (r matches Ok(res) && v.same_model(&res)
                    && final(d).remaining() == rest),
    {
        let ghost orig = d.remaining();
        let mut id_v: Option<Vec<u8>> = Option::None;
        let mut lambda_function_arn_v: Option<Vec<u8>> = Option::None;
        let mut events_items: Vec<Event> = Vec::new();
        proof {
            assert forall|v: LambdaFunctionConfiguration, rest: Seq<u8>|
                (v.valid() && orig == #[trigger] (v.content_spec() + rest) && content_end(rest)) implies exists|i: int|
                0 <= i <= 3 && orig == (#[trigger] suffix_lambda_function_configuration(v, i, events_items@.len() as int)) + rest
                    && settled_lambda_function_configuration(v, i, id_v, lambda_function_arn_v, events_items@) by {
                    assert(v.events@.skip(0) =~= v.events@);
                    assert(v.content_spec() =~= suffix_lambda_function_configuration(v, 0, events_items@.len() as int));
                    assert(0 <= 0 <= 3 && orig == suffix_lambda_function_configuration(v, 0, events_items@.len() as int) + rest && settled_lambda_function_configuration(v, 0, id_v, lambda_function_arn_v, events_items@));
            }
        }
        loop
            invariant
                d.wf(),
                d.remaining().len() <= old(d).remaining().len(),
                orig == old(d).remaining(),
                forall|v: LambdaFunctionConfiguration, rest: Seq<u8>|
                    (v.valid() && orig == #[trigger] (v.content_spec() + rest) && content_end(
                        rest,
                    )) ==> exists|i: int|
                        0 <= i <= 3 && d.remaining() == (#[trigger] suffix_lambda_function_configuration(v, i, events_items@.len() as int))
                            + rest && settled_lambda_function_configuration(v, i, id_v, lambda_function_arn_v, events_items@),
            decreases d.remaining().len(),
        {
            let ghost cur = d.remaining();
            let ghost g_id = id_v;
            let ghost g_lambda_function_arn = lambda_function_arn_v;
            let ghost g_events = events_items@;
            let c_opt = match d.read_child_open() {
                Result::Ok(x) => x,
                Result::Err(e) => {
                    proof {
                        assert forall|v: LambdaFunctionConfiguration, rest: Seq<u8>|
                    (v.valid() && orig == #[trigger] (v.content_spec() + rest) && content_end(rest)) implies false by {
                        let i0 = choose|i: int| 0 <= i <= 3 && cur == (#[trigger] suffix_lambda_function_configuration(v, i, g_events.len() as int)) + rest && settled_lambda_function_configuration(v, i, g_id, g_lambda_function_arn, g_events);
                        assert(0 <= g_events.len() <= v.events@.len());
                        lemma_lambda_function_configuration_names();
                        lemma_lambda_function_configuration_at(v, rest, i0, g_events.len() as int, cur);
                }
                    }
                    return Err(e);
                },
            };
            match c_opt {
                Option::Some(c) => {
                    if eq_bytes(c.name.as_slice(), t_id()) {
                        let t = match read_text_member(d, &c) {
                            Result::Ok(t) => t,
                            Result::Err(e) => {
                                proof {
                                    assert forall|v: LambdaFunctionConfiguration, rest: Seq<u8>|
                    (v.valid() && orig == #[trigger] (v.content_spec() + rest) && content_end(rest)) implies false by {
                        let i0 = choose|i: int| 0 <= i <= 3 && cur == (#[trigger] suffix_lambda_function_configuration(v, i, g_events.len() as int)) + rest && settled_lambda_function_configuration(v, i, g_id, g_lambda_function_arn, g_events);
                        assert(0 <= g_events.len() <= v.events@.len());
                        lemma_lambda_function_configuration_names();
                        lemma_lambda_function_configuration_at(v, rest, i0, g_events.len() as int, cur);
                }
                                }
                                return Err(e);
                            },
                        };
                        id_v = Option::Some(t);
                        proof {
                            assert forall|v: LambdaFunctionConfiguration, rest: Seq<u8>|
                    (v.valid() && orig == #[trigger] (v.content_spec() + rest) && content_end(rest)) implies exists|i: int|
                    0 <= i <= 3 && d.remaining() == (#[trigger] suffix_lambda_function_configuration(v, i, events_items@.len() as int)) + rest
                        && settled_lambda_function_configuration(v, i, id_v, lambda_function_arn_v, events_items@) by {
                        let i0 = choose|i: int| 0 <= i <= 3 && cur == (#[trigger] suffix_lambda_function_configuration(v, i, g_events.len() as int)) + rest && settled_lambda_function_configuration(v, i, g_id, g_lambda_function_arn, g_events);
                        assert(0 <= g_events.len() <= v.events@.len());
                        lemma_lambda_function_configuration_names();
                        lemma_lambda_function_configuration_at(v, rest, i0, g_events.len() as int, cur);
                        assert(next_member_lambda_function_configuration(v, i0, g_events.len() as int) == 0);
                        assert(0 <= 1 <= 3 && d.remaining() == suffix_lambda_function_configuration(v, 1, events_items@.len() as int) + rest && settled_lambda_function_configuration(v, 1, id_v, lambda_function_arn_v, events_items@));
                }
                        }
                    } else if eq_bytes(c.name.as_slice(), t_cloud_function()) {
                        let t = match read_text_member(d, &c) {
                            Result::Ok(t) => t,
                            Result::Err(e) => {
                                proof {
                                    assert forall|v: LambdaFunctionConfiguration, rest: Seq<u8>|
                    (v.valid() && orig == #[trigger] (v.content_spec() + rest) && content_end(rest)) implies false by {
                        let i0 = choose|i: int| 0 <= i <= 3 && cur == (#[trigger] suffix_lambda_function_configuration(v, i, g_events.len() as int)) + rest && settled_lambda_function_configuration(v, i, g_id, g_lambda_function_arn, g_events);
                        assert(0 <= g_events.len() <= v.events@.len());
                        lemma_lambda_function_configuration_names();
                        lemma_lambda_function_configuration_at(v, rest, i0, g_events.len() as int, cur);
                }
                                }
                                return Err(e);
                            },
                        };
                        lambda_function_arn_v = Option::Some(t);
                        proof {
                            assert forall|v: LambdaFunctionConfiguration, rest: Seq<u8>|
                    (v.valid() && orig == #[trigger] (v.content_spec() + rest) && content_end(rest)) implies exists|i: int|
                    0 <= i <= 3 && d.remaining() == (#[trigger] suffix_lambda_function_configuration(v, i, events_items@.len() as int)) + rest
                        && settled_lambda_function_configuration(v, i, id_v, lambda_function_arn_v, events_items@) by {
                        let i0 = choose|i: int| 0 <= i <= 3 && cur == (#[trigger] suffix_lambda_function_configuration(v, i, g_events.len() as int)) + rest && settled_lambda_function_configuration(v, i, g_id, g_lambda_function_arn, g_events);
                        assert(0 <= g_events.len() <= v.events@.len());
                        lemma_lambda_function_configuration_names();
                        lemma_lambda_function_configuration_at(v, rest, i0, g_events.len() as int, cur);
                        assert(next_member_lambda_function_configuration(v, i0, g_events.len() as int) == 1);
                        assert(0 <= 2 <= 3 && d.remaining() == suffix_lambda_function_configuration(v, 2, events_items@.len() as int) + rest && settled_lambda_function_configuration(v, 2, id_v, lambda_function_arn_v, events_items@));
                }
                        }
                    } else if eq_bytes(c.name.as_slice(), t_event()) {
                        let t = match read_text_member(d, &c) {
                            Result::Ok(t) => t,
                            Result::Err(e) => {
                                proof {
                                    assert forall|v: LambdaFunctionConfiguration, rest: Seq<u8>|
                    (v.valid() && orig == #[trigger] (v.content_spec() + rest) && content_end(rest)) implies false by {
                        let i0 = choose|i: int| 0 <= i <= 3 && cur == (#[trigger] suffix_lambda_function_configuration(v, i, g_events.len() as int)) + rest && settled_lambda_function_configuration(v, i, g_id, g_lambda_function_arn, g_events);
                        assert(0 <= g_events.len() <= v.events@.len());
                        lemma_lambda_function_configuration_names();
                        lemma_lambda_function_configuration_at(v, rest, i0, g_events.len() as int, cur);
                }
                                }
                                return Err(e);
                            },
                        };
                        events_items.push(Event::from_bytes(t.as_slice()));
                        proof {
                            assert forall|v: LambdaFunctionConfiguration, rest: Seq<u8>|
                    (v.valid() && orig == #[trigger] (v.content_spec() + rest) && content_end(rest)) implies exists|i: int|
                    0 <= i <= 3 && d.remaining() == (#[trigger] suffix_lambda_function_configuration(v, i, events_items@.len() as int)) + rest
                        && settled_lambda_function_configuration(v, i, id_v, lambda_function_arn_v, events_items@) by {
                        let i0 = choose|i: int| 0 <= i <= 3 && cur == (#[trigger] suffix_lambda_function_configuration(v, i, g_events.len() as int)) + rest && settled_lambda_function_configuration(v, i, g_id, g_lambda_function_arn, g_events);
                        assert(0 <= g_events.len() <= v.events@.len());
                        lemma_lambda_function_configuration_names();
                        lemma_lambda_function_configuration_at(v, rest, i0, g_events.len() as int, cur);
                        if !(v.events@[g_events.len() as int] is Extension) {
                            lemma_event_known(v.events@[g_events.len() as int]);
                        }
                        assert(next_member_lambda_function_configuration(v, i0, g_events.len() as int) == 2);
                        assert(0 <= 2 <= 3 && d.remaining() == suffix_lambda_function_configuration(v, 2, events_items@.len() as int) + rest && settled_lambda_function_configuration(v, 2, id_v, lambda_function_arn_v, events_items@));
                }
                        }
                    } else {
                        match skip_member(d, &c) {
                            Result::Ok(u) => {},
                            Result::Err(e) => {
                                proof {
                                    assert forall|v: LambdaFunctionConfiguration, rest: Seq<u8>|
                    (v.valid() && orig == #[trigger] (v.content_spec() + rest) && content_end(rest)) implies false by {
                        let i0 = choose|i: int| 0 <= i <= 3 && cur == (#[trigger] suffix_lambda_function_configuration(v, i, g_events.len() as int)) + rest && settled_lambda_function_configuration(v, i, g_id, g_lambda_function_arn, g_events);
                        assert(0 <= g_events.len() <= v.events@.len());
                        lemma_lambda_function_configuration_names();
                        lemma_lambda_function_configuration_at(v, rest, i0, g_events.len() as int, cur);
                }
                                }
                                return Err(e);
                            },
                        }
                        proof {
                            assert forall|v: LambdaFunctionConfiguration, rest: Seq<u8>|
                    (v.valid() && orig == #[trigger] (v.content_spec() + rest) && content_end(rest)) implies false by {
                        let i0 = choose|i: int| 0 <= i <= 3 && cur == (#[trigger] suffix_lambda_function_configuration(v, i, g_events.len() as int)) + rest && settled_lambda_function_configuration(v, i, g_id, g_lambda_function_arn, g_events);
                        assert(0 <= g_events.len() <= v.events@.len());
                        lemma_lambda_function_configuration_names();
                        lemma_lambda_function_configuration_at(v, rest, i0, g_events.len() as int, cur);
                }
                        }
                    }
                },
                Option::None => {
                    let id = id_v;
                    let lambda_function_arn = match lambda_function_arn_v {
                        Option::Some(x) => x,
                        Option::None => {
                            proof {
                                assert forall|v: LambdaFunctionConfiguration, rest: Seq<u8>|
                    (v.valid() && orig == #[trigger] (v.content_spec() + rest) && content_end(rest)) implies false by {
                        let i0 = choose|i: int| 0 <= i <= 3 && cur == (#[trigger] suffix_lambda_function_configuration(v, i, g_events.len() as int)) + rest && settled_lambda_function_configuration(v, i, g_id, g_lambda_function_arn, g_events);
                        assert(0 <= g_events.len() <= v.events@.len());
                        lemma_lambda_function_configuration_names();
                        lemma_lambda_function_configuration_at(v, rest, i0, g_events.len() as int, cur);
                }
                            }
                            return Err(DeError::MissingField);
                        },
                    };
                    if events_items.len() == 0 {
                        proof {
                            assert forall|v: LambdaFunctionConfiguration, rest: Seq<u8>|
                    (v.valid() && orig == #[trigger] (v.content_spec() + rest) && content_end(rest)) implies false by {
                        let i0 = choose|i: int| 0 <= i <= 3 && cur == (#[trigger] suffix_lambda_function_configuration(v, i, g_events.len() as int)) + rest && settled_lambda_function_configuration(v, i, g_id, g_lambda_function_arn, g_events);
                        assert(0 <= g_events.len() <= v.events@.len());
                        lemma_lambda_function_configuration_names();
                        lemma_lambda_function_configuration_at(v, rest, i0, g_events.len() as int, cur);
                }
                        }
                        return Err(DeError::MissingField);
                    }
                    let events = events_items;
                    let res = LambdaFunctionConfiguration { id, lambda_function_arn, events };
                    proof {
                        assert forall|v: LambdaFunctionConfiguration, rest: Seq<u8>|
                        (v.valid() && orig == #[trigger] (v.content_spec() + rest) && content_end(rest)) implies (v.same_model(&res) && d.remaining() == rest) by {
                            let i0 = choose|i: int| 0 <= i <= 3 && cur == (#[trigger] suffix_lambda_function_configuration(v, i, g_events.len() as int)) + rest && settled_lambda_function_configuration(v, i, g_id, g_lambda_function_arn, g_events);
                            assert(0 <= g_events.len() <= v.events@.len());
                            lemma_lambda_function_configuration_names();
                            lemma_lambda_function_configuration_at(v, rest, i0, g_events.len() as int, cur);
                            assert(g_events.len() == v.events@.len());
                    }
                    }
                    return Ok(res);
                },
            }
        }
    }
}

impl DeserializeContent for LambdaFunctionConfiguration {
    fn deserialize_content<'a>(d: &mut Deserializer<'a>) -> (r: DeResult<Self>) {
        LambdaFunctionConfiguration::read_content(d)
    }
}

/// A notification target publishing to a queue.
#[derive(Debug, Clone, PartialEq, Eq)]
pub struct QueueConfiguration {
    pub id: Option<Vec<u8>>,
    pub queue_arn: Vec<u8>,
    pub events: Vec<Event>,
}

impl SerializeContent for QueueConfiguration {
    open spec fn content_spec(&self) -> Seq<u8> {
        opt_text_el(n_id(), opt_view(self.id))
            + text_el(n_queue(), self.queue_arn@)
            + flat_list_spec(n_event(), self.events@)
    }

    fn serialize_content(&self, s: &mut Serializer) {
        let ghost orig = s@;
        write_opt_text(s, t_id(), &self.id);
        s.text_element(t_queue(), self.queue_arn.as_slice());
        serialize_flat_list(s, t_event(), &self.events);
        proof {
            assert(s@ =~= orig + self.content_spec());
        }
    }
}

impl QueueConfiguration {
    /// Structurally valid: extension values hold only unrecognized text, and
    /// a present flattened list is non-empty (an empty one is
    /// indistinguishable on the wire from an absent member).
    pub open spec fn valid(&self) -> bool {
        &&& self.events@.len() > 0 && (forall|t: int| 0 <= t < self.events@.len() ==> (#[trigger] self.events@[t]).wf())
    }

    /// Member-wise agreement: scalar members equal as values, text members
    /// equal as byte strings, enumerated members equal as wire strings on the
    /// same side of the known/extension split, nested members agreeing
    /// member-wise.
    pub open spec fn same_model(&self, other: &QueueConfiguration) -> bool {
        &&& opt_view(self.id) == opt_view(other.id)
        &&& self.queue_arn@ == other.queue_arn@
        &&& self.events@.len() == other.events@.len() && (forall|t: int| 0 <= t < self.events@.len() ==> (#[trigger] self.events@[t]).same_as(&other.events@[t]))
    }
}

/// The content encoding of the members from index `i` on.
pub open spec fn suffix_queue_configuration(v: QueueConfiguration, i: int, j_events: int) -> Seq<u8> {
    if i <= 0 {
        opt_text_el(n_id(), opt_view(v.id)) + (text_el(n_queue(), v.queue_arn@) + (flat_list_spec(n_event(), v.events@.skip(j_events)) + (Seq::empty())))
    } else if i <= 1 {
        text_el(n_queue(), v.queue_arn@) + (flat_list_spec(n_event(), v.events@.skip(j_events)) + (Seq::empty()))
    } else if i <= 2 {
        flat_list_spec(n_event(), v.events@.skip(j_events)) + (Seq::empty())
    } else {
        Seq::empty()
    }
}

/// The first member at or after `i` that the next child element can belong
/// to.
pub open spec fn next_member_queue_configuration(v: QueueConfiguration, i: int, j_events: int) -> int {
    if i <= 0 && (v.id is Some) {
        0
    } else if i <= 1 {
        1
    } else if i <= 2 && (j_events < v.events@.len()) {
        2
    } else {
        3
    }
}

/// What the decoder's state says after the members before `i` have been
/// dealt with.
pub open spec fn settled_queue_configuration(v: QueueConfiguration, i: int, id_s: Option<Vec<u8>>, queue_arn_s: Option<Vec<u8>>, events_s: Seq<Event>) -> bool {
    &&& (0 < i ==> opt_view(id_s) == opt_view(v.id))
    &&& (0 >= i ==> id_s is None)
    &&& (1 < i ==> (match queue_arn_s { Option::Some(x) => x@ == v.queue_arn@, Option::None => false }))
    &&& (1 >= i ==> queue_arn_s is None)
    &&& (2 < i ==> events_s.len() == v.events@.len())
    &&& (2 == i ==> events_s.len() <= v.events@.len())
    &&& (2 > i ==> events_s.len() == 0)
    &&& (forall|t: int| 0 <= t < events_s.len() ==> t < v.events@.len() && (#[trigger] events_s[t]).same_as(&v.events@[t]))
}

proof fn lemma_queue_configuration_names()
    ensures
        n_id().len() >= 1,
        forall|ii: int| 0 <= ii < n_id().len() ==> is_name_byte(#[trigger] n_id()[ii]),
        n_queue().len() >= 1,
        forall|ii: int| 0 <= ii < n_queue().len() ==> is_name_byte(#[trigger] n_queue()[ii]),
        n_event().len() >= 1,
        forall|ii: int| 0 <= ii < n_event().len() ==> is_name_byte(#[trigger] n_event()[ii]),
        n_id() != n_queue(),
        n_id() != n_event(),
        n_queue() != n_event(),
{
    assert(n_id().len() != n_queue().len());
    assert(n_id().len() != n_event().len());
    assert(n_queue()[0] == 0x51 && n_event()[0] == 0x45);
}

proof fn lemma_queue_configuration_walk(v: QueueConfiguration, i: int, j_events: int)
    requires
        0 <= i <= 3,
        0 <= j_events <= v.events@.len(),
    ensures
        ({
            let p = next_member_queue_configuration(v, i, j_events);
            &&& i <= p <= 3
            &&& suffix_queue_configuration(v, i, j_events) == suffix_queue_configuration(v, p, j_events)
            &&& (i <= 0 && 0 < p ==> v.id is None)
            &&& (i <= 1 ==> p <= 1)
            &&& (i <= 2 && 2 < p ==> j_events >= v.events@.len())
            &&& (p == 0 ==> (v.id is Some))
            &&& (p == 2 ==> (j_events < v.events@.len()))
        }),
    decreases 3 - i,
{
    if i < 3 {
        if i == 0 {
            if !(v.id is Some) {
                assert(suffix_queue_configuration(v, 0, j_events) =~= suffix_queue_configuration(v, 1, j_events));
                lemma_queue_configuration_walk(v, 1, j_events);
            }
        } else if i == 1 {
            // this member is always pending here
        } else if i == 2 {
            if !(j_events < v.events@.len()) {
                assert(v.events@.skip(j_events) =~= Seq::<Event>::empty());
                assert(flat_list_spec(n_event(), v.events@.skip(j_events)) == Seq::<u8>::empty());
                assert(suffix_queue_configuration(v, 2, j_events) =~= suffix_queue_configuration(v, 3, j_events));
                lemma_queue_configuration_walk(v, 3, j_events);
            }
        }
    }
}

#[verifier::rlimit(100)]
proof fn lemma_queue_configuration_member_0(v: QueueConfiguration, rest: Seq<u8>, j_events: int, cur: Seq<u8>)
    requires
        content_end(rest),
        0 <= j_events <= v.events@.len(),
        v.id is Some,
        cur == suffix_queue_configuration(v, 0, j_events) + rest,
    ensures
        ({
                let s1 = cur.skip(open_tag(n_id()).len() as int);
                let m = escape_seq(v.id->Some_0@).len() as int;
                &&& v.id is Some
                &&& child_scan(cur) == Some((Some((n_id(), false)), open_tag(n_id()).len() as nat))
                &&& until_count(s1, LT) == m
                &&& unescape_seq(s1.take(m)) == Some(v.id->Some_0@)
                &&& close_scan(s1.skip(m), n_id()) == Some((n_id().len() + 3) as nat)
                &&& s1.skip(m).skip(n_id().len() as int + 3) == suffix_queue_configuration(v, 1, j_events) + rest
            }),
{
    lemma_queue_configuration_names();
    assert(suffix_queue_configuration(v, 0, j_events) =~= text_el(n_id(), v.id->Some_0@) + suffix_queue_configuration(v, 1, j_events));
    assert(cur =~= text_el(n_id(), v.id->Some_0@) + (suffix_queue_configuration(v, 1, j_events) + rest));
    lemma_text_member_shape(n_id(), v.id->Some_0@, suffix_queue_configuration(v, 1, j_events) + rest);
}

#[verifier::rlimit(100)]
proof fn lemma_queue_configuration_member_1(v: QueueConfiguration, rest: Seq<u8>, j_events: int, cur: Seq<u8>)
    requires
        content_end(rest),
        0 <= j_events <= v.events@.len(),
        true,
        cur == suffix_queue_configuration(v, 1, j_events) + rest,
    ensures
        ({
                let s1 = cur.skip(open_tag(n_queue()).len() as int);
                let m = escape_seq(v.queue_arn@).len() as int;
                &&& true
                &&& child_scan(cur) == Some((Some((n_queue(), false)), open_tag(n_queue()).len() as nat))
                &&& until_count(s1, LT) == m
                &&& unescape_seq(s1.take(m)) == Some(v.queue_arn@)
                &&& close_scan(s1.skip(m), n_queue()) == Some((n_queue().len() + 3) as nat)
                &&& s1.skip(m).skip(n_queue().len() as int + 3) == suffix_queue_configuration(v, 2, j_events) + rest
            }),
{
    lemma_queue_configuration_names();
    assert(suffix_queue_configuration(v, 1, j_events) =~= text_el(n_queue(), v.queue_arn@) + suffix_queue_configuration(v, 2, j_events));
    assert(cur =~= text_el(n_queue(), v.queue_arn@) + (suffix_queue_configuration(v, 2, j_events) + rest));
    lemma_text_member_shape(n_queue(), v.queue_arn@, suffix_queue_configuration(v, 2, j_events) + rest);
}

#[verifier::rlimit(100)]
proof fn lemma_queue_configuration_member_2(v: QueueConfiguration, rest: Seq<u8>, j_events: int, cur: Seq<u8>)
    requires
        content_end(rest),
        0 <= j_events <= v.events@.len(),
        j_events < v.events@.len(),
        cur == suffix_queue_configuration(v, 2, j_events) + rest,
    ensures
        ({
                let l = v.events@;
                let s1 = cur.skip(open_tag(n_event()).len() as int);
                let m = escape_seq(l[j_events].wire_spec()).len() as int;
                &&& true
                &&& j_events < l.len()
                &&& child_scan(cur) == Some((Some((n_event(), false)), open_tag(n_event()).len() as nat))
                &&& until_count(s1, LT) == m
                &&& unescape_seq(s1.take(m)) == Some(l[j_events].wire_spec())
                &&& close_scan(s1.skip(m), n_event()) == Some((n_event().len() + 3) as nat)
                &&& s1.skip(m).skip(n_event().len() as int + 3) == suffix_queue_configuration(v, 2, j_events + 1) + rest
            }),
{
    lemma_queue_configuration_names();
    let l = v.events@;
    assert(l.skip(j_events)[0] == l[j_events]);
    assert(l.skip(j_events).skip(1) =~= l.skip(j_events + 1));
    assert(flat_list_spec(n_event(), l.skip(j_events)) =~= element(n_event(), l[j_events].content_spec()) + flat_list_spec(n_event(), l.skip(j_events + 1)));
    let after0 = flat_list_spec(n_event(), l.skip(j_events + 1)) + (suffix_queue_configuration(v, 3, j_events) + rest);
    assert(suffix_queue_configuration(v, 2, j_events + 1) + rest =~= after0);
    assert(cur =~= text_el(n_event(), l[j_events].wire_spec()) + after0);
    lemma_text_member_shape(n_event(), l[j_events].wire_spec(), after0);
    assert(cur.skip(open_tag(n_event()).len() as int).skip(escape_seq(l[j_events].wire_spec()).len() as int).skip(n_event().len() as int + 3) == suffix_queue_configuration(v, 2, j_events + 1) + rest);
}

#[verifier::rlimit(100)]
proof fn lemma_queue_configuration_at(v: QueueConfiguration, rest: Seq<u8>, i: int, j_events: int, cur: Seq<u8>)
    requires
        0 <= i <= 3,
        content_end(rest),
        0 <= j_events <= v.events@.len(),
        cur == suffix_queue_configuration(v, i, j_events) + rest,
    ensures
        ({
            let p = next_member_queue_configuration(v, i, j_events);
            &&& i <= p <= 3
            &&& (i <= 0 && 0 < p ==> v.id is None)
            &&& (i <= 1 ==> p <= 1)
            &&& (i <= 2 && 2 < p ==> j_events >= v.events@.len())
            &&& (p == 0 ==> ({
                let s1 = cur.skip(open_tag(n_id()).len() as int);
                let m = escape_seq(v.id->Some_0@).len() as int;
                &&& v.id is Some
                &&& child_scan(cur) == Some((Some((n_id(), false)), open_tag(n_id()).len() as nat))
                &&& until_count(s1, LT) == m
                &&& unescape_seq(s1.take(m)) == Some(v.id->Some_0@)
                &&& close_scan(s1.skip(m), n_id()) == Some((n_id().len() + 3) as nat)
                &&& s1.skip(m).skip(n_id().len() as int + 3) == suffix_queue_configuration(v, 1, j_events) + rest
            }))
            &&& (p == 1 ==> ({
                let s1 = cur.skip(open_tag(n_queue()).len() as int);
                let m = escape_seq(v.queue_arn@).len() as int;
                &&& true
                &&& child_scan(cur) == Some((Some((n_queue(), false)), open_tag(n_queue()).len() as nat))
                &&& until_count(s1, LT) == m
                &&& unescape_seq(s1.take(m)) == Some(v.queue_arn@)
                &&& close_scan(s1.skip(m), n_queue()) == Some((n_queue().len() + 3) as nat)
                &&& s1.skip(m).skip(n_queue().len() as int + 3) == suffix_queue_configuration(v, 2, j_events) + rest
            }))
            &&& (p == 2 ==> ({
                let l = v.events@;
                let s1 = cur.skip(open_tag(n_event()).len() as int);
                let m = escape_seq(l[j_events].wire_spec()).len() as int;
                &&& true
                &&& j_events < l.len()
                &&& child_scan(cur) == Some((Some((n_event(), false)), open_tag(n_event()).len() as nat))
                &&& until_count(s1, LT) == m
                &&& unescape_seq(s1.take(m)) == Some(l[j_events].wire_spec())
                &&& close_scan(s1.skip(m), n_event()) == Some((n_event().len() + 3) as nat)
                &&& s1.skip(m).skip(n_event().len() as int + 3) == suffix_queue_configuration(v, 2, j_events + 1) + rest
            }))
            &&& (p == 3 ==> cur == rest && child_scan(cur) == Some((Option::<(Seq<u8>, bool)>::None, 0 as nat)) && rest.skip(0) == rest)
        }),
{
    lemma_queue_configuration_names();
    lemma_queue_configuration_walk(v, i, j_events);
    let p = next_member_queue_configuration(v, i, j_events);
    assert(cur == suffix_queue_configuration(v, p, j_events) + rest);
    if p == 3 {
        assert(suffix_queue_configuration(v, 3, j_events) + rest =~= rest);
        lemma_content_end_scan(rest);
    } else if p == 0 {
        lemma_queue_configuration_member_0(v, rest, j_events, cur);
    } else if p == 1 {
        lemma_queue_configuration_member_1(v, rest, j_events, cur);
    } else if p == 2 {
        lemma_queue_configuration_member_2(v, rest, j_events, cur);
    }
}


impl QueueConfiguration {
    /// Decode this type's element content: members in any order, unknown
    /// members skipped, required members demanded.
    ///
    /// Round-trip: the exact content encoding of any structurally valid
    /// value, followed by the end of the enclosing content, decodes back to
    /// a value with the same members, consuming exactly the encoding.
    #[verifier::rlimit(100)]
    pub fn read_content<'a>(d: &mut Deserializer<'a>) -> (r: DeResult<QueueConfiguration>)
        requires
            old(d).wf(),
        ensures
            final(d).wf(),
            final(d).remaining().len() <= old(d).remaining().len(),
            forall|v: QueueConfiguration, rest: Seq<u8>|
                (v.valid() && old(d).remaining() == #[trigger] (v.content_spec() + rest)
                    && content_end(rest)) ==> (r matches Ok(res) && v.same_model(&res)
                    && final(d).remaining() == rest),
    {
        let ghost orig = d.remaining();
        let mut id_v: Option<Vec<u8>> = Option::None;
        let mut queue_arn_v: Option<Vec<u8>> = Option::None;
        let mut events_items: Vec<Event> = Vec::new();
        proof {
            assert forall|v: QueueConfiguration, rest: Seq<u8>|
                (v.valid() && orig == #[trigger] (v.content_spec() + rest) && content_end(rest)) implies exists|i: int|
                0 <= i <= 3 && orig == (#[trigger] suffix_queue_configuration(v, i, events_items@.len() as int)) + rest
                    && settled_queue_configuration(v, i, id_v, queue_arn_v, events_items@) by {
                    assert(v.events@.skip(0) =~= v.events@);
                    assert(v.content_spec() =~= suffix_queue_configuration(v, 0, events_items@.len() as int));
                    assert(0 <= 0 <= 3 && orig == suffix_queue_configuration(v, 0, events_items@.len() as int) + rest && settled_queue_configuration(v, 0, id_v, queue_arn_v, events_items@));
            }
        }
        loop
            invariant
                d.wf(),
                d.remaining().len() <= old(d).remaining().len(),
                orig == old(d).remaining(),
                forall|v: QueueConfiguration, rest: Seq<u8>|
                    (v.valid() && orig == #[trigger] (v.content_spec() + rest) && content_end(
                        rest,
                    )) ==> exists|i: int|
                        0 <= i <= 3 && d.remaining() == (#[trigger] suffix_queue_configuration(v, i, events_items@.len() as int))
                            + rest && settled_queue_configuration(v, i, id_v, queue_arn_v, events_items@),
            decreases d.remaining().len(),
        {
            let ghost cur = d.remaining();
            let ghost g_id = id_v;
            let ghost g_queue_arn = queue_arn_v;
            let ghost g_events = events_items@;
            let c_opt = match d.read_child_open() {
                Result::Ok(x) => x,
                Result::Err(e) => {
                    proof {
                        assert forall|v: QueueConfiguration, rest: Seq<u8>|
                    (v.valid() && orig == #[trigger] (v.content_spec() + rest) && content_end(rest)) implies false by {
                        let i0 = choose|i: int| 0 <= i <= 3 && cur == (#[trigger] suffix_queue_configuration(v, i, g_events.len() as int)) + rest && settled_queue_configuration(v, i, g_id, g_queue_arn, g_events);
                        assert(0 <= g_events.len() <= v.events@.len());
                        lemma_queue_configuration_names();
                        lemma_queue_configuration_at(v, rest, i0, g_events.len() as int, cur);
                }
                    }
                    return Err(e);
                },
            };
            match c_opt {
                Option::Some(c) => {
                    if eq_bytes(c.name.as_slice(), t_id()) {
                        let t = match read_text_member(d, &c) {
                            Result::Ok(t) => t,
                            Result::Err(e) => {
                                proof {
                                    assert forall|v: QueueConfiguration, rest: Seq<u8>|
                    (v.valid() && orig == #[trigger] (v.content_spec() + rest) && content_end(rest)) implies false by {
                        let i0 = choose|i: int| 0 <= i <= 3 && cur == (#[trigger] suffix_queue_configuration(v, i, g_events.len() as int)) + rest && settled_queue_configuration(v, i, g_id, g_queue_arn, g_events);
                        assert(0 <= g_events.len() <= v.events@.len());
                        lemma_queue_configuration_names();
                        lemma_queue_configuration_at(v, rest, i0, g_events.len() as int, cur);
                }
                                }
                                return Err(e);
                            },
                        };
                        id_v = Option::Some(t);
                        proof {
                            assert forall|v: QueueConfiguration, rest: Seq<u8>|
                    (v.valid() && orig == #[trigger] (v.content_spec() + rest) && content_end(rest)) implies exists|i: int|
                    0 <= i <= 3 && d.remaining() == (#[trigger] suffix_queue_configuration(v, i, events_items@.len() as int)) + rest
                        && settled_queue_configuration(v, i, id_v, queue_arn_v, events_items@) by {
                        let i0 = choose|i: int| 0 <= i <= 3 && cur == (#[trigger] suffix_queue_configuration(v, i, g_events.len() as int)) + rest && settled_queue_configuration(v, i, g_id, g_queue_arn, g_events);
                        assert(0 <= g_events.len() <= v.events@.len());
                        lemma_queue_configuration_names();
                        lemma_queue_configuration_at(v, rest, i0, g_events.len() as int, cur);
                        assert(next_member_queue_configuration(v, i0, g_events.len() as int) == 0);
                        assert(0 <= 1 <= 3 && d.remaining() == suffix_queue_configuration(v, 1, events_items@.len() as int) + rest && settled_queue_configuration(v, 1, id_v, queue_arn_v, events_items@));
                }
                        }
                    } else if eq_bytes(c.name.as_slice(), t_queue()) {
                        let t = match read_text_member(d, &c) {
                            Result::Ok(t) => t,
                            Result::Err(e) => {
                                proof {
                                    assert forall|v: QueueConfiguration, rest: Seq<u8>|
                    (v.valid() && orig == #[trigger] (v.content_spec() + rest) && content_end(rest)) implies false by {
                        let i0 = choose|i: int| 0 <= i <= 3 && cur == (#[trigger] suffix_queue_configuration(v, i, g_events.len() as int)) + rest && settled_queue_configuration(v, i, g_id, g_queue_arn, g_events);
                        assert(0 <= g_events.len() <= v.events@.len());
                        lemma_queue_configuration_names();
                        lemma_queue_configuration_at(v, rest, i0, g_events.len() as int, cur);
                }
                                }
                                return Err(e);
                            },
                        };
                        queue_arn_v = Option::Some(t);
                        proof {
                            assert forall|v: QueueConfiguration, rest: Seq<u8>|
                    (v.valid() && orig == #[trigger] (v.content_spec() + rest) && content_end(rest)) implies exists|i: int|
                    0 <= i <= 3 && d.remaining() == (#[trigger] suffix_queue_configuration(v, i, events_items@.len() as int)) + rest
                        && settled_queue_configuration(v, i, id_v, queue_arn_v, events_items@) by {
                        let i0 = choose|i: int| 0 <= i <= 3 && cur == (#[trigger] suffix_queue_configuration(v, i, g_events.len() as int)) + rest && settled_queue_configuration(v, i, g_id, g_queue_arn, g_events);
                        assert(0 <= g_events.len() <= v.events@.len());
                        lemma_queue_configuration_names();
                        lemma_queue_configuration_at(v, rest, i0, g_events.len() as int, cur);
                        assert(next_member_queue_configuration(v, i0, g_events.len() as int) == 1);
                        assert(0 <= 2 <= 3 && d.remaining() == suffix_queue_configuration(v, 2, events_items@.len() as int) + rest && settled_queue_configuration(v, 2, id_v, queue_arn_v, events_items@));
                }
                        }
                    } else if eq_bytes(c.name.as_slice(), t_event()) {
                        let t = match read_text_member(d, &c) {
                            Result::Ok(t) => t,
                            Result::Err(e) => {
                                proof {
                                    assert forall|v: QueueConfiguration, rest: Seq<u8>|
                    (v.valid() && orig == #[trigger] (v.content_spec() + rest) && content_end(rest)) implies false by {
                        let i0 = choose|i: int| 0 <= i <= 3 && cur == (#[trigger] suffix_queue_configuration(v, i, g_events.len() as int)) + rest && settled_queue_configuration(v, i, g_id, g_queue_arn, g_events);
                        assert(0 <= g_events.len() <= v.events@.len());
                        lemma_queue_configuration_names();
                        lemma_queue_configuration_at(v, rest, i0, g_events.len() as int, cur);
                }
                                }
                                return Err(e);
                            },
                        };
                        events_items.push(Event::from_bytes(t.as_slice()));
                        proof {
                            assert forall|v: QueueConfiguration, rest: Seq<u8>|
                    (v.valid() && orig == #[trigger] (v.content_spec() + rest) && content_end(rest)) implies exists|i: int|
                    0 <= i <= 3 && d.remaining() == (#[trigger] suffix_queue_configuration(v, i, events_items@.len() as int)) + rest
                        && settled_queue_configuration(v, i, id_v, queue_arn_v, events_items@) by {
                        let i0 = choose|i: int| 0 <= i <= 3 && cur == (#[trigger] suffix_queue_configuration(v, i, g_events.len() as int)) + rest && settled_queue_configuration(v, i, g_id, g_queue_arn, g_events);
                        assert(0 <= g_events.len() <= v.events@.len());
                        lemma_queue_configuration_names();
                        lemma_queue_configuration_at(v, rest, i0, g_events.len() as int, cur);
                        if !(v.events@[g_events.len() as int] is Extension) {
                            lemma_event_known(v.events@[g_events.len() as int]);
                        }
                        assert(next_member_queue_configuration(v, i0, g_events.len() as int) == 2);
                        assert(0 <= 2 <= 3 && d.remaining() == suffix_queue_configuration(v, 2, events_items@.len() as int) + rest && settled_queue_configuration(v, 2, id_v, queue_arn_v, events_items@));
                }
                        }
                    } else {
                        match skip_member(d, &c) {
                            Result::Ok(u) => {},
                            Result::Err(e) => {
                                proof {
                                    assert forall|v: QueueConfiguration, rest: Seq<u8>|
                    (v.valid() && orig == #[trigger] (v.content_spec() + rest) && content_end(rest)) implies false by {
                        let i0 = choose|i: int| 0 <= i <= 3 && cur == (#[trigger] suffix_queue_configuration(v, i, g_events.len() as int)) + rest && settled_queue_configuration(v, i, g_id, g_queue_arn, g_events);
                        assert(0 <= g_events.len() <= v.events@.len());
                        lemma_queue_configuration_names();
                        lemma_queue_configuration_at(v, rest, i0, g_events.len() as int, cur);
                }
                                }
                                return Err(e);
                            },
                        }
                        proof {
                            assert forall|v: QueueConfiguration, rest: Seq<u8>|
                    (v.valid() && orig == #[trigger] (v.content_spec() + rest) && content_end(rest)) implies false by {
                        let i0 = choose|i: int| 0 <= i <= 3 && cur == (#[trigger] suffix_queue_configuration(v, i, g_events.len() as int)) + rest && settled_queue_configuration(v, i, g_id, g_queue_arn, g_events);
                        assert(0 <= g_events.len() <= v.events@.len());
                        lemma_queue_configuration_names();
                        lemma_queue_configuration_at(v, rest, i0, g_events.len() as int, cur);
                }
                        }
                    }
                },
                Option::None => {
                    let id = id_v;
                    let queue_arn = match queue_arn_v {
                        Option::Some(x) => x,
                        Option::None => {
                            proof {
                                assert forall|v: QueueConfiguration, rest: Seq<u8>|
                    (v.valid() && orig == #[trigger] (v.content_spec() + rest) && content_end(rest)) implies false by {
                        let i0 = choose|i: int| 0 <= i <= 3 && cur == (#[trigger] suffix_queue_configuration(v, i, g_events.len() as int)) + rest && settled_queue_configuration(v, i, g_id, g_queue_arn, g_events);
                        assert(0 <= g_events.len() <= v.events@.len());
                        lemma_queue_configuration_names();
                        lemma_queue_configuration_at(v, rest, i0, g_events.len() as int, cur);
                }
                            }
                            return Err(DeError::MissingField);
                        },
                    };
                    if events_items.len() == 0 {
                        proof {
                            assert forall|v: QueueConfiguration, rest: Seq<u8>|
                    (v.valid() && orig == #[trigger] (v.content_spec() + rest) && content_end(rest)) implies false by {
                        let i0 = choose|i: int| 0 <= i <= 3 && cur == (#[trigger] suffix_queue_configuration(v, i, g_events.len() as int)) + rest && settled_queue_configuration(v, i, g_id, g_queue_arn, g_events);
                        assert(0 <= g_events.len() <= v.events@.len());
                        lemma_queue_configuration_names();
                        lemma_queue_configuration_at(v, rest, i0, g_events.len() as int, cur);
                }
                        }
                        return Err(DeError::MissingField);
                    }
                    let events = events_items;
                    let res = QueueConfiguration { id, queue_arn, events };
                    proof {
                        assert forall|v: QueueConfiguration, rest: Seq<u8>|
                        (v.valid() && orig == #[trigger] (v.content_spec() + rest) && content_end(rest)) implies (v.same_model(&res) && d.remaining() == rest) by {
                            let i0 = choose|i: int| 0 <= i <= 3 && cur == (#[trigger] suffix_queue_configuration(v, i, g_events.len() as int)) + rest && settled_queue_configuration(v, i, g_id, g_queue_arn, g_events);
                            assert(0 <= g_events.len() <= v.events@.len());
                            lemma_queue_configuration_names();
                            lemma_queue_configuration_at(v, rest, i0, g_events.len() as int, cur);
                            assert(g_events.len() == v.events@.len());
                    }
                    }
                    return Ok(res);
                },
            }
        }
    }
}

impl DeserializeContent for QueueConfiguration {
    fn deserialize_content<'a>(d: &mut Deserializer<'a>) -> (r: DeResult<Self>) {
        QueueConfiguration::read_content(d)
    }
}

/// A notification target publishing to a topic.
#[derive(Debug, Clone, PartialEq, Eq)]
pub struct TopicConfiguration {
    pub id: Option<Vec<u8>>,
    pub topic_arn: Vec<u8>,
    pub events: Vec<Event>,
}

impl SerializeContent for TopicConfiguration {
    open spec fn content_spec(&self) -> Seq<u8> {
        opt_text_el(n_id(), opt_view(self.id))
            + text_el(n_topic(), self.topic_arn@)
            + flat_list_spec(n_event(), self.events@)
    }

    fn serialize_content(&self, s: &mut Serializer) {
        let ghost orig = s@;
        write_opt_text(s, t_id(), &self.id);
        s.text_element(t_topic(), self.topic_arn.as_slice());
        serialize_flat_list(s, t_event(), &self.events);
        proof {
            assert(s@ =~= orig + self.content_spec());
        }
    }
}

impl TopicConfiguration {
    /// Structurally valid: extension values hold only unrecognized text, and
    /// a present flattened list is non-empty (an empty one is
    /// indistinguishable on the wire from an absent member).
    pub open spec fn valid(&self) -> bool {
        &&& self.events@.len() > 0 && (forall|t: int| 0 <= t < self.events@.len() ==> (#[trigger] self.events@[t]).wf())
    }

    /// Member-wise agreement: scalar members equal as values, text members
    /// equal as byte strings, enumerated members equal as wire strings on the
    /// same side of the known/extension split, nested members agreeing
    /// member-wise.
    pub open spec fn same_model(&self, other: &TopicConfiguration) -> bool {
        &&& opt_view(self.id) == opt_view(other.id)
        &&& self.topic_arn@ == other.topic_arn@
        &&& self.events@.len() == other.events@.len() && (forall|t: int| 0 <= t < self.events@.len() ==> (#[trigger] self.events@[t]).same_as(&other.events@[t]))
    }
}

/// The content encoding of the members from index `i` on.
pub open spec fn suffix_topic_configuration(v: TopicConfiguration, i: int, j_events: int) -> Seq<u8> {
    if i <= 0 {
        opt_text_el(n_id(), opt_view(v.id)) + (text_el(n_topic(), v.topic_arn@) + (flat_list_spec(n_event(), v.events@.skip(j_events)) + (Seq::empty())))
    } else if i <= 1 {
        text_el(n_topic(), v.topic_arn@) + (flat_list_spec(n_event(), v.events@.skip(j_events)) + (Seq::empty()))
    } else if i <= 2 {
        flat_list_spec(n_event(), v.events@.skip(j_events)) + (Seq::empty())
    } else {
        Seq::empty()
    }
}

/// The first member at or after `i` that the next child element can belong
/// to.
pub open spec fn next_member_topic_configuration(v: TopicConfiguration, i: int, j_events: int) -> int {
    if i <= 0 && (v.id is Some) {
        0
    } else if i <= 1 {
        1
    } else if i <= 2 && (j_events < v.events@.len()) {
        2
    } else {
        3
    }
}

/// What the decoder's state says after the members before `i` have been
/// dealt with.
pub open spec fn settled_topic_configuration(v: TopicConfiguration, i: int, id_s: Option<Vec<u8>>, topic_arn_s: Option<Vec<u8>>, events_s: Seq<Event>) -> bool {
    &&& (0 < i ==> opt_view(id_s) == opt_view(v.id))
    &&& (0 >= i ==> id_s is None)
    &&& (1 < i ==> (match topic_arn_s { Option::Some(x) => x@ == v.topic_arn@, Option::None => false }))
    &&& (1 >= i ==> topic_arn_s is None)
    &&& (2 < i ==> events_s.len() == v.events@.len())
    &&& (2 == i ==> events_s.len() <= v.events@.len())
    &&& (2 > i ==> events_s.len() == 0)
    &&& (forall|t: int| 0 <= t < events_s.len() ==> t < v.events@.len() && (#[trigger] events_s[t]).same_as(&v.events@[t]))
}

proof fn lemma_topic_configuration_names()
    ensures
        n_id().len() >= 1,
        forall|ii: int| 0 <= ii < n_id().len() ==> is_name_byte(#[trigger] n_id()[ii]),
        n_topic().len() >= 1,
        forall|ii: int| 0 <= ii < n_topic().len() ==> is_name_byte(#[trigger] n_topic()[ii]),
        n_event().len() >= 1,
        forall|ii: int| 0 <= ii < n_event().len() ==> is_name_byte(#[trigger] n_event()[ii]),
        n_id() != n_topic(),
        n_id() != n_event(),
        n_topic() != n_event(),
{
    assert(n_id().len() != n_topic().len());
    assert(n_id().len() != n_event().len());
    assert(n_topic()[0] == 0x54 && n_event()[0] == 0x45);
}

proof fn lemma_topic_configuration_walk(v: TopicConfiguration, i: int, j_events: int)
    requires
        0 <= i <= 3,
        0 <= j_events <= v.events@.len(),
    ensures
        ({
            let p = next_member_topic_configuration(v, i, j_events);
            &&& i <= p <= 3
            &&& suffix_topic_configuration(v, i, j_events) == suffix_topic_configuration(v, p, j_events)
            &&& (i <= 0 && 0 < p ==> v.id is None)
            &&& (i <= 1 ==> p <= 1)
            &&& (i <= 2 && 2 < p ==> j_events >= v.events@.len())
            &&& (p == 0 ==> (v.id is Some))
            &&& (p == 2 ==> (j_events < v.events@.len()))
        }),
    decreases 3 - i,
{
    if i < 3 {
        if i == 0 {
            if !(v.id is Some) {
                assert(suffix_topic_configuration(v, 0, j_events) =~= suffix_topic_configuration(v, 1, j_events));
                lemma_topic_configuration_walk(v, 1, j_events);
            }
        } else if i == 1 {
            // this member is always pending here
        } else if i == 2 {
            if !(j_events < v.events@.len()) {
                assert(v.events@.skip(j_events) =~= Seq::<Event>::empty());
                assert(flat_list_spec(n_event(), v.events@.skip(j_events)) == Seq::<u8>::empty());
                assert(suffix_topic_configuration(v, 2, j_events) =~= suffix_topic_configuration(v, 3, j_events));
                lemma_topic_configuration_walk(v, 3, j_events);
            }
        }
    }
}

#[verifier::rlimit(100)]
proof fn lemma_topic_configuration_member_0(v: TopicConfiguration, rest: Seq<u8>, j_events: int, cur: Seq<u8>)
    requires
        content_end(rest),
        0 <= j_events <= v.events@.len(),
        v.id is Some,
        cur == suffix_topic_configuration(v, 0, j_events) + rest,
    ensures
        ({
                let s1 = cur.skip(open_tag(n_id()).len() as int);
                let m = escape_seq(v.id->Some_0@).len() as int;
                &&& v.id is Some
                &&& child_scan(cur) == Some((Some((n_id(), false)), open_tag(n_id()).len() as nat))
                &&& until_count(s1, LT) == m
                &&& unescape_seq(s1.take(m)) == Some(v.id->Some_0@)
                &&& close_scan(s1.skip(m), n_id()) == Some((n_id().len() + 3) as nat)
                &&& s1.skip(m).skip(n_id().len() as int + 3) == suffix_topic_configuration(v, 1, j_events) + rest
            }),
{
    lemma_topic_configuration_names();
    assert(suffix_topic_configuration(v, 0, j_events) =~= text_el(n_id(), v.id->Some_0@) + suffix_topic_configuration(v, 1, j_events));
    assert(cur =~= text_el(n_id(), v.id->Some_0@) + (suffix_topic_configuration(v, 1, j_events) + rest));
    lemma_text_member_shape(n_id(), v.id->Some_0@, suffix_topic_configuration(v, 1, j_events) + rest);
}

#[verifier::rlimit(100)]
proof fn lemma_topic_configuration_member_1(v: TopicConfiguration, rest: Seq<u8>, j_events: int, cur: Seq<u8>)
    requires
        content_end(rest),
        0 <= j_events <= v.events@.len(),
        true,
        cur == suffix_topic_configuration(v, 1, j_events) + rest,
    ensures
        ({
                let s1 = cur.skip(open_tag(n_topic()).len() as int);
                let m = escape_seq(v.topic_arn@).len() as int;
                &&& true
                &&& child_scan(cur) == Some((Some((n_topic(), false)), open_tag(n_topic()).len() as nat))
                &&& until_count(s1, LT) == m
                &&& unescape_seq(s1.take(m)) == Some(v.topic_arn@)
                &&& close_scan(s1.skip(m), n_topic()) == Some((n_topic().len() + 3) as nat)
                &&& s1.skip(m).skip(n_topic().len() as int + 3) == suffix_topic_configuration(v, 2, j_events) + rest
            }),
{
    lemma_topic_configuration_names();
    assert(suffix_topic_configuration(v, 1, j_events) =~= text_el(n_topic(), v.topic_arn@) + suffix_topic_configuration(v, 2, j_events));
    assert(cur =~= text_el(n_topic(), v.topic_arn@) + (suffix_topic_configuration(v, 2, j_events) + rest));
    lemma_text_member_shape(n_topic(), v.topic_arn@, suffix_topic_configuration(v, 2, j_events) + rest);
}

#[verifier::rlimit(100)]
proof fn lemma_topic_configuration_member_2(v: TopicConfiguration, rest: Seq<u8>, j_events: int, cur: Seq<u8>)
    requires
        content_end(rest),
        0 <= j_events <= v.events@.len(),
        j_events < v.events@.len(),
        cur == suffix_topic_configuration(v, 2, j_events) + rest,
    ensures
        ({
                let l = v.events@;
                let s1 = cur.skip(open_tag(n_event()).len() as int);
                let m = escape_seq(l[j_events].wire_spec()).len() as int;
                &&& true
                &&& j_events < l.len()
                &&& child_scan(cur) == Some((Some((n_event(), false)), open_tag(n_event()).len() as nat))
                &&& until_count(s1, LT) == m
                &&& unescape_seq(s1.take(m)) == Some(l[j_events].wire_spec())
                &&& close_scan(s1.skip(m), n_event()) == Some((n_event().len() + 3) as nat)
                &&& s1.skip(m).skip(n_event().len() as int + 3) == suffix_topic_configuration(v, 2, j_events + 1) + rest
            }),
{
    lemma_topic_configuration_names();
    let l = v.events@;
    assert(l.skip(j_events)[0] == l[j_events]);
    assert(l.skip(j_events).skip(1) =~= l.skip(j_events + 1));
    assert(flat_list_spec(n_event(), l.skip(j_events)) =~= element(n_event(), l[j_events].content_spec()) + flat_list_spec(n_event(), l.skip(j_events + 1)));
    let after0 = flat_list_spec(n_event(), l.skip(j_events + 1)) + (suffix_topic_configuration(v, 3, j_events) + rest);
    assert(suffix_topic_configuration(v, 2, j_events + 1) + rest =~= after0);
    assert(cur =~= text_el(n_event(), l[j_events].wire_spec()) + after0);
    lemma_text_member_shape(n_event(), l[j_events].wire_spec(), after0);
    assert(cur.skip(open_tag(n_event()).len() as int).skip(escape_seq(l[j_events].wire_spec()).len() as int).skip(n_event().len() as int + 3) == suffix_topic_configuration(v, 2, j_events + 1) + rest);
}

#[verifier::rlimit(100)]
proof fn lemma_topic_configuration_at(v: TopicConfiguration, rest: Seq<u8>, i: int, j_events: int, cur: Seq<u8>)
    requires
        0 <= i <= 3,
        content_end(rest),
        0 <= j_events <= v.events@.len(),
        cur == suffix_topic_configuration(v, i, j_events) + rest,
    ensures
        ({
            let p = next_member_topic_configuration(v, i, j_events);
            &&& i <= p <= 3
            &&& (i <= 0 && 0 < p ==> v.id is None)
            &&& (i <= 1 ==> p <= 1)
            &&& (i <= 2 && 2 < p ==> j_events >= v.events@.len())
            &&& (p == 0 ==> ({
                let s1 = cur.skip(open_tag(n_id()).len() as int);
                let m = escape_seq(v.id->Some_0@).len() as int;
                &&& v.id is Some
                &&& child_scan(cur) == Some((Some((n_id(), false)), open_tag(n_id()).len() as nat))
                &&& until_count(s1, LT) == m
                &&& unescape_seq(s1.take(m)) == Some(v.id->Some_0@)
                &&& close_scan(s1.skip(m), n_id()) == Some((n_id().len() + 3) as nat)
                &&& s1.skip(m).skip(n_id().len() as int + 3) == suffix_topic_configuration(v, 1, j_events) + rest
            }))
            &&& (p == 1 ==> ({
                let s1 = cur.skip(open_tag(n_topic()).len() as int);
                let m = escape_seq(v.topic_arn@).len() as int;
                &&& true
                &&& child_scan(cur) == Some((Some((n_topic(), false)), open_tag(n_topic()).len() as nat))
                &&& until_count(s1, LT) == m
                &&& unescape_seq(s1.take(m)) == Some(v.topic_arn@)
                &&& close_scan(s1.skip(m), n_topic()) == Some((n_topic().len() + 3) as nat)
                &&& s1.skip(m).skip(n_topic().len() as int + 3) == suffix_topic_configuration(v, 2, j_events) + rest
            }))
            &&& (p == 2 ==> ({
                let l = v.events@;
                let s1 = cur.skip(open_tag(n_event()).len() as int);
                let m = escape_seq(l[j_events].wire_spec()).len() as int;
                &&& true
                &&& j_events < l.len()
                &&& child_scan(cur) == Some((Some((n_event(), false)), open_tag(n_event()).len() as nat))
                &&& until_count(s1, LT) == m
                &&& unescape_seq(s1.take(m)) == Some(l[j_events].wire_spec())
                &&& close_scan(s1.skip(m), n_event()) == Some((n_event().len() + 3) as nat)
                &&& s1.skip(m).skip(n_event().len() as int + 3) == suffix_topic_configuration(v, 2, j_events + 1) + rest
            }))
            &&& (p == 3 ==> cur == rest && child_scan(cur) == Some((Option::<(Seq<u8>, bool)>::None, 0 as nat)) && rest.skip(0) == rest)
        }),
{
    lemma_topic_configuration_names();
    lemma_topic_configuration_walk(v, i, j_events);
    let p = next_member_topic_configuration(v, i, j_events);
    assert(cur == suffix_topic_configuration(v, p, j_events) + rest);
    if p == 3 {
        assert(suffix_topic_configuration(v, 3, j_events) + rest =~= rest);
        lemma_content_end_scan(rest);
    } else if p == 0 {
        lemma_topic_configuration_member_0(v, rest, j_events, cur);
    } else if p == 1 {
        lemma_topic_configuration_member_1(v, rest, j_events, cur);
    } else if p == 2 {
        lemma_topic_configuration_member_2(v, rest, j_events, cur);
    }
}


impl TopicConfiguration {
    /// Decode this type's element content: members in any order, unknown
    /// members skipped, required members demanded.
    ///
    /// Round-trip: the exact content encoding of any structurally valid
    /// value, followed by the end of the enclosing content, decodes back to
    /// a value with the same members, consuming exactly the encoding.
    #[verifier::rlimit(100)]
    pub fn read_content<'a>(d: &mut Deserializer<'a>) -> (r: DeResult<TopicConfiguration>)
        requires
            old(d).wf(),
        ensures
            final(d).wf(),
            final(d).remaining().len() <= old(d).remaining().len(),
            forall|v: TopicConfiguration, rest: Seq<u8>|
                (v.valid() && old(d).remaining() == #[trigger] (v.content_spec() + rest)
                    && content_end(rest)) ==> (r matches Ok(res) && v.same_model(&res)
                    && final(d).remaining() == rest),
    {
        let ghost orig = d.remaining();
        let mut id_v: Option<Vec<u8>> = Option::None;
        let mut topic_arn_v: Option<Vec<u8>> = Option::None;
        let mut events_items: Vec<Event> = Vec::new();
        proof {
            assert forall|v: TopicConfiguration, rest: Seq<u8>|
                (v.valid() && orig == #[trigger] (v.content_spec() + rest) && content_end(rest)) implies exists|i: int|
                0 <= i <= 3 && orig == (#[trigger] suffix_topic_configuration(v, i, events_items@.len() as int)) + rest
                    && settled_topic_configuration(v, i, id_v, topic_arn_v, events_items@) by {
                    assert(v.events@.skip(0) =~= v.events@);
                    assert(v.content_spec() =~= suffix_topic_configuration(v, 0, events_items@.len() as int));
                    assert(0 <= 0 <= 3 && orig == suffix_topic_configuration(v, 0, events_items@.len() as int) + rest && settled_topic_configuration(v, 0, id_v, topic_arn_v, events_items@));
            }
        }
        loop
            invariant
                d.wf(),
                d.remaining().len() <= old(d).remaining().len(),
                orig == old(d).remaining(),
                forall|v: TopicConfiguration, rest: Seq<u8>|
                    (v.valid() && orig == #[trigger] (v.content_spec() + rest) && content_end(
                        rest,
                    )) ==> exists|i: int|
                        0 <= i <= 3 && d.remaining() == (#[trigger] suffix_topic_configuration(v, i, events_items@.len() as int))
                            + rest && settled_topic_configuration(v, i, id_v, topic_arn_v, events_items@),
            decreases d.remaining().len(),
        {
            let ghost cur = d.remaining();
            let ghost g_id = id_v;
            let ghost g_topic_arn = topic_arn_v;
            let ghost g_events = events_items@;
            let c_opt = match d.read_child_open() {
                Result::Ok(x) => x,
                Result::Err(e) => {
                    proof {
                        assert forall|v: TopicConfiguration, rest: Seq<u8>|
                    (v.valid() && orig == #[trigger] (v.content_spec() + rest) && content_end(rest)) implies false by {
                        let i0 = choose|i: int| 0 <= i <= 3 && cur == (#[trigger] suffix_topic_configuration(v, i, g_events.len() as int)) + rest && settled_topic_configuration(v, i, g_id, g_topic_arn, g_events);
                        assert(0 <= g_events.len() <= v.events@.len());
                        lemma_topic_configuration_names();
                        lemma_topic_configuration_at(v, rest, i0, g_events.len() as int, cur);
                }
                    }
                    return Err(e);
                },
            };
            match c_opt {
                Option::Some(c) => {
                    if eq_bytes(c.name.as_slice(), t_id()) {
                        let t = match read_text_member(d, &c) {
                            Result::Ok(t) => t,
                            Result::Err(e) => {
                                proof {
                                    assert forall|v: TopicConfiguration, rest: Seq<u8>|
                    (v.valid() && orig == #[trigger] (v.content_spec() + rest) && content_end(rest)) implies false by {
                        let i0 = choose|i: int| 0 <= i <= 3 && cur == (#[trigger] suffix_topic_configuration(v, i, g_events.len() as int)) + rest && settled_topic_configuration(v, i, g_id, g_topic_arn, g_events);
                        assert(0 <= g_events.len() <= v.events@.len());
                        lemma_topic_configuration_names();
                        lemma_topic_configuration_at(v, rest, i0, g_events.len() as int, cur);
                }
                                }
                                return Err(e);
                            },
                        };
                        id_v = Option::Some(t);
                        proof {
                            assert forall|v: TopicConfiguration, rest: Seq<u8>|
                    (v.valid() && orig == #[trigger] (v.content_spec() + rest) && content_end(rest)) implies exists|i: int|
                    0 <= i <= 3 && d.remaining() == (#[trigger] suffix_topic_configuration(v, i, events_items@.len() as int)) + rest
                        && settled_topic_configuration(v, i, id_v, topic_arn_v, events_items@) by {
                        let i0 = choose|i: int| 0 <= i <= 3 && cur == (#[trigger] suffix_topic_configuration(v, i, g_events.len() as int)) + rest && settled_topic_configuration(v, i, g_id, g_topic_arn, g_events);
                        assert(0 <= g_events.len() <= v.events@.len());
                        lemma_topic_configuration_names();
                        lemma_topic_configuration_at(v, rest, i0, g_events.len() as int, cur);
                        assert(next_member_topic_configuration(v, i0, g_events.len() as int) == 0);
                        assert(0 <= 1 <= 3 && d.remaining() == suffix_topic_configuration(v, 1, events_items@.len() as int) + rest && settled_topic_configuration(v, 1, id_v, topic_arn_v, events_items@));
                }
                        }
                    } else if eq_bytes(c.name.as_slice(), t_topic()) {
                        let t = match read_text_member(d, &c) {
                            Result::Ok(t) => t,
                            Result::Err(e) => {
                                proof {
                                    assert forall|v: TopicConfiguration, rest: Seq<u8>|
                    (v.valid() && orig == #[trigger] (v.content_spec() + rest) && content_end(rest)) implies false by {
                        let i0 = choose|i: int| 0 <= i <= 3 && cur == (#[trigger] suffix_topic_configuration(v, i, g_events.len() as int)) + rest && settled_topic_configuration(v, i, g_id, g_topic_arn, g_events);
                        assert(0 <= g_events.len() <= v.events@.len());
                        lemma_topic_configuration_names();
                        lemma_topic_configuration_at(v, rest, i0, g_events.len() as int, cur);
                }
                                }
                                return Err(e);
                            },
                        };
                        topic_arn_v = Option::Some(t);
                        proof {
                            assert forall|v: TopicConfiguration, rest: Seq<u8>|
                    (v.valid() && orig == #[trigger] (v.content_spec() + rest) && content_end(rest)) implies exists|i: int|
                    0 <= i <= 3 && d.remaining() == (#[trigger] suffix_topic_configuration(v, i, events_items@.len() as int)) + rest
                        && settled_topic_configuration(v, i, id_v, topic_arn_v, events_items@) by {
                        let i0 = choose|i: int| 0 <= i <= 3 && cur == (#[trigger] suffix_topic_configuration(v, i, g_events.len() as int)) + rest && settled_topic_configuration(v, i, g_id, g_topic_arn, g_events);
                        assert(0 <= g_events.len() <= v.events@.len());
                        lemma_topic_configuration_names();
                        lemma_topic_configuration_at(v, rest, i0, g_events.len() as int, cur);
                        assert(next_member_topic_configuration(v, i0, g_events.len() as int) == 1);
                        assert(0 <= 2 <= 3 && d.remaining() == suffix_topic_configuration(v, 2, events_items@.len() as int) + rest && settled_topic_configuration(v, 2, id_v, topic_arn_v, events_items@));
                }
                        }
                    } else if eq_bytes(c.name.as_slice(), t_event()) {
                        let t = match read_text_member(d, &c) {
                            Result::Ok(t) => t,
                            Result::Err(e) => {
                                proof {
                                    assert forall|v: TopicConfiguration, rest: Seq<u8>|
                    (v.valid() && orig == #[trigger] (v.content_spec() + rest) && content_end(rest)) implies false by {
                        let i0 = choose|i: int| 0 <= i <= 3 && cur == (#[trigger] suffix_topic_configuration(v, i, g_events.len() as int)) + rest && settled_topic_configuration(v, i, g_id, g_topic_arn, g_events);
                        assert(0 <= g_events.len() <= v.events@.len());
                        lemma_topic_configuration_names();
                        lemma_topic_configuration_at(v, rest, i0, g_events.len() as int, cur);
                }
                                }
                                return Err(e);
                            },
                        };
                        events_items.push(Event::from_bytes(t.as_slice()));
                        proof {
                            assert forall|v: TopicConfiguration, rest: Seq<u8>|
                    (v.valid() && orig == #[trigger] (v.content_spec() + rest) && content_end(rest)) implies exists|i: int|
                    0 <= i <= 3 && d.remaining() == (#[trigger] suffix_topic_configuration(v, i, events_items@.len() as int)) + rest
                        && settled_topic_configuration(v, i, id_v, topic_arn_v, events_items@) by {
                        let i0 = choose|i: int| 0 <= i <= 3 && cur == (#[trigger] suffix_topic_configuration(v, i, g_events.len() as int)) + rest && settled_topic_configuration(v, i, g_id, g_topic_arn, g_events);
                        assert(0 <= g_events.len() <= v.events@.len());
                        lemma_topic_configuration_names();
                        lemma_topic_configuration_at(v, rest, i0, g_events.len() as int, cur);
                        if !(v.events@[g_events.len() as int] is Extension) {
                            lemma_event_known(v.events@[g_events.len() as int]);
                        }
                        assert(next_member_topic_configuration(v, i0, g_events.len() as int) == 2);
                        assert(0 <= 2 <= 3 && d.remaining() == suffix_topic_configuration(v, 2, events_items@.len() as int) + rest && settled_topic_configuration(v, 2, id_v, topic_arn_v, events_items@));
                }
                        }
                    } else {
                        match skip_member(d, &c) {
                            Result::Ok(u) => {},
                            Result::Err(e) => {
                                proof {
                                    assert forall|v: TopicConfiguration, rest: Seq<u8>|
                    (v.valid() && orig == #[trigger] (v.content_spec() + rest) && content_end(rest)) implies false by {
                        let i0 = choose|i: int| 0 <= i <= 3 && cur == (#[trigger] suffix_topic_configuration(v, i, g_events.len() as int)) + rest && settled_topic_configuration(v, i, g_id, g_topic_arn, g_events);
                        assert(0 <= g_events.len() <= v.events@.len());
                        lemma_topic_configuration_names();
                        lemma_topic_configuration_at(v, rest, i0, g_events.len() as int, cur);
                }
                                }
                                return Err(e);
                            },
                        }
                        proof {
                            assert forall|v: TopicConfiguration, rest: Seq<u8>|
                    (v.valid() && orig == #[trigger] (v.content_spec() + rest) && content_end(rest)) implies false by {
                        let i0 = choose|i: int| 0 <= i <= 3 && cur == (#[trigger] suffix_topic_configuration(v, i, g_events.len() as int)) + rest && settled_topic_configuration(v, i, g_id, g_topic_arn, g_events);
                        assert(0 <= g_events.len() <= v.events@.len());
                        lemma_topic_configuration_names();
                        lemma_topic_configuration_at(v, rest, i0, g_events.len() as int, cur);
                }
                        }
                    }
                },
                Option::None => {
                    let id = id_v;
                    let topic_arn = match topic_arn_v {
                        Option::Some(x) => x,
                        Option::None => {
                            proof {
                                assert forall|v: TopicConfiguration, rest: Seq<u8>|
                    (v.valid() && orig == #[trigger] (v.content_spec() + rest) && content_end(rest)) implies false by {
                        let i0 = choose|i: int| 0 <= i <= 3 && cur == (#[trigger] suffix_topic_configuration(v, i, g_events.len() as int)) + rest && settled_topic_configuration(v, i, g_id, g_topic_arn, g_events);
                        assert(0 <= g_events.len() <= v.events@.len());
                        lemma_topic_configuration_names();
                        lemma_topic_configuration_at(v, rest, i0, g_events.len() as int, cur);
                }
                            }
                            return Err(DeError::MissingField);
                        },
                    };
                    if events_items.len() == 0 {
                        proof {
                            assert forall|v: TopicConfiguration, rest: Seq<u8>|
                    (v.valid() && orig == #[trigger] (v.content_spec() + rest) && content_end(rest)) implies false by {
                        let i0 = choose|i: int| 0 <= i <= 3 && cur == (#[trigger] suffix_topic_configuration(v, i, g_events.len() as int)) + rest && settled_topic_configuration(v, i, g_id, g_topic_arn, g_events);
                        assert(0 <= g_events.len() <= v.events@.len());
                        lemma_topic_configuration_names();
                        lemma_topic_configuration_at(v, rest, i0, g_events.len() as int, cur);
                }
                        }
                        return Err(DeError::MissingField);
                    }
                    let events = events_items;
                    let res = TopicConfiguration { id, topic_arn, events };
                    proof {
                        assert forall|v: TopicConfiguration, rest: Seq<u8>|
                        (v.valid() && orig == #[trigger] (v.content_spec() + rest) && content_end(rest)) implies (v.same_model(&res) && d.remaining() == rest) by {
                            let i0 = choose|i: int| 0 <= i <= 3 && cur == (#[trigger] suffix_topic_configuration(v, i, g_events.len() as int)) + rest && settled_topic_configuration(v, i, g_id, g_topic_arn, g_events);
                            assert(0 <= g_events.len() <= v.events@.len());
                            lemma_topic_configuration_names();
                            lemma_topic_configuration_at(v, rest, i0, g_events.len() as int, cur);
                            assert(g_events.len() == v.events@.len());
                    }
                    }
                    return Ok(res);
                },
            }
        }
    }
}

impl DeserializeContent for TopicConfiguration {
    fn deserialize_content<'a>(d: &mut Deserializer<'a>) -> (r: DeResult<Self>) {
        TopicConfiguration::read_content(d)
    }
}

/// The bucket notification configuration body.
#[derive(Debug, Clone, PartialEq, Eq, Default)]
pub struct NotificationConfiguration {
    pub event_bridge_configuration: Option<EventBridgeConfiguration>,
    pub lambda_function_configurations: Option<Vec<LambdaFunctionConfiguration>>,
    pub queue_configurations: Option<Vec<QueueConfiguration>>,
    pub topic_configurations: Option<Vec<TopicConfiguration>>,
}

impl SerializeContent for NotificationConfiguration {
    open spec fn content_spec(&self) -> Seq<u8> {
        opt_el_of(n_event_bridge_configuration(), self.event_bridge_configuration)
            + opt_flat_of(n_cloud_function_configuration(), self.lambda_function_configurations)
            + opt_flat_of(n_queue_configuration(), self.queue_configurations)
            + opt_flat_of(n_topic_configuration(), self.topic_configurations)
    }

    #[verifier::rlimit(60)]
    fn serialize_content(&self, s: &mut Serializer) {
        let ghost orig = s@;
        write_opt_el(s, t_event_bridge_configuration(), &self.event_bridge_configuration);
        write_opt_flat(s, t_cloud_function_configuration(), &self.lambda_function_configurations);
        write_opt_flat(s, t_queue_configuration(), &self.queue_configurations);
        write_opt_flat(s, t_topic_configuration(), &self.topic_configurations);
        proof {
            assert(s@ =~= orig + self.content_spec());
        }
    }
}

impl Serialize for NotificationConfiguration {
    open spec fn full_spec(&self) -> Seq<u8> {
        element(n_notification_configuration(), self.content_spec())
    }

    #[verifier::rlimit(60)]
    fn serialize(&self, s: &mut Serializer) {
        let ghost orig = s@;
        s.begin(t_notification_configuration());
        self.serialize_content(s);
        s.end(t_notification_configuration());
        proof {
            assert(s@ =~= orig + self.full_spec());
        }
    }
}

impl DeserializeContent for NotificationConfiguration {
    fn deserialize_content<'a>(d: &mut Deserializer<'a>) -> (r: DeResult<Self>) {
        let mut event_bridge_configuration_v: Option<EventBridgeConfiguration> = Option::None;
        let mut lambda_function_configurations_items: Vec<LambdaFunctionConfiguration> = Vec::new();
        let mut queue_configurations_items: Vec<QueueConfiguration> = Vec::new();
        let mut topic_configurations_items: Vec<TopicConfiguration> = Vec::new();
        loop
            invariant
                d.wf(),
                d.remaining().len() <= old(d).remaining().len(),
            decreases d.remaining().len(),
        {
            let c = match d.read_child_open() {
                Result::Ok(x) => x,
                Result::Err(e) => return Err(e),
            };
            let c = match c {
                Option::Some(x) => x,
                Option::None => break,
            };
            if eq_bytes(c.name.as_slice(), t_event_bridge_configuration()) {
                let v = if c.self_closed {
                    decode_empty_content::<EventBridgeConfiguration>()?
                } else {
                    let v = EventBridgeConfiguration::deserialize_content(d)?;
                    d.expect_close(t_event_bridge_configuration())?;
                    v
                };
                event_bridge_configuration_v = Option::Some(v);
            } else if eq_bytes(c.name.as_slice(), t_cloud_function_configuration()) {
                let v = if c.self_closed {
                    decode_empty_content::<LambdaFunctionConfiguration>()?
                } else {
                    let v = LambdaFunctionConfiguration::deserialize_content(d)?;
                    d.expect_close(t_cloud_function_configuration())?;
                    v
                };
                lambda_function_configurations_items.push(v);
            } else if eq_bytes(c.name.as_slice(), t_queue_configuration()) {
                let v = if c.self_closed {
                    decode_empty_content::<QueueConfiguration>()?
                } else {
                    let v = QueueConfiguration::deserialize_content(d)?;
                    d.expect_close(t_queue_configuration())?;
                    v
                };
                queue_configurations_items.push(v);
            } else if eq_bytes(c.name.as_slice(), t_topic_configuration()) {
                let v = if c.self_closed {
                    decode_empty_content::<TopicConfiguration>()?
                } else {
                    let v = TopicConfiguration::deserialize_content(d)?;
                    d.expect_close(t_topic_configuration())?;
                    v
                };
                topic_configurations_items.push(v);
            } else {
                skip_member(d, &c)?;
            }
        }
        let event_bridge_configuration = event_bridge_configuration_v;
        let lambda_function_configurations = if lambda_function_configurations_items.len() > 0 {
            Option::Some(lambda_function_configurations_items)
        } else {
            Option::None
        };
        let queue_configurations = if queue_configurations_items.len() > 0 {
            Option::Some(queue_configurations_items)
        } else {
            Option::None
        };
        let topic_configurations = if topic_configurations_items.len() > 0 {
            Option::Some(topic_configurations_items)
        } else {
            Option::None
        };
        Ok(NotificationConfiguration {
            event_bridge_configuration,
            lambda_function_configurations,
            queue_configurations,
            topic_configurations,
        })
    }
}

impl Deserialize for NotificationConfiguration {
    fn deserialize<'a>(d: &mut Deserializer<'a>) -> (r: DeResult<Self>) {
        let sc = match d.read_root_open(t_notification_configuration()) {
            Result::Ok(b) => b,
            Result::Err(e) => return Err(e),
        };
        if sc {
            return decode_empty_content::<NotificationConfiguration>();
        }
        let v = match NotificationConfiguration::deserialize_content(d) {
            Result::Ok(v) => v,
            Result::Err(e) => return Err(e),
        };
        match d.expect_close(t_notification_configuration()) {
            Result::Ok(u) => Ok(v),
            Result::Err(e) => Err(e),
        }
    }
}

/// A bucket-location query response: a whole-body type whose sole member is
/// optional.
///
/// This type is the documented exception to optional-member omission: its
/// full encoding emits the wrapping root element even when the member is
/// absent, with empty inner text, so that "operation succeeded with no
/// value" stays distinguishable from an empty or malformed response body at
/// the transport layer.
#[derive(Debug, Clone, PartialEq, Eq, Default)]
pub struct GetBucketLocationOutput {
    pub location_constraint: Option<BucketLocationConstraint>,
}

impl GetBucketLocationOutput {
    /// The root element's inner text: the constraint's wire string, or
    /// nothing when the member is absent.
    pub open spec fn inner_spec(&self) -> Seq<u8> {
        match self.location_constraint {
            Option::Some(e) => escape_seq(e.wire_spec()),
            Option::None => Seq::empty(),
        }
    }

    /// Structurally valid: a held constraint has non-empty text, and an
    /// extension value holds only unrecognized text.
    pub open spec fn wf(&self) -> bool {
        match self.location_constraint {
            Option::Some(e) => e.wf() && e.wire_spec().len() > 0,
            Option::None => true,
        }
    }

    /// Whether two values agree member by member, comparing a held
    /// constraint by its wire text and extension-ness.
    pub open spec fn same_model(a: Self, b: Self) -> bool {
        match (a.location_constraint, b.location_constraint) {
            (Option::None, Option::None) => true,
            (Option::Some(x), Option::Some(y)) => x.wire_spec() == y.wire_spec() && ((x
                is Extension) <==> (y is Extension)),
            _ => false,
        }
    }
}

impl SerializeContent for GetBucketLocationOutput {
    open spec fn content_spec(&self) -> Seq<u8> {
        opt_el_of(n_location_constraint(), self.location_constraint)
    }

    fn serialize_content(&self, s: &mut Serializer) {
        write_opt_el(s, t_location_constraint(), &self.location_constraint);
    }
}

impl Serialize for GetBucketLocationOutput {
    open spec fn full_spec(&self) -> Seq<u8> {
        element(n_location_constraint(), self.inner_spec())
    }

    #[verifier::rlimit(60)]
    fn serialize(&self, s: &mut Serializer) {
        let ghost orig = s@;
        s.begin(t_location_constraint());
        if let Option::Some(e) = &self.location_constraint {
            s.text(e.as_bytes());
        }
        s.end(t_location_constraint());
        proof {
            assert(s@ =~= orig + self.full_spec());
        }
    }
}

/// The single-member whole-body exception, stated as a law: a bucket-location
/// response whose sole member is absent still encodes as the wrapping root
/// element with empty inner text, never as an omitted element.
pub proof fn lemma_single_member_root_exception(v: GetBucketLocationOutput)
    requires
        v.location_constraint is None,
    ensures
        v.full_spec() == element(n_location_constraint(), Seq::<u8>::empty()),
        v.full_spec() == open_tag(n_location_constraint()) + close_tag(n_location_constraint()),
{
    assert(v.full_spec() =~= open_tag(n_location_constraint()) + close_tag(
        n_location_constraint(),
    ));
}

/// How the scan functions evaluate on an encoded bucket-location body
/// followed by arbitrary trailing input: the decoder's steps are fully
/// determined, which carries the round-trip proof below.
#[verifier::rlimit(100)]
proof fn lemma_location_wire_shape(v: GetBucketLocationOutput, rest: Seq<u8>)
    requires
        v.wf(),
    ensures
        ({
            let nm = n_location_constraint();
            let s = v.full_spec() + rest;
            let s1 = s.skip(open_tag(nm).len() as int);
            let s2 = s1.skip(v.inner_spec().len() as int);
            &&& child_scan(s) == Some(
                (Some((nm, false)), open_tag(nm).len() as nat),
            )
            &&& until_count(s1, LT) == v.inner_spec().len()
            &&& unescape_seq(s1.take(v.inner_spec().len() as int)) == Some(
                match v.location_constraint {
                    Option::Some(e) => e.wire_spec(),
                    Option::None => Seq::<u8>::empty(),
                },
            )
            &&& close_scan(s2, nm) == Some(close_tag(nm).len() as nat)
            &&& s2.skip(close_tag(nm).len() as int) == rest
        }),
{
    let nm = n_location_constraint();
    assert forall|i: int| 0 <= i < nm.len() implies is_name_byte(#[trigger] nm[i]) by {
    }
    assert(nm.len() >= 1);
    assert(close_tag(nm).len() == nm.len() + 3);
    match v.location_constraint {
        Option::Some(e) => {
            assert(v.full_spec() + rest =~= text_el(nm, e.wire_spec()) + rest);
            lemma_text_member_shape(nm, e.wire_spec(), rest);
        },
        Option::None => {
            assert(escape_seq(Seq::<u8>::empty()) == Seq::<u8>::empty());
            assert(v.full_spec() + rest =~= text_el(nm, Seq::<u8>::empty()) + rest);
            lemma_text_member_shape(nm, Seq::<u8>::empty(), rest);
        },
    }
}

impl GetBucketLocationOutput {
    /// Decode a whole bucket-location body: the root element with the
    /// constraint's wire text inside, empty text meaning an absent member.
    ///
    /// Round-trip: for every structurally valid value, the bytes `serialize`
    /// produces (followed by any trailing input) decode back to a value with
    /// the same members, consuming exactly the encoding.
    pub fn deserialize_from<'a>(d: &mut Deserializer<'a>) -> (r: DeResult<Self>)
        requires
            old(d).wf(),
        ensures
            final(d).wf(),
            final(d).remaining().len() <= old(d).remaining().len(),
            forall|v: GetBucketLocationOutput, rest: Seq<u8>|
                v.wf() && old(d).remaining() == #[trigger] (v.full_spec() + rest) ==> {
                    &&& r is Ok
                    &&& GetBucketLocationOutput::same_model(r->Ok_0, v)
                    &&& final(d).remaining() == rest
                },
    {
        let ghost orig = d.remaining();
        let sc = match d.read_root_open(t_location_constraint()) {
            Result::Ok(b) => b,
            Result::Err(e) => {
                proof {
                    assert forall|v: GetBucketLocationOutput, rest: Seq<u8>|
                        v.wf() && orig == #[trigger] (v.full_spec() + rest) implies false by {
                        lemma_location_wire_shape(v, rest);
                    }
                }
                return Err(e);
            },
        };
        if sc {
            proof {
                assert forall|v: GetBucketLocationOutput, rest: Seq<u8>|
                    v.wf() && orig == #[trigger] (v.full_spec() + rest) implies false by {
                    lemma_location_wire_shape(v, rest);
                }
            }
            return Ok(GetBucketLocationOutput { location_constraint: Option::None });
        }
        let ghost rem1 = d.remaining();
        let text = match d.read_text() {
            Result::Ok(t) => t,
            Result::Err(e) => {
                proof {
                    assert forall|v: GetBucketLocationOutput, rest: Seq<u8>|
                        v.wf() && orig == #[trigger] (v.full_spec() + rest) implies false by {
                        lemma_location_wire_shape(v, rest);
                    }
                }
                return Err(e);
            },
        };
        let location_constraint = if text.len() == 0 {
            Option::None
        } else {
            Option::Some(BucketLocationConstraint::from_bytes(text.as_slice()))
        };
        let res = GetBucketLocationOutput { location_constraint };
        match d.expect_close(t_location_constraint()) {
            Result::Ok(u) => {
                proof {
                    assert forall|v: GetBucketLocationOutput, rest: Seq<u8>|
                        v.wf() && orig == #[trigger] (v.full_spec() + rest) implies {
                        &&& GetBucketLocationOutput::same_model(res, v)
                        &&& d.remaining() == rest
                    } by {
                        lemma_location_wire_shape(v, rest);
                        if v.location_constraint is Some {
                            let e = v.location_constraint->Some_0;
                            assert(text@ == e.wire_spec());
                            if !(e is Extension) {
                                assert(BucketLocationConstraint::is_known_text(e.wire_spec()));
                            }
                        } else {
                            assert(text@ =~= Seq::<u8>::empty());
                        }
                    }
                }
                Ok(res)
            },
            Result::Err(e) => {
                proof {
                    assert forall|v: GetBucketLocationOutput, rest: Seq<u8>|
                        v.wf() && orig == #[trigger] (v.full_spec() + rest) implies false by {
                        lemma_location_wire_shape(v, rest);
                    }
                }
                Err(e)
            },
        }
    }
}

impl DeserializeContent for GetBucketLocationOutput {
    fn deserialize_content<'a>(d: &mut Deserializer<'a>) -> (r: DeResult<Self>) {
        Self::deserialize_from(d)
    }
}

impl Deserialize for GetBucketLocationOutput {
    fn deserialize<'a>(d: &mut Deserializer<'a>) -> (r: DeResult<Self>) {
        Self::deserialize_from(d)
    }
}

/// The body of a bucket-notification query response is the configuration
/// itself.
pub type GetBucketNotificationConfigurationOutput = NotificationConfiguration;

} // verus!
