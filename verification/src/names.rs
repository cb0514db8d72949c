//! Byte strings used by the wire format, each as an executable slice paired
//! with its spec-level view: XML tag names, the S3 document namespace, the
//! wire text of the enumerated values, and notification event names.

use vstd::prelude::*;

verus! {

/// `CompleteMultipartUpload`
pub open spec fn n_complete_multipart_upload() -> Seq<u8> {
    seq![0x43, 0x6f, 0x6d, 0x70, 0x6c, 0x65, 0x74, 0x65, 0x4d, 0x75, 0x6c, 0x74, 0x69, 0x70, 0x61, 0x72, 0x74, 0x55, 0x70, 0x6c, 0x6f, 0x61, 0x64]
}

pub fn t_complete_multipart_upload() -> (r: &'static [u8])
    ensures
        r@ == n_complete_multipart_upload(),
{
    let a: &'static [u8] = &[0x43, 0x6f, 0x6d, 0x70, 0x6c, 0x65, 0x74, 0x65, 0x4d, 0x75, 0x6c, 0x74, 0x69, 0x70, 0x61, 0x72, 0x74, 0x55, 0x70, 0x6c, 0x6f, 0x61, 0x64];
    proof {
        assert(a@ =~= n_complete_multipart_upload());
    }
    a
}

/// `Part`
pub open spec fn n_part() -> Seq<u8> {
    seq![0x50, 0x61, 0x72, 0x74]
}

pub fn t_part() -> (r: &'static [u8])
    ensures
        r@ == n_part(),
{
    let a: &'static [u8] = &[0x50, 0x61, 0x72, 0x74];
    proof {
        assert(a@ =~= n_part());
    }
    a
}

/// `PartNumber`
pub open spec fn n_part_number() -> Seq<u8> {
    seq![0x50, 0x61, 0x72, 0x74, 0x4e, 0x75, 0x6d, 0x62, 0x65, 0x72]
}

pub fn t_part_number() -> (r: &'static [u8])
    ensures
        r@ == n_part_number(),
{
    let a: &'static [u8] = &[0x50, 0x61, 0x72, 0x74, 0x4e, 0x75, 0x6d, 0x62, 0x65, 0x72];
    proof {
        assert(a@ =~= n_part_number());
    }
    a
}

/// `ETag`
pub open spec fn n_etag() -> Seq<u8> {
    seq![0x45, 0x54, 0x61, 0x67]
}

pub fn t_etag() -> (r: &'static [u8])
    ensures
        r@ == n_etag(),
{
    let a: &'static [u8] = &[0x45, 0x54, 0x61, 0x67];
    proof {
        assert(a@ =~= n_etag());
    }
    a
}

/// `ChecksumCRC32`
pub open spec fn n_checksum_crc32() -> Seq<u8> {
    seq![0x43, 0x68, 0x65, 0x63, 0x6b, 0x73, 0x75, 0x6d, 0x43, 0x52, 0x43, 0x33, 0x32]
}

pub fn t_checksum_crc32() -> (r: &'static [u8])
    ensures
        r@ == n_checksum_crc32(),
{
    let a: &'static [u8] = &[0x43, 0x68, 0x65, 0x63, 0x6b, 0x73, 0x75, 0x6d, 0x43, 0x52, 0x43, 0x33, 0x32];
    proof {
        assert(a@ =~= n_checksum_crc32());
    }
    a
}

/// `ChecksumCRC32C`
pub open spec fn n_checksum_crc32c() -> Seq<u8> {
    seq![0x43, 0x68, 0x65, 0x63, 0x6b, 0x73, 0x75, 0x6d, 0x43, 0x52, 0x43, 0x33, 0x32, 0x43]
}

pub fn t_checksum_crc32c() -> (r: &'static [u8])
    ensures
        r@ == n_checksum_crc32c(),
{
    let a: &'static [u8] = &[0x43, 0x68, 0x65, 0x63, 0x6b, 0x73, 0x75, 0x6d, 0x43, 0x52, 0x43, 0x33, 0x32, 0x43];
    proof {
        assert(a@ =~= n_checksum_crc32c());
    }
    a
}

/// `ChecksumSHA1`
pub open spec fn n_checksum_sha1() -> Seq<u8> {
    seq![0x43, 0x68, 0x65, 0x63, 0x6b, 0x73, 0x75, 0x6d, 0x53, 0x48, 0x41, 0x31]
}

pub fn t_checksum_sha1() -> (r: &'static [u8])
    ensures
        r@ == n_checksum_sha1(),
{
    let a: &'static [u8] = &[0x43, 0x68, 0x65, 0x63, 0x6b, 0x73, 0x75, 0x6d, 0x53, 0x48, 0x41, 0x31];
    proof {
        assert(a@ =~= n_checksum_sha1());
    }
    a
}

/// `ChecksumSHA256`
pub open spec fn n_checksum_sha256() -> Seq<u8> {
    seq![0x43, 0x68, 0x65, 0x63, 0x6b, 0x73, 0x75, 0x6d, 0x53, 0x48, 0x41, 0x32, 0x35, 0x36]
}

pub fn t_checksum_sha256() -> (r: &'static [u8])
    ensures
        r@ == n_checksum_sha256(),
{
    let a: &'static [u8] = &[0x43, 0x68, 0x65, 0x63, 0x6b, 0x73, 0x75, 0x6d, 0x53, 0x48, 0x41, 0x32, 0x35, 0x36];
    proof {
        assert(a@ =~= n_checksum_sha256());
    }
    a
}

/// `Tagging`
pub open spec fn n_tagging() -> Seq<u8> {
    seq![0x54, 0x61, 0x67, 0x67, 0x69, 0x6e, 0x67]
}

pub fn t_tagging() -> (r: &'static [u8])
    ensures
        r@ == n_tagging(),
{
    let a: &'static [u8] = &[0x54, 0x61, 0x67, 0x67, 0x69, 0x6e, 0x67];
    proof {
        assert(a@ =~= n_tagging());
    }
    a
}

/// `TagSet`
pub open spec fn n_tag_set() -> Seq<u8> {
    seq![0x54, 0x61, 0x67, 0x53, 0x65, 0x74]
}

pub fn t_tag_set() -> (r: &'static [u8])
    ensures
        r@ == n_tag_set(),
{
    let a: &'static [u8] = &[0x54, 0x61, 0x67, 0x53, 0x65, 0x74];
    proof {
        assert(a@ =~= n_tag_set());
    }
    a
}

/// `Tag`
pub open spec fn n_tag() -> Seq<u8> {
    seq![0x54, 0x61, 0x67]
}

pub fn t_tag() -> (r: &'static [u8])
    ensures
        r@ == n_tag(),
{
    let a: &'static [u8] = &[0x54, 0x61, 0x67];
    proof {
        assert(a@ =~= n_tag());
    }
    a
}

/// `Key`
pub open spec fn n_key() -> Seq<u8> {
    seq![0x4b, 0x65, 0x79]
}

pub fn t_key() -> (r: &'static [u8])
    ensures
        r@ == n_key(),
{
    let a: &'static [u8] = &[0x4b, 0x65, 0x79];
    proof {
        assert(a@ =~= n_key());
    }
    a
}

/// `Value`
pub open spec fn n_value() -> Seq<u8> {
    seq![0x56, 0x61, 0x6c, 0x75, 0x65]
}

pub fn t_value() -> (r: &'static [u8])
    ensures
        r@ == n_value(),
{
    let a: &'static [u8] = &[0x56, 0x61, 0x6c, 0x75, 0x65];
    proof {
        assert(a@ =~= n_value());
    }
    a
}

/// `Date`
pub open spec fn n_date() -> Seq<u8> {
    seq![0x44, 0x61, 0x74, 0x65]
}

pub fn t_date() -> (r: &'static [u8])
    ensures
        r@ == n_date(),
{
    let a: &'static [u8] = &[0x44, 0x61, 0x74, 0x65];
    proof {
        assert(a@ =~= n_date());
    }
    a
}

/// `Days`
pub open spec fn n_days() -> Seq<u8> {
    seq![0x44, 0x61, 0x79, 0x73]
}

pub fn t_days() -> (r: &'static [u8])
    ensures
        r@ == n_days(),
{
    let a: &'static [u8] = &[0x44, 0x61, 0x79, 0x73];
    proof {
        assert(a@ =~= n_days());
    }
    a
}

/// `ExpiredObjectDeleteMarker`
pub open spec fn n_expired_object_delete_marker() -> Seq<u8> {
    seq![0x45, 0x78, 0x70, 0x69, 0x72, 0x65, 0x64, 0x4f, 0x62, 0x6a, 0x65, 0x63, 0x74, 0x44, 0x65, 0x6c, 0x65, 0x74, 0x65, 0x4d, 0x61, 0x72, 0x6b, 0x65, 0x72]
}

pub fn t_expired_object_delete_marker() -> (r: &'static [u8])
    ensures
        r@ == n_expired_object_delete_marker(),
{
    let a: &'static [u8] = &[0x45, 0x78, 0x70, 0x69, 0x72, 0x65, 0x64, 0x4f, 0x62, 0x6a, 0x65, 0x63, 0x74, 0x44, 0x65, 0x6c, 0x65, 0x74, 0x65, 0x4d, 0x61, 0x72, 0x6b, 0x65, 0x72];
    proof {
        assert(a@ =~= n_expired_object_delete_marker());
    }
    a
}

/// `LocationConstraint`
pub open spec fn n_location_constraint() -> Seq<u8> {
    seq![0x4c, 0x6f, 0x63, 0x61, 0x74, 0x69, 0x6f, 0x6e, 0x43, 0x6f, 0x6e, 0x73, 0x74, 0x72, 0x61, 0x69, 0x6e, 0x74]
}

pub fn t_location_constraint() -> (r: &'static [u8])
    ensures
        r@ == n_location_constraint(),
{
    let a: &'static [u8] = &[0x4c, 0x6f, 0x63, 0x61, 0x74, 0x69, 0x6f, 0x6e, 0x43, 0x6f, 0x6e, 0x73, 0x74, 0x72, 0x61, 0x69, 0x6e, 0x74];
    proof {
        assert(a@ =~= n_location_constraint());
    }
    a
}

/// `SelectObjectContentRequest`
pub open spec fn n_select_object_content_request() -> Seq<u8> {
    seq![0x53, 0x65, 0x6c, 0x65, 0x63, 0x74, 0x4f, 0x62, 0x6a, 0x65, 0x63, 0x74, 0x43, 0x6f, 0x6e, 0x74, 0x65, 0x6e, 0x74, 0x52, 0x65, 0x71, 0x75, 0x65, 0x73, 0x74]
}

pub fn t_select_object_content_request() -> (r: &'static [u8])
    ensures
        r@ == n_select_object_content_request(),
{
    let a: &'static [u8] = &[0x53, 0x65, 0x6c, 0x65, 0x63, 0x74, 0x4f, 0x62, 0x6a, 0x65, 0x63, 0x74, 0x43, 0x6f, 0x6e, 0x74, 0x65, 0x6e, 0x74, 0x52, 0x65, 0x71, 0x75, 0x65, 0x73, 0x74];
    proof {
        assert(a@ =~= n_select_object_content_request());
    }
    a
}

/// `Expression`
pub open spec fn n_expression() -> Seq<u8> {
    seq![0x45, 0x78, 0x70, 0x72, 0x65, 0x73, 0x73, 0x69, 0x6f, 0x6e]
}

pub fn t_expression() -> (r: &'static [u8])
    ensures
        r@ == n_expression(),
{
    let a: &'static [u8] = &[0x45, 0x78, 0x70, 0x72, 0x65, 0x73, 0x73, 0x69, 0x6f, 0x6e];
    proof {
        assert(a@ =~= n_expression());
    }
    a
}

/// `ExpressionType`
pub open spec fn n_expression_type() -> Seq<u8> {
    seq![0x45, 0x78, 0x70, 0x72, 0x65, 0x73, 0x73, 0x69, 0x6f, 0x6e, 0x54, 0x79, 0x70, 0x65]
}

pub fn t_expression_type() -> (r: &'static [u8])
    ensures
        r@ == n_expression_type(),
{
    let a: &'static [u8] = &[0x45, 0x78, 0x70, 0x72, 0x65, 0x73, 0x73, 0x69, 0x6f, 0x6e, 0x54, 0x79, 0x70, 0x65];
    proof {
        assert(a@ =~= n_expression_type());
    }
    a
}

/// `InputSerialization`
pub open spec fn n_input_serialization() -> Seq<u8> {
    seq![0x49, 0x6e, 0x70, 0x75, 0x74, 0x53, 0x65, 0x72, 0x69, 0x61, 0x6c, 0x69, 0x7a, 0x61, 0x74, 0x69, 0x6f, 0x6e]
}

pub fn t_input_serialization() -> (r: &'static [u8])
    ensures
        r@ == n_input_serialization(),
{
    let a: &'static [u8] = &[0x49, 0x6e, 0x70, 0x75, 0x74, 0x53, 0x65, 0x72, 0x69, 0x61, 0x6c, 0x69, 0x7a, 0x61, 0x74, 0x69, 0x6f, 0x6e];
    proof {
        assert(a@ =~= n_input_serialization());
    }
    a
}

/// `OutputSerialization`
pub open spec fn n_output_serialization() -> Seq<u8> {
    seq![0x4f, 0x75, 0x74, 0x70, 0x75, 0x74, 0x53, 0x65, 0x72, 0x69, 0x61, 0x6c, 0x69, 0x7a, 0x61, 0x74, 0x69, 0x6f, 0x6e]
}

pub fn t_output_serialization() -> (r: &'static [u8])
    ensures
        r@ == n_output_serialization(),
{
    let a: &'static [u8] = &[0x4f, 0x75, 0x74, 0x70, 0x75, 0x74, 0x53, 0x65, 0x72, 0x69, 0x61, 0x6c, 0x69, 0x7a, 0x61, 0x74, 0x69, 0x6f, 0x6e];
    proof {
        assert(a@ =~= n_output_serialization());
    }
    a
}

/// `RequestProgress`
pub open spec fn n_request_progress() -> Seq<u8> {
    seq![0x52, 0x65, 0x71, 0x75, 0x65, 0x73, 0x74, 0x50, 0x72, 0x6f, 0x67, 0x72, 0x65, 0x73, 0x73]
}

pub fn t_request_progress() -> (r: &'static [u8])
    ensures
        r@ == n_request_progress(),
{
    let a: &'static [u8] = &[0x52, 0x65, 0x71, 0x75, 0x65, 0x73, 0x74, 0x50, 0x72, 0x6f, 0x67, 0x72, 0x65, 0x73, 0x73];
    proof {
        assert(a@ =~= n_request_progress());
    }
    a
}

/// `ScanRange`
pub open spec fn n_scan_range() -> Seq<u8> {
    seq![0x53, 0x63, 0x61, 0x6e, 0x52, 0x61, 0x6e, 0x67, 0x65]
}

pub fn t_scan_range() -> (r: &'static [u8])
    ensures
        r@ == n_scan_range(),
{
    let a: &'static [u8] = &[0x53, 0x63, 0x61, 0x6e, 0x52, 0x61, 0x6e, 0x67, 0x65];
    proof {
        assert(a@ =~= n_scan_range());
    }
    a
}

/// `Start`
pub open spec fn n_start() -> Seq<u8> {
    seq![0x53, 0x74, 0x61, 0x72, 0x74]
}

pub fn t_start() -> (r: &'static [u8])
    ensures
        r@ == n_start(),
{
    let a: &'static [u8] = &[0x53, 0x74, 0x61, 0x72, 0x74];
    proof {
        assert(a@ =~= n_start());
    }
    a
}

/// `End`
pub open spec fn n_end() -> Seq<u8> {
    seq![0x45, 0x6e, 0x64]
}

pub fn t_end() -> (r: &'static [u8])
    ensures
        r@ == n_end(),
{
    let a: &'static [u8] = &[0x45, 0x6e, 0x64];
    proof {
        assert(a@ =~= n_end());
    }
    a
}

/// `Enabled`
pub open spec fn n_enabled() -> Seq<u8> {
    seq![0x45, 0x6e, 0x61, 0x62, 0x6c, 0x65, 0x64]
}

pub fn t_enabled() -> (r: &'static [u8])
    ensures
        r@ == n_enabled(),
{
    let a: &'static [u8] = &[0x45, 0x6e, 0x61, 0x62, 0x6c, 0x65, 0x64];
    proof {
        assert(a@ =~= n_enabled());
    }
    a
}

/// `CSV`
pub open spec fn n_csv() -> Seq<u8> {
    seq![0x43, 0x53, 0x56]
}

pub fn t_csv() -> (r: &'static [u8])
    ensures
        r@ == n_csv(),
{
    let a: &'static [u8] = &[0x43, 0x53, 0x56];
    proof {
        assert(a@ =~= n_csv());
    }
    a
}

/// `CompressionType`
pub open spec fn n_compression_type() -> Seq<u8> {
    seq![0x43, 0x6f, 0x6d, 0x70, 0x72, 0x65, 0x73, 0x73, 0x69, 0x6f, 0x6e, 0x54, 0x79, 0x70, 0x65]
}

pub fn t_compression_type() -> (r: &'static [u8])
    ensures
        r@ == n_compression_type(),
{
    let a: &'static [u8] = &[0x43, 0x6f, 0x6d, 0x70, 0x72, 0x65, 0x73, 0x73, 0x69, 0x6f, 0x6e, 0x54, 0x79, 0x70, 0x65];
    proof {
        assert(a@ =~= n_compression_type());
    }
    a
}

/// `JSON`
pub open spec fn n_json() -> Seq<u8> {
    seq![0x4a, 0x53, 0x4f, 0x4e]
}

pub fn t_json() -> (r: &'static [u8])
    ensures
        r@ == n_json(),
{
    let a: &'static [u8] = &[0x4a, 0x53, 0x4f, 0x4e];
    proof {
        assert(a@ =~= n_json());
    }
    a
}

/// `Parquet`
pub open spec fn n_parquet() -> Seq<u8> {
    seq![0x50, 0x61, 0x72, 0x71, 0x75, 0x65, 0x74]
}

pub fn t_parquet() -> (r: &'static [u8])
    ensures
        r@ == n_parquet(),
{
    let a: &'static [u8] = &[0x50, 0x61, 0x72, 0x71, 0x75, 0x65, 0x74];
    proof {
        assert(a@ =~= n_parquet());
    }
    a
}

/// `AllowQuotedRecordDelimiter`
pub open spec fn n_allow_quoted_record_delimiter() -> Seq<u8> {
    seq![0x41, 0x6c, 0x6c, 0x6f, 0x77, 0x51, 0x75, 0x6f, 0x74, 0x65, 0x64, 0x52, 0x65, 0x63, 0x6f, 0x72, 0x64, 0x44, 0x65, 0x6c, 0x69, 0x6d, 0x69, 0x74, 0x65, 0x72]
}

pub fn t_allow_quoted_record_delimiter() -> (r: &'static [u8])
    ensures
        r@ == n_allow_quoted_record_delimiter(),
{
    let a: &'static [u8] = &[0x41, 0x6c, 0x6c, 0x6f, 0x77, 0x51, 0x75, 0x6f, 0x74, 0x65, 0x64, 0x52, 0x65, 0x63, 0x6f, 0x72, 0x64, 0x44, 0x65, 0x6c, 0x69, 0x6d, 0x69, 0x74, 0x65, 0x72];
    proof {
        assert(a@ =~= n_allow_quoted_record_delimiter());
    }
    a
}

/// `Comments`
pub open spec fn n_comments() -> Seq<u8> {
    seq![0x43, 0x6f, 0x6d, 0x6d, 0x65, 0x6e, 0x74, 0x73]
}

pub fn t_comments() -> (r: &'static [u8])
    ensures
        r@ == n_comments(),
{
    let a: &'static [u8] = &[0x43, 0x6f, 0x6d, 0x6d, 0x65, 0x6e, 0x74, 0x73];
    proof {
        assert(a@ =~= n_comments());
    }
    a
}

/// `FieldDelimiter`
pub open spec fn n_field_delimiter() -> Seq<u8> {
    seq![0x46, 0x69, 0x65, 0x6c, 0x64, 0x44, 0x65, 0x6c, 0x69, 0x6d, 0x69, 0x74, 0x65, 0x72]
}

pub fn t_field_delimiter() -> (r: &'static [u8])
    ensures
        r@ == n_field_delimiter(),
{
    let a: &'static [u8] = &[0x46, 0x69, 0x65, 0x6c, 0x64, 0x44, 0x65, 0x6c, 0x69, 0x6d, 0x69, 0x74, 0x65, 0x72];
    proof {
        assert(a@ =~= n_field_delimiter());
    }
    a
}

/// `FileHeaderInfo`
pub open spec fn n_file_header_info() -> Seq<u8> {
    seq![0x46, 0x69, 0x6c, 0x65, 0x48, 0x65, 0x61, 0x64, 0x65, 0x72, 0x49, 0x6e, 0x66, 0x6f]
}

pub fn t_file_header_info() -> (r: &'static [u8])
    ensures
        r@ == n_file_header_info(),
{
    let a: &'static [u8] = &[0x46, 0x69, 0x6c, 0x65, 0x48, 0x65, 0x61, 0x64, 0x65, 0x72, 0x49, 0x6e, 0x66, 0x6f];
    proof {
        assert(a@ =~= n_file_header_info());
    }
    a
}

/// `QuoteCharacter`
pub open spec fn n_quote_character() -> Seq<u8> {
    seq![0x51, 0x75, 0x6f, 0x74, 0x65, 0x43, 0x68, 0x61, 0x72, 0x61, 0x63, 0x74, 0x65, 0x72]
}

pub fn t_quote_character() -> (r: &'static [u8])
    ensures
        r@ == n_quote_character(),
{
    let a: &'static [u8] = &[0x51, 0x75, 0x6f, 0x74, 0x65, 0x43, 0x68, 0x61, 0x72, 0x61, 0x63, 0x74, 0x65, 0x72];
    proof {
        assert(a@ =~= n_quote_character());
    }
    a
}

/// `QuoteEscapeCharacter`
pub open spec fn n_quote_escape_character() -> Seq<u8> {
    seq![0x51, 0x75, 0x6f, 0x74, 0x65, 0x45, 0x73, 0x63, 0x61, 0x70, 0x65, 0x43, 0x68, 0x61, 0x72, 0x61, 0x63, 0x74, 0x65, 0x72]
}

pub fn t_quote_escape_character() -> (r: &'static [u8])
    ensures
        r@ == n_quote_escape_character(),
{
    let a: &'static [u8] = &[0x51, 0x75, 0x6f, 0x74, 0x65, 0x45, 0x73, 0x63, 0x61, 0x70, 0x65, 0x43, 0x68, 0x61, 0x72, 0x61, 0x63, 0x74, 0x65, 0x72];
    proof {
        assert(a@ =~= n_quote_escape_character());
    }
    a
}

/// `RecordDelimiter`
pub open spec fn n_record_delimiter() -> Seq<u8> {
    seq![0x52, 0x65, 0x63, 0x6f, 0x72, 0x64, 0x44, 0x65, 0x6c, 0x69, 0x6d, 0x69, 0x74, 0x65, 0x72]
}

pub fn t_record_delimiter() -> (r: &'static [u8])
    ensures
        r@ == n_record_delimiter(),
{
    let a: &'static [u8] = &[0x52, 0x65, 0x63, 0x6f, 0x72, 0x64, 0x44, 0x65, 0x6c, 0x69, 0x6d, 0x69, 0x74, 0x65, 0x72];
    proof {
        assert(a@ =~= n_record_delimiter());
    }
    a
}

/// `QuoteFields`
pub open spec fn n_quote_fields() -> Seq<u8> {
    seq![0x51, 0x75, 0x6f, 0x74, 0x65, 0x46, 0x69, 0x65, 0x6c, 0x64, 0x73]
}

pub fn t_quote_fields() -> (r: &'static [u8])
    ensures
        r@ == n_quote_fields(),
{
    let a: &'static [u8] = &[0x51, 0x75, 0x6f, 0x74, 0x65, 0x46, 0x69, 0x65, 0x6c, 0x64, 0x73];
    proof {
        assert(a@ =~= n_quote_fields());
    }
    a
}

/// `Type`
pub open spec fn n_type_tag() -> Seq<u8> {
    seq![0x54, 0x79, 0x70, 0x65]
}

pub fn t_type_tag() -> (r: &'static [u8])
    ensures
        r@ == n_type_tag(),
{
    let a: &'static [u8] = &[0x54, 0x79, 0x70, 0x65];
    proof {
        assert(a@ =~= n_type_tag());
    }
    a
}

/// `NotificationConfiguration`
pub open spec fn n_notification_configuration() -> Seq<u8> {
    seq![0x4e, 0x6f, 0x74, 0x69, 0x66, 0x69, 0x63, 0x61, 0x74, 0x69, 0x6f, 0x6e, 0x43, 0x6f, 0x6e, 0x66, 0x69, 0x67, 0x75, 0x72, 0x61, 0x74, 0x69, 0x6f, 0x6e]
}

pub fn t_notification_configuration() -> (r: &'static [u8])
    ensures
        r@ == n_notification_configuration(),
{
    let a: &'static [u8] = &[0x4e, 0x6f, 0x74, 0x69, 0x66, 0x69, 0x63, 0x61, 0x74, 0x69, 0x6f, 0x6e, 0x43, 0x6f, 0x6e, 0x66, 0x69, 0x67, 0x75, 0x72, 0x61, 0x74, 0x69, 0x6f, 0x6e];
    proof {
        assert(a@ =~= n_notification_configuration());
    }
    a
}

/// `EventBridgeConfiguration`
pub open spec fn n_event_bridge_configuration() -> Seq<u8> {
    seq![0x45, 0x76, 0x65, 0x6e, 0x74, 0x42, 0x72, 0x69, 0x64, 0x67, 0x65, 0x43, 0x6f, 0x6e, 0x66, 0x69, 0x67, 0x75, 0x72, 0x61, 0x74, 0x69, 0x6f, 0x6e]
}

pub fn t_event_bridge_configuration() -> (r: &'static [u8])
    ensures
        r@ == n_event_bridge_configuration(),
{
    let a: &'static [u8] = &[0x45, 0x76, 0x65, 0x6e, 0x74, 0x42, 0x72, 0x69, 0x64, 0x67, 0x65, 0x43, 0x6f, 0x6e, 0x66, 0x69, 0x67, 0x75, 0x72, 0x61, 0x74, 0x69, 0x6f, 0x6e];
    proof {
        assert(a@ =~= n_event_bridge_configuration());
    }
    a
}

/// `TopicConfiguration`
pub open spec fn n_topic_configuration() -> Seq<u8> {
    seq![0x54, 0x6f, 0x70, 0x69, 0x63, 0x43, 0x6f, 0x6e, 0x66, 0x69, 0x67, 0x75, 0x72, 0x61, 0x74, 0x69, 0x6f, 0x6e]
}

pub fn t_topic_configuration() -> (r: &'static [u8])
    ensures
        r@ == n_topic_configuration(),
{
    let a: &'static [u8] = &[0x54, 0x6f, 0x70, 0x69, 0x63, 0x43, 0x6f, 0x6e, 0x66, 0x69, 0x67, 0x75, 0x72, 0x61, 0x74, 0x69, 0x6f, 0x6e];
    proof {
        assert(a@ =~= n_topic_configuration());
    }
    a
}

/// `QueueConfiguration`
pub open spec fn n_queue_configuration() -> Seq<u8> {
    seq![0x51, 0x75, 0x65, 0x75, 0x65, 0x43, 0x6f, 0x6e, 0x66, 0x69, 0x67, 0x75, 0x72, 0x61, 0x74, 0x69, 0x6f, 0x6e]
}

pub fn t_queue_configuration() -> (r: &'static [u8])
    ensures
        r@ == n_queue_configuration(),
{
    let a: &'static [u8] = &[0x51, 0x75, 0x65, 0x75, 0x65, 0x43, 0x6f, 0x6e, 0x66, 0x69, 0x67, 0x75, 0x72, 0x61, 0x74, 0x69, 0x6f, 0x6e];
    proof {
        assert(a@ =~= n_queue_configuration());
    }
    a
}

/// `CloudFunctionConfiguration`
pub open spec fn n_cloud_function_configuration() -> Seq<u8> {
    seq![0x43, 0x6c, 0x6f, 0x75, 0x64, 0x46, 0x75, 0x6e, 0x63, 0x74, 0x69, 0x6f, 0x6e, 0x43, 0x6f, 0x6e, 0x66, 0x69, 0x67, 0x75, 0x72, 0x61, 0x74, 0x69, 0x6f, 0x6e]
}

pub fn t_cloud_function_configuration() -> (r: &'static [u8])
    ensures
        r@ == n_cloud_function_configuration(),
{
    let a: &'static [u8] = &[0x43, 0x6c, 0x6f, 0x75, 0x64, 0x46, 0x75, 0x6e, 0x63, 0x74, 0x69, 0x6f, 0x6e, 0x43, 0x6f, 0x6e, 0x66, 0x69, 0x67, 0x75, 0x72, 0x61, 0x74, 0x69, 0x6f, 0x6e];
    proof {
        assert(a@ =~= n_cloud_function_configuration());
    }
    a
}

/// `Id`
pub open spec fn n_id() -> Seq<u8> {
    seq![0x49, 0x64]
}

pub fn t_id() -> (r: &'static [u8])
    ensures
        r@ == n_id(),
{
    let a: &'static [u8] = &[0x49, 0x64];
    proof {
        assert(a@ =~= n_id());
    }
    a
}

/// `Topic`
pub open spec fn n_topic() -> Seq<u8> {
    seq![0x54, 0x6f, 0x70, 0x69, 0x63]
}

pub fn t_topic() -> (r: &'static [u8])
    ensures
        r@ == n_topic(),
{
    let a: &'static [u8] = &[0x54, 0x6f, 0x70, 0x69, 0x63];
    proof {
        assert(a@ =~= n_topic());
    }
    a
}

/// `Queue`
pub open spec fn n_queue() -> Seq<u8> {
    seq![0x51, 0x75, 0x65, 0x75, 0x65]
}

pub fn t_queue() -> (r: &'static [u8])
    ensures
        r@ == n_queue(),
{
    let a: &'static [u8] = &[0x51, 0x75, 0x65, 0x75, 0x65];
    proof {
        assert(a@ =~= n_queue());
    }
    a
}

/// `CloudFunction`
pub open spec fn n_cloud_function() -> Seq<u8> {
    seq![0x43, 0x6c, 0x6f, 0x75, 0x64, 0x46, 0x75, 0x6e, 0x63, 0x74, 0x69, 0x6f, 0x6e]
}

pub fn t_cloud_function() -> (r: &'static [u8])
    ensures
        r@ == n_cloud_function(),
{
    let a: &'static [u8] = &[0x43, 0x6c, 0x6f, 0x75, 0x64, 0x46, 0x75, 0x6e, 0x63, 0x74, 0x69, 0x6f, 0x6e];
    proof {
        assert(a@ =~= n_cloud_function());
    }
    a
}

/// `Event`
pub open spec fn n_event() -> Seq<u8> {
    seq![0x45, 0x76, 0x65, 0x6e, 0x74]
}

pub fn t_event() -> (r: &'static [u8])
    ensures
        r@ == n_event(),
{
    let a: &'static [u8] = &[0x45, 0x76, 0x65, 0x6e, 0x74];
    proof {
        assert(a@ =~= n_event());
    }
    a
}

/// `Error`
pub open spec fn n_error() -> Seq<u8> {
    seq![0x45, 0x72, 0x72, 0x6f, 0x72]
}

pub fn t_error() -> (r: &'static [u8])
    ensures
        r@ == n_error(),
{
    let a: &'static [u8] = &[0x45, 0x72, 0x72, 0x6f, 0x72];
    proof {
        assert(a@ =~= n_error());
    }
    a
}

/// `Code`
pub open spec fn n_code() -> Seq<u8> {
    seq![0x43, 0x6f, 0x64, 0x65]
}

pub fn t_code() -> (r: &'static [u8])
    ensures
        r@ == n_code(),
{
    let a: &'static [u8] = &[0x43, 0x6f, 0x64, 0x65];
    proof {
        assert(a@ =~= n_code());
    }
    a
}

/// `Message`
pub open spec fn n_message() -> Seq<u8> {
    seq![0x4d, 0x65, 0x73, 0x73, 0x61, 0x67, 0x65]
}

pub fn t_message() -> (r: &'static [u8])
    ensures
        r@ == n_message(),
{
    let a: &'static [u8] = &[0x4d, 0x65, 0x73, 0x73, 0x61, 0x67, 0x65];
    proof {
        assert(a@ =~= n_message());
    }
    a
}

/// `VersionId`
pub open spec fn n_version_id() -> Seq<u8> {
    seq![0x56, 0x65, 0x72, 0x73, 0x69, 0x6f, 0x6e, 0x49, 0x64]
}

pub fn t_version_id() -> (r: &'static [u8])
    ensures
        r@ == n_version_id(),
{
    let a: &'static [u8] = &[0x56, 0x65, 0x72, 0x73, 0x69, 0x6f, 0x6e, 0x49, 0x64];
    proof {
        assert(a@ =~= n_version_id());
    }
    a
}

/// `xmlns`
pub open spec fn n_xmlns() -> Seq<u8> {
    seq![0x78, 0x6d, 0x6c, 0x6e, 0x73]
}

pub fn t_xmlns() -> (r: &'static [u8])
    ensures
        r@ == n_xmlns(),
{
    let a: &'static [u8] = &[0x78, 0x6d, 0x6c, 0x6e, 0x73];
    proof {
        assert(a@ =~= n_xmlns());
    }
    a
}

/// `http://s3.amazonaws.com/doc/2006-03-01/`
pub open spec fn n_s3_ns() -> Seq<u8> {
    seq![0x68, 0x74, 0x74, 0x70, 0x3a, 0x2f, 0x2f, 0x73, 0x33, 0x2e, 0x61, 0x6d, 0x61, 0x7a, 0x6f, 0x6e, 0x61, 0x77, 0x73, 0x2e, 0x63, 0x6f, 0x6d, 0x2f, 0x64, 0x6f, 0x63, 0x2f, 0x32, 0x30, 0x30, 0x36, 0x2d, 0x30, 0x33, 0x2d, 0x30, 0x31, 0x2f]
}

pub fn t_s3_ns() -> (r: &'static [u8])
    ensures
        r@ == n_s3_ns(),
{
    let a: &'static [u8] = &[0x68, 0x74, 0x74, 0x70, 0x3a, 0x2f, 0x2f, 0x73, 0x33, 0x2e, 0x61, 0x6d, 0x61, 0x7a, 0x6f, 0x6e, 0x61, 0x77, 0x73, 0x2e, 0x63, 0x6f, 0x6d, 0x2f, 0x64, 0x6f, 0x63, 0x2f, 0x32, 0x30, 0x30, 0x36, 0x2d, 0x30, 0x33, 0x2d, 0x30, 0x31, 0x2f];
    proof {
        assert(a@ =~= n_s3_ns());
    }
    a
}

/// `SQL`
pub open spec fn n_sql() -> Seq<u8> {
    seq![0x53, 0x51, 0x4c]
}

pub fn t_sql() -> (r: &'static [u8])
    ensures
        r@ == n_sql(),
{
    let a: &'static [u8] = &[0x53, 0x51, 0x4c];
    proof {
        assert(a@ =~= n_sql());
    }
    a
}

/// `NONE`
pub open spec fn n_none_upper() -> Seq<u8> {
    seq![0x4e, 0x4f, 0x4e, 0x45]
}

pub fn t_none_upper() -> (r: &'static [u8])
    ensures
        r@ == n_none_upper(),
{
    let a: &'static [u8] = &[0x4e, 0x4f, 0x4e, 0x45];
    proof {
        assert(a@ =~= n_none_upper());
    }
    a
}

/// `GZIP`
pub open spec fn n_gzip_upper() -> Seq<u8> {
    seq![0x47, 0x5a, 0x49, 0x50]
}

pub fn t_gzip_upper() -> (r: &'static [u8])
    ensures
        r@ == n_gzip_upper(),
{
    let a: &'static [u8] = &[0x47, 0x5a, 0x49, 0x50];
    proof {
        assert(a@ =~= n_gzip_upper());
    }
    a
}

/// `BZIP2`
pub open spec fn n_bzip2_upper() -> Seq<u8> {
    seq![0x42, 0x5a, 0x49, 0x50, 0x32]
}

pub fn t_bzip2_upper() -> (r: &'static [u8])
    ensures
        r@ == n_bzip2_upper(),
{
    let a: &'static [u8] = &[0x42, 0x5a, 0x49, 0x50, 0x32];
    proof {
        assert(a@ =~= n_bzip2_upper());
    }
    a
}

/// `USE`
pub open spec fn n_use_upper() -> Seq<u8> {
    seq![0x55, 0x53, 0x45]
}

pub fn t_use_upper() -> (r: &'static [u8])
    ensures
        r@ == n_use_upper(),
{
    let a: &'static [u8] = &[0x55, 0x53, 0x45];
    proof {
        assert(a@ =~= n_use_upper());
    }
    a
}

/// `IGNORE`
pub open spec fn n_ignore_upper() -> Seq<u8> {
    seq![0x49, 0x47, 0x4e, 0x4f, 0x52, 0x45]
}

pub fn t_ignore_upper() -> (r: &'static [u8])
    ensures
        r@ == n_ignore_upper(),
{
    let a: &'static [u8] = &[0x49, 0x47, 0x4e, 0x4f, 0x52, 0x45];
    proof {
        assert(a@ =~= n_ignore_upper());
    }
    a
}

/// `ALWAYS`
pub open spec fn n_always_upper() -> Seq<u8> {
    seq![0x41, 0x4c, 0x57, 0x41, 0x59, 0x53]
}

pub fn t_always_upper() -> (r: &'static [u8])
    ensures
        r@ == n_always_upper(),
{
    let a: &'static [u8] = &[0x41, 0x4c, 0x57, 0x41, 0x59, 0x53];
    proof {
        assert(a@ =~= n_always_upper());
    }
    a
}

/// `ASNEEDED`
pub open spec fn n_asneeded_upper() -> Seq<u8> {
    seq![0x41, 0x53, 0x4e, 0x45, 0x45, 0x44, 0x45, 0x44]
}

pub fn t_asneeded_upper() -> (r: &'static [u8])
    ensures
        r@ == n_asneeded_upper(),
{
    let a: &'static [u8] = &[0x41, 0x53, 0x4e, 0x45, 0x45, 0x44, 0x45, 0x44];
    proof {
        assert(a@ =~= n_asneeded_upper());
    }
    a
}

/// `DOCUMENT`
pub open spec fn n_document_upper() -> Seq<u8> {
    seq![0x44, 0x4f, 0x43, 0x55, 0x4d, 0x45, 0x4e, 0x54]
}

pub fn t_document_upper() -> (r: &'static [u8])
    ensures
        r@ == n_document_upper(),
{
    let a: &'static [u8] = &[0x44, 0x4f, 0x43, 0x55, 0x4d, 0x45, 0x4e, 0x54];
    proof {
        assert(a@ =~= n_document_upper());
    }
    a
}

/// `LINES`
pub open spec fn n_lines_upper() -> Seq<u8> {
    seq![0x4c, 0x49, 0x4e, 0x45, 0x53]
}

pub fn t_lines_upper() -> (r: &'static [u8])
    ensures
        r@ == n_lines_upper(),
{
    let a: &'static [u8] = &[0x4c, 0x49, 0x4e, 0x45, 0x53];
    proof {
        assert(a@ =~= n_lines_upper());
    }
    a
}

/// `af-south-1`
pub open spec fn n_af_south_1() -> Seq<u8> {
    seq![0x61, 0x66, 0x2d, 0x73, 0x6f, 0x75, 0x74, 0x68, 0x2d, 0x31]
}

pub fn t_af_south_1() -> (r: &'static [u8])
    ensures
        r@ == n_af_south_1(),
{
    let a: &'static [u8] = &[0x61, 0x66, 0x2d, 0x73, 0x6f, 0x75, 0x74, 0x68, 0x2d, 0x31];
    proof {
        assert(a@ =~= n_af_south_1());
    }
    a
}

/// `ap-east-1`
pub open spec fn n_ap_east_1() -> Seq<u8> {
    seq![0x61, 0x70, 0x2d, 0x65, 0x61, 0x73, 0x74, 0x2d, 0x31]
}

pub fn t_ap_east_1() -> (r: &'static [u8])
    ensures
        r@ == n_ap_east_1(),
{
    let a: &'static [u8] = &[0x61, 0x70, 0x2d, 0x65, 0x61, 0x73, 0x74, 0x2d, 0x31];
    proof {
        assert(a@ =~= n_ap_east_1());
    }
    a
}

/// `ap-northeast-1`
pub open spec fn n_ap_northeast_1() -> Seq<u8> {
    seq![0x61, 0x70, 0x2d, 0x6e, 0x6f, 0x72, 0x74, 0x68, 0x65, 0x61, 0x73, 0x74, 0x2d, 0x31]
}

pub fn t_ap_northeast_1() -> (r: &'static [u8])
    ensures
        r@ == n_ap_northeast_1(),
{
    let a: &'static [u8] = &[0x61, 0x70, 0x2d, 0x6e, 0x6f, 0x72, 0x74, 0x68, 0x65, 0x61, 0x73, 0x74, 0x2d, 0x31];
    proof {
        assert(a@ =~= n_ap_northeast_1());
    }
    a
}

/// `ap-northeast-2`
pub open spec fn n_ap_northeast_2() -> Seq<u8> {
    seq![0x61, 0x70, 0x2d, 0x6e, 0x6f, 0x72, 0x74, 0x68, 0x65, 0x61, 0x73, 0x74, 0x2d, 0x32]
}

pub fn t_ap_northeast_2() -> (r: &'static [u8])
    ensures
        r@ == n_ap_northeast_2(),
{
    let a: &'static [u8] = &[0x61, 0x70, 0x2d, 0x6e, 0x6f, 0x72, 0x74, 0x68, 0x65, 0x61, 0x73, 0x74, 0x2d, 0x32];
    proof {
        assert(a@ =~= n_ap_northeast_2());
    }
    a
}

/// `ap-northeast-3`
pub open spec fn n_ap_northeast_3() -> Seq<u8> {
    seq![0x61, 0x70, 0x2d, 0x6e, 0x6f, 0x72, 0x74, 0x68, 0x65, 0x61, 0x73, 0x74, 0x2d, 0x33]
}

pub fn t_ap_northeast_3() -> (r: &'static [u8])
    ensures
        r@ == n_ap_northeast_3(),
{
    let a: &'static [u8] = &[0x61, 0x70, 0x2d, 0x6e, 0x6f, 0x72, 0x74, 0x68, 0x65, 0x61, 0x73, 0x74, 0x2d, 0x33];
    proof {
        assert(a@ =~= n_ap_northeast_3());
    }
    a
}

/// `ap-south-1`
pub open spec fn n_ap_south_1() -> Seq<u8> {
    seq![0x61, 0x70, 0x2d, 0x73, 0x6f, 0x75, 0x74, 0x68, 0x2d, 0x31]
}

pub fn t_ap_south_1() -> (r: &'static [u8])
    ensures
        r@ == n_ap_south_1(),
{
    let a: &'static [u8] = &[0x61, 0x70, 0x2d, 0x73, 0x6f, 0x75, 0x74, 0x68, 0x2d, 0x31];
    proof {
        assert(a@ =~= n_ap_south_1());
    }
    a
}

/// `ap-southeast-1`
pub open spec fn n_ap_southeast_1() -> Seq<u8> {
    seq![0x61, 0x70, 0x2d, 0x73, 0x6f, 0x75, 0x74, 0x68, 0x65, 0x61, 0x73, 0x74, 0x2d, 0x31]
}

pub fn t_ap_southeast_1() -> (r: &'static [u8])
    ensures
        r@ == n_ap_southeast_1(),
{
    let a: &'static [u8] = &[0x61, 0x70, 0x2d, 0x73, 0x6f, 0x75, 0x74, 0x68, 0x65, 0x61, 0x73, 0x74, 0x2d, 0x31];
    proof {
        assert(a@ =~= n_ap_southeast_1());
    }
    a
}

/// `ap-southeast-2`
pub open spec fn n_ap_southeast_2() -> Seq<u8> {
    seq![0x61, 0x70, 0x2d, 0x73, 0x6f, 0x75, 0x74, 0x68, 0x65, 0x61, 0x73, 0x74, 0x2d, 0x32]
}

pub fn t_ap_southeast_2() -> (r: &'static [u8])
    ensures
        r@ == n_ap_southeast_2(),
{
    let a: &'static [u8] = &[0x61, 0x70, 0x2d, 0x73, 0x6f, 0x75, 0x74, 0x68, 0x65, 0x61, 0x73, 0x74, 0x2d, 0x32];
    proof {
        assert(a@ =~= n_ap_southeast_2());
    }
    a
}

/// `ap-southeast-3`
pub open spec fn n_ap_southeast_3() -> Seq<u8> {
    seq![0x61, 0x70, 0x2d, 0x73, 0x6f, 0x75, 0x74, 0x68, 0x65, 0x61, 0x73, 0x74, 0x2d, 0x33]
}

pub fn t_ap_southeast_3() -> (r: &'static [u8])
    ensures
        r@ == n_ap_southeast_3(),
{
    let a: &'static [u8] = &[0x61, 0x70, 0x2d, 0x73, 0x6f, 0x75, 0x74, 0x68, 0x65, 0x61, 0x73, 0x74, 0x2d, 0x33];
    proof {
        assert(a@ =~= n_ap_southeast_3());
    }
    a
}

/// `ca-central-1`
pub open spec fn n_ca_central_1() -> Seq<u8> {
    seq![0x63, 0x61, 0x2d, 0x63, 0x65, 0x6e, 0x74, 0x72, 0x61, 0x6c, 0x2d, 0x31]
}

pub fn t_ca_central_1() -> (r: &'static [u8])
    ensures
        r@ == n_ca_central_1(),
{
    let a: &'static [u8] = &[0x63, 0x61, 0x2d, 0x63, 0x65, 0x6e, 0x74, 0x72, 0x61, 0x6c, 0x2d, 0x31];
    proof {
        assert(a@ =~= n_ca_central_1());
    }
    a
}

/// `cn-north-1`
pub open spec fn n_cn_north_1() -> Seq<u8> {
    seq![0x63, 0x6e, 0x2d, 0x6e, 0x6f, 0x72, 0x74, 0x68, 0x2d, 0x31]
}

pub fn t_cn_north_1() -> (r: &'static [u8])
    ensures
        r@ == n_cn_north_1(),
{
    let a: &'static [u8] = &[0x63, 0x6e, 0x2d, 0x6e, 0x6f, 0x72, 0x74, 0x68, 0x2d, 0x31];
    proof {
        assert(a@ =~= n_cn_north_1());
    }
    a
}

/// `cn-northwest-1`
pub open spec fn n_cn_northwest_1() -> Seq<u8> {
    seq![0x63, 0x6e, 0x2d, 0x6e, 0x6f, 0x72, 0x74, 0x68, 0x77, 0x65, 0x73, 0x74, 0x2d, 0x31]
}

pub fn t_cn_northwest_1() -> (r: &'static [u8])
    ensures
        r@ == n_cn_northwest_1(),
{
    let a: &'static [u8] = &[0x63, 0x6e, 0x2d, 0x6e, 0x6f, 0x72, 0x74, 0x68, 0x77, 0x65, 0x73, 0x74, 0x2d, 0x31];
    proof {
        assert(a@ =~= n_cn_northwest_1());
    }
    a
}

/// `EU`
pub open spec fn n_eu_upper() -> Seq<u8> {
    seq![0x45, 0x55]
}

pub fn t_eu_upper() -> (r: &'static [u8])
    ensures
        r@ == n_eu_upper(),
{
    let a: &'static [u8] = &[0x45, 0x55];
    proof {
        assert(a@ =~= n_eu_upper());
    }
    a
}

/// `eu-central-1`
pub open spec fn n_eu_central_1() -> Seq<u8> {
    seq![0x65, 0x75, 0x2d, 0x63, 0x65, 0x6e, 0x74, 0x72, 0x61, 0x6c, 0x2d, 0x31]
}

pub fn t_eu_central_1() -> (r: &'static [u8])
    ensures
        r@ == n_eu_central_1(),
{
    let a: &'static [u8] = &[0x65, 0x75, 0x2d, 0x63, 0x65, 0x6e, 0x74, 0x72, 0x61, 0x6c, 0x2d, 0x31];
    proof {
        assert(a@ =~= n_eu_central_1());
    }
    a
}

/// `eu-north-1`
pub open spec fn n_eu_north_1() -> Seq<u8> {
    seq![0x65, 0x75, 0x2d, 0x6e, 0x6f, 0x72, 0x74, 0x68, 0x2d, 0x31]
}

pub fn t_eu_north_1() -> (r: &'static [u8])
    ensures
        r@ == n_eu_north_1(),
{
    let a: &'static [u8] = &[0x65, 0x75, 0x2d, 0x6e, 0x6f, 0x72, 0x74, 0x68, 0x2d, 0x31];
    proof {
        assert(a@ =~= n_eu_north_1());
    }
    a
}

/// `eu-south-1`
pub open spec fn n_eu_south_1() -> Seq<u8> {
    seq![0x65, 0x75, 0x2d, 0x73, 0x6f, 0x75, 0x74, 0x68, 0x2d, 0x31]
}

pub fn t_eu_south_1() -> (r: &'static [u8])
    ensures
        r@ == n_eu_south_1(),
{
    let a: &'static [u8] = &[0x65, 0x75, 0x2d, 0x73, 0x6f, 0x75, 0x74, 0x68, 0x2d, 0x31];
    proof {
        assert(a@ =~= n_eu_south_1());
    }
    a
}

/// `eu-west-1`
pub open spec fn n_eu_west_1() -> Seq<u8> {
    seq![0x65, 0x75, 0x2d, 0x77, 0x65, 0x73, 0x74, 0x2d, 0x31]
}

pub fn t_eu_west_1() -> (r: &'static [u8])
    ensures
        r@ == n_eu_west_1(),
{
    let a: &'static [u8] = &[0x65, 0x75, 0x2d, 0x77, 0x65, 0x73, 0x74, 0x2d, 0x31];
    proof {
        assert(a@ =~= n_eu_west_1());
    }
    a
}

/// `eu-west-2`
pub open spec fn n_eu_west_2() -> Seq<u8> {
    seq![0x65, 0x75, 0x2d, 0x77, 0x65, 0x73, 0x74, 0x2d, 0x32]
}

pub fn t_eu_west_2() -> (r: &'static [u8])
    ensures
        r@ == n_eu_west_2(),
{
    let a: &'static [u8] = &[0x65, 0x75, 0x2d, 0x77, 0x65, 0x73, 0x74, 0x2d, 0x32];
    proof {
        assert(a@ =~= n_eu_west_2());
    }
    a
}

/// `eu-west-3`
pub open spec fn n_eu_west_3() -> Seq<u8> {
    seq![0x65, 0x75, 0x2d, 0x77, 0x65, 0x73, 0x74, 0x2d, 0x33]
}

pub fn t_eu_west_3() -> (r: &'static [u8])
    ensures
        r@ == n_eu_west_3(),
{
    let a: &'static [u8] = &[0x65, 0x75, 0x2d, 0x77, 0x65, 0x73, 0x74, 0x2d, 0x33];
    proof {
        assert(a@ =~= n_eu_west_3());
    }
    a
}

/// `me-south-1`
pub open spec fn n_me_south_1() -> Seq<u8> {
    seq![0x6d, 0x65, 0x2d, 0x73, 0x6f, 0x75, 0x74, 0x68, 0x2d, 0x31]
}

pub fn t_me_south_1() -> (r: &'static [u8])
    ensures
        r@ == n_me_south_1(),
{
    let a: &'static [u8] = &[0x6d, 0x65, 0x2d, 0x73, 0x6f, 0x75, 0x74, 0x68, 0x2d, 0x31];
    proof {
        assert(a@ =~= n_me_south_1());
    }
    a
}

/// `sa-east-1`
pub open spec fn n_sa_east_1() -> Seq<u8> {
    seq![0x73, 0x61, 0x2d, 0x65, 0x61, 0x73, 0x74, 0x2d, 0x31]
}

pub fn t_sa_east_1() -> (r: &'static [u8])
    ensures
        r@ == n_sa_east_1(),
{
    let a: &'static [u8] = &[0x73, 0x61, 0x2d, 0x65, 0x61, 0x73, 0x74, 0x2d, 0x31];
    proof {
        assert(a@ =~= n_sa_east_1());
    }
    a
}

/// `us-east-2`
pub open spec fn n_us_east_2() -> Seq<u8> {
    seq![0x75, 0x73, 0x2d, 0x65, 0x61, 0x73, 0x74, 0x2d, 0x32]
}

pub fn t_us_east_2() -> (r: &'static [u8])
    ensures
        r@ == n_us_east_2(),
{
    let a: &'static [u8] = &[0x75, 0x73, 0x2d, 0x65, 0x61, 0x73, 0x74, 0x2d, 0x32];
    proof {
        assert(a@ =~= n_us_east_2());
    }
    a
}

/// `us-gov-east-1`
pub open spec fn n_us_gov_east_1() -> Seq<u8> {
    seq![0x75, 0x73, 0x2d, 0x67, 0x6f, 0x76, 0x2d, 0x65, 0x61, 0x73, 0x74, 0x2d, 0x31]
}

pub fn t_us_gov_east_1() -> (r: &'static [u8])
    ensures
        r@ == n_us_gov_east_1(),
{
    let a: &'static [u8] = &[0x75, 0x73, 0x2d, 0x67, 0x6f, 0x76, 0x2d, 0x65, 0x61, 0x73, 0x74, 0x2d, 0x31];
    proof {
        assert(a@ =~= n_us_gov_east_1());
    }
    a
}

/// `us-gov-west-1`
pub open spec fn n_us_gov_west_1() -> Seq<u8> {
    seq![0x75, 0x73, 0x2d, 0x67, 0x6f, 0x76, 0x2d, 0x77, 0x65, 0x73, 0x74, 0x2d, 0x31]
}

pub fn t_us_gov_west_1() -> (r: &'static [u8])
    ensures
        r@ == n_us_gov_west_1(),
{
    let a: &'static [u8] = &[0x75, 0x73, 0x2d, 0x67, 0x6f, 0x76, 0x2d, 0x77, 0x65, 0x73, 0x74, 0x2d, 0x31];
    proof {
        assert(a@ =~= n_us_gov_west_1());
    }
    a
}

/// `us-west-1`
pub open spec fn n_us_west_1() -> Seq<u8> {
    seq![0x75, 0x73, 0x2d, 0x77, 0x65, 0x73, 0x74, 0x2d, 0x31]
}

pub fn t_us_west_1() -> (r: &'static [u8])
    ensures
        r@ == n_us_west_1(),
{
    let a: &'static [u8] = &[0x75, 0x73, 0x2d, 0x77, 0x65, 0x73, 0x74, 0x2d, 0x31];
    proof {
        assert(a@ =~= n_us_west_1());
    }
    a
}

/// `us-west-2`
pub open spec fn n_us_west_2() -> Seq<u8> {
    seq![0x75, 0x73, 0x2d, 0x77, 0x65, 0x73, 0x74, 0x2d, 0x32]
}

pub fn t_us_west_2() -> (r: &'static [u8])
    ensures
        r@ == n_us_west_2(),
{
    let a: &'static [u8] = &[0x75, 0x73, 0x2d, 0x77, 0x65, 0x73, 0x74, 0x2d, 0x32];
    proof {
        assert(a@ =~= n_us_west_2());
    }
    a
}

/// `s3:ObjectCreated:*`
pub open spec fn n_ev_created_all() -> Seq<u8> {
    seq![0x73, 0x33, 0x3a, 0x4f, 0x62, 0x6a, 0x65, 0x63, 0x74, 0x43, 0x72, 0x65, 0x61, 0x74, 0x65, 0x64, 0x3a, 0x2a]
}

pub fn t_ev_created_all() -> (r: &'static [u8])
    ensures
        r@ == n_ev_created_all(),
{
    let a: &'static [u8] = &[0x73, 0x33, 0x3a, 0x4f, 0x62, 0x6a, 0x65, 0x63, 0x74, 0x43, 0x72, 0x65, 0x61, 0x74, 0x65, 0x64, 0x3a, 0x2a];
    proof {
        assert(a@ =~= n_ev_created_all());
    }
    a
}

/// `s3:ObjectCreated:Put`
pub open spec fn n_ev_created_put() -> Seq<u8> {
    seq![0x73, 0x33, 0x3a, 0x4f, 0x62, 0x6a, 0x65, 0x63, 0x74, 0x43, 0x72, 0x65, 0x61, 0x74, 0x65, 0x64, 0x3a, 0x50, 0x75, 0x74]
}

pub fn t_ev_created_put() -> (r: &'static [u8])
    ensures
        r@ == n_ev_created_put(),
{
    let a: &'static [u8] = &[0x73, 0x33, 0x3a, 0x4f, 0x62, 0x6a, 0x65, 0x63, 0x74, 0x43, 0x72, 0x65, 0x61, 0x74, 0x65, 0x64, 0x3a, 0x50, 0x75, 0x74];
    proof {
        assert(a@ =~= n_ev_created_put());
    }
    a
}

/// `s3:ObjectCreated:Post`
pub open spec fn n_ev_created_post() -> Seq<u8> {
    seq![0x73, 0x33, 0x3a, 0x4f, 0x62, 0x6a, 0x65, 0x63, 0x74, 0x43, 0x72, 0x65, 0x61, 0x74, 0x65, 0x64, 0x3a, 0x50, 0x6f, 0x73, 0x74]
}

pub fn t_ev_created_post() -> (r: &'static [u8])
    ensures
        r@ == n_ev_created_post(),
{
    let a: &'static [u8] = &[0x73, 0x33, 0x3a, 0x4f, 0x62, 0x6a, 0x65, 0x63, 0x74, 0x43, 0x72, 0x65, 0x61, 0x74, 0x65, 0x64, 0x3a, 0x50, 0x6f, 0x73, 0x74];
    proof {
        assert(a@ =~= n_ev_created_post());
    }
    a
}

/// `s3:ObjectCreated:Copy`
pub open spec fn n_ev_created_copy() -> Seq<u8> {
    seq![0x73, 0x33, 0x3a, 0x4f, 0x62, 0x6a, 0x65, 0x63, 0x74, 0x43, 0x72, 0x65, 0x61, 0x74, 0x65, 0x64, 0x3a, 0x43, 0x6f, 0x70, 0x79]
}

pub fn t_ev_created_copy() -> (r: &'static [u8])
    ensures
        r@ == n_ev_created_copy(),
{
    let a: &'static [u8] = &[0x73, 0x33, 0x3a, 0x4f, 0x62, 0x6a, 0x65, 0x63, 0x74, 0x43, 0x72, 0x65, 0x61, 0x74, 0x65, 0x64, 0x3a, 0x43, 0x6f, 0x70, 0x79];
    proof {
        assert(a@ =~= n_ev_created_copy());
    }
    a
}

/// `s3:ObjectCreated:CompleteMultipartUpload`
pub open spec fn n_ev_created_cmu() -> Seq<u8> {
    seq![0x73, 0x33, 0x3a, 0x4f, 0x62, 0x6a, 0x65, 0x63, 0x74, 0x43, 0x72, 0x65, 0x61, 0x74, 0x65, 0x64, 0x3a, 0x43, 0x6f, 0x6d, 0x70, 0x6c, 0x65, 0x74, 0x65, 0x4d, 0x75, 0x6c, 0x74, 0x69, 0x70, 0x61, 0x72, 0x74, 0x55, 0x70, 0x6c, 0x6f, 0x61, 0x64]
}

pub fn t_ev_created_cmu() -> (r: &'static [u8])
    ensures
        r@ == n_ev_created_cmu(),
{
    let a: &'static [u8] = &[0x73, 0x33, 0x3a, 0x4f, 0x62, 0x6a, 0x65, 0x63, 0x74, 0x43, 0x72, 0x65, 0x61, 0x74, 0x65, 0x64, 0x3a, 0x43, 0x6f, 0x6d, 0x70, 0x6c, 0x65, 0x74, 0x65, 0x4d, 0x75, 0x6c, 0x74, 0x69, 0x70, 0x61, 0x72, 0x74, 0x55, 0x70, 0x6c, 0x6f, 0x61, 0x64];
    proof {
        assert(a@ =~= n_ev_created_cmu());
    }
    a
}

/// `s3:ObjectRemoved:*`
pub open spec fn n_ev_removed_all() -> Seq<u8> {
    seq![0x73, 0x33, 0x3a, 0x4f, 0x62, 0x6a, 0x65, 0x63, 0x74, 0x52, 0x65, 0x6d, 0x6f, 0x76, 0x65, 0x64, 0x3a, 0x2a]
}

pub fn t_ev_removed_all() -> (r: &'static [u8])
    ensures
        r@ == n_ev_removed_all(),
{
    let a: &'static [u8] = &[0x73, 0x33, 0x3a, 0x4f, 0x62, 0x6a, 0x65, 0x63, 0x74, 0x52, 0x65, 0x6d, 0x6f, 0x76, 0x65, 0x64, 0x3a, 0x2a];
    proof {
        assert(a@ =~= n_ev_removed_all());
    }
    a
}

/// `s3:ObjectRemoved:Delete`
pub open spec fn n_ev_removed_delete() -> Seq<u8> {
    seq![0x73, 0x33, 0x3a, 0x4f, 0x62, 0x6a, 0x65, 0x63, 0x74, 0x52, 0x65, 0x6d, 0x6f, 0x76, 0x65, 0x64, 0x3a, 0x44, 0x65, 0x6c, 0x65, 0x74, 0x65]
}

pub fn t_ev_removed_delete() -> (r: &'static [u8])
    ensures
        r@ == n_ev_removed_delete(),
{
    let a: &'static [u8] = &[0x73, 0x33, 0x3a, 0x4f, 0x62, 0x6a, 0x65, 0x63, 0x74, 0x52, 0x65, 0x6d, 0x6f, 0x76, 0x65, 0x64, 0x3a, 0x44, 0x65, 0x6c, 0x65, 0x74, 0x65];
    proof {
        assert(a@ =~= n_ev_removed_delete());
    }
    a
}

/// `s3:ObjectRemoved:DeleteMarkerCreated`
pub open spec fn n_ev_removed_dmc() -> Seq<u8> {
    seq![0x73, 0x33, 0x3a, 0x4f, 0x62, 0x6a, 0x65, 0x63, 0x74, 0x52, 0x65, 0x6d, 0x6f, 0x76, 0x65, 0x64, 0x3a, 0x44, 0x65, 0x6c, 0x65, 0x74, 0x65, 0x4d, 0x61, 0x72, 0x6b, 0x65, 0x72, 0x43, 0x72, 0x65, 0x61, 0x74, 0x65, 0x64]
}

pub fn t_ev_removed_dmc() -> (r: &'static [u8])
    ensures
        r@ == n_ev_removed_dmc(),
{
    let a: &'static [u8] = &[0x73, 0x33, 0x3a, 0x4f, 0x62, 0x6a, 0x65, 0x63, 0x74, 0x52, 0x65, 0x6d, 0x6f, 0x76, 0x65, 0x64, 0x3a, 0x44, 0x65, 0x6c, 0x65, 0x74, 0x65, 0x4d, 0x61, 0x72, 0x6b, 0x65, 0x72, 0x43, 0x72, 0x65, 0x61, 0x74, 0x65, 0x64];
    proof {
        assert(a@ =~= n_ev_removed_dmc());
    }
    a
}

/// `s3:ReducedRedundancyLostObject`
pub open spec fn n_ev_rr_lost() -> Seq<u8> {
    seq![0x73, 0x33, 0x3a, 0x52, 0x65, 0x64, 0x75, 0x63, 0x65, 0x64, 0x52, 0x65, 0x64, 0x75, 0x6e, 0x64, 0x61, 0x6e, 0x63, 0x79, 0x4c, 0x6f, 0x73, 0x74, 0x4f, 0x62, 0x6a, 0x65, 0x63, 0x74]
}

pub fn t_ev_rr_lost() -> (r: &'static [u8])
    ensures
        r@ == n_ev_rr_lost(),
{
    let a: &'static [u8] = &[0x73, 0x33, 0x3a, 0x52, 0x65, 0x64, 0x75, 0x63, 0x65, 0x64, 0x52, 0x65, 0x64, 0x75, 0x6e, 0x64, 0x61, 0x6e, 0x63, 0x79, 0x4c, 0x6f, 0x73, 0x74, 0x4f, 0x62, 0x6a, 0x65, 0x63, 0x74];
    proof {
        assert(a@ =~= n_ev_rr_lost());
    }
    a
}

/// `ReplicationConfigurationNotFoundError`
pub open spec fn n_repl_code() -> Seq<u8> {
    seq![0x52, 0x65, 0x70, 0x6c, 0x69, 0x63, 0x61, 0x74, 0x69, 0x6f, 0x6e, 0x43, 0x6f, 0x6e, 0x66, 0x69, 0x67, 0x75, 0x72, 0x61, 0x74, 0x69, 0x6f, 0x6e, 0x4e, 0x6f, 0x74, 0x46, 0x6f, 0x75, 0x6e, 0x64, 0x45, 0x72, 0x72, 0x6f, 0x72]
}

pub fn t_repl_code() -> (r: &'static [u8])
    ensures
        r@ == n_repl_code(),
{
    let a: &'static [u8] = &[0x52, 0x65, 0x70, 0x6c, 0x69, 0x63, 0x61, 0x74, 0x69, 0x6f, 0x6e, 0x43, 0x6f, 0x6e, 0x66, 0x69, 0x67, 0x75, 0x72, 0x61, 0x74, 0x69, 0x6f, 0x6e, 0x4e, 0x6f, 0x74, 0x46, 0x6f, 0x75, 0x6e, 0x64, 0x45, 0x72, 0x72, 0x6f, 0x72];
    proof {
        assert(a@ =~= n_repl_code());
    }
    a
}

/// `There is no replication configuration for this bucket.`
pub open spec fn n_repl_desc() -> Seq<u8> {
    seq![0x54, 0x68, 0x65, 0x72, 0x65, 0x20, 0x69, 0x73, 0x20, 0x6e, 0x6f, 0x20, 0x72, 0x65, 0x70, 0x6c, 0x69, 0x63, 0x61, 0x74, 0x69, 0x6f, 0x6e, 0x20, 0x63, 0x6f, 0x6e, 0x66, 0x69, 0x67, 0x75, 0x72, 0x61, 0x74, 0x69, 0x6f, 0x6e, 0x20, 0x66, 0x6f, 0x72, 0x20, 0x74, 0x68, 0x69, 0x73, 0x20, 0x62, 0x75, 0x63, 0x6b, 0x65, 0x74, 0x2e]
}

pub fn t_repl_desc() -> (r: &'static [u8])
    ensures
        r@ == n_repl_desc(),
{
    let a: &'static [u8] = &[0x54, 0x68, 0x65, 0x72, 0x65, 0x20, 0x69, 0x73, 0x20, 0x6e, 0x6f, 0x20, 0x72, 0x65, 0x70, 0x6c, 0x69, 0x63, 0x61, 0x74, 0x69, 0x6f, 0x6e, 0x20, 0x63, 0x6f, 0x6e, 0x66, 0x69, 0x67, 0x75, 0x72, 0x61, 0x74, 0x69, 0x6f, 0x6e, 0x20, 0x66, 0x6f, 0x72, 0x20, 0x74, 0x68, 0x69, 0x73, 0x20, 0x62, 0x75, 0x63, 0x6b, 0x65, 0x74, 0x2e];
    proof {
        assert(a@ =~= n_repl_desc());
    }
    a
}

/// `404 Not Found`
pub open spec fn n_repl_status() -> Seq<u8> {
    seq![0x34, 0x30, 0x34, 0x20, 0x4e, 0x6f, 0x74, 0x20, 0x46, 0x6f, 0x75, 0x6e, 0x64]
}

pub fn t_repl_status() -> (r: &'static [u8])
    ensures
        r@ == n_repl_status(),
{
    let a: &'static [u8] = &[0x34, 0x30, 0x34, 0x20, 0x4e, 0x6f, 0x74, 0x20, 0x46, 0x6f, 0x75, 0x6e, 0x64];
    proof {
        assert(a@ =~= n_repl_status());
    }
    a
}

/// `409 Conflict`
pub open spec fn n_conflict_status() -> Seq<u8> {
    seq![0x34, 0x30, 0x39, 0x20, 0x43, 0x6f, 0x6e, 0x66, 0x6c, 0x69, 0x63, 0x74]
}

pub fn t_conflict_status() -> (r: &'static [u8])
    ensures
        r@ == n_conflict_status(),
{
    let a: &'static [u8] = &[0x34, 0x30, 0x39, 0x20, 0x43, 0x6f, 0x6e, 0x66, 0x6c, 0x69, 0x63, 0x74];
    proof {
        assert(a@ =~= n_conflict_status());
    }
    a
}

/// `Code:`
pub open spec fn n_marker_code() -> Seq<u8> {
    seq![0x43, 0x6f, 0x64, 0x65, 0x3a]
}

pub fn t_marker_code() -> (r: &'static [u8])
    ensures
        r@ == n_marker_code(),
{
    let a: &'static [u8] = &[0x43, 0x6f, 0x64, 0x65, 0x3a];
    proof {
        assert(a@ =~= n_marker_code());
    }
    a
}

/// `Description:`
pub open spec fn n_marker_desc() -> Seq<u8> {
    seq![0x44, 0x65, 0x73, 0x63, 0x72, 0x69, 0x70, 0x74, 0x69, 0x6f, 0x6e, 0x3a]
}

pub fn t_marker_desc() -> (r: &'static [u8])
    ensures
        r@ == n_marker_desc(),
{
    let a: &'static [u8] = &[0x44, 0x65, 0x73, 0x63, 0x72, 0x69, 0x70, 0x74, 0x69, 0x6f, 0x6e, 0x3a];
    proof {
        assert(a@ =~= n_marker_desc());
    }
    a
}

/// `HTTP Status Code:`
pub open spec fn n_marker_status() -> Seq<u8> {
    seq![0x48, 0x54, 0x54, 0x50, 0x20, 0x53, 0x74, 0x61, 0x74, 0x75, 0x73, 0x20, 0x43, 0x6f, 0x64, 0x65, 0x3a]
}

pub fn t_marker_status() -> (r: &'static [u8])
    ensures
        r@ == n_marker_status(),
{
    let a: &'static [u8] = &[0x48, 0x54, 0x54, 0x50, 0x20, 0x53, 0x74, 0x61, 0x74, 0x75, 0x73, 0x20, 0x43, 0x6f, 0x64, 0x65, 0x3a];
    proof {
        assert(a@ =~= n_marker_status());
    }
    a
}

/// `N/A`
pub open spec fn n_na_text() -> Seq<u8> {
    seq![0x4e, 0x2f, 0x41]
}

pub fn t_na_text() -> (r: &'static [u8])
    ensures
        r@ == n_na_text(),
{
    let a: &'static [u8] = &[0x4e, 0x2f, 0x41];
    proof {
        assert(a@ =~= n_na_text());
    }
    a
}

/// `<i>`
pub open spec fn n_i_open() -> Seq<u8> {
    seq![0x3c, 0x69, 0x3e]
}

pub fn t_i_open() -> (r: &'static [u8])
    ensures
        r@ == n_i_open(),
{
    let a: &'static [u8] = &[0x3c, 0x69, 0x3e];
    proof {
        assert(a@ =~= n_i_open());
    }
    a
}

/// `</i> `
pub open spec fn n_i_close_sp() -> Seq<u8> {
    seq![0x3c, 0x2f, 0x69, 0x3e, 0x20]
}

pub fn t_i_close_sp() -> (r: &'static [u8])
    ensures
        r@ == n_i_close_sp(),
{
    let a: &'static [u8] = &[0x3c, 0x2f, 0x69, 0x3e, 0x20];
    proof {
        assert(a@ =~= n_i_close_sp());
    }
    a
}

/// `</p>`
pub open spec fn n_p_close() -> Seq<u8> {
    seq![0x3c, 0x2f, 0x70, 0x3e]
}

pub fn t_p_close() -> (r: &'static [u8])
    ensures
        r@ == n_p_close(),
{
    let a: &'static [u8] = &[0x3c, 0x2f, 0x70, 0x3e];
    proof {
        assert(a@ =~= n_p_close());
    }
    a
}

/// `Moved Temporarily`
pub open spec fn n_moved_temporarily() -> Seq<u8> {
    seq![0x4d, 0x6f, 0x76, 0x65, 0x64, 0x20, 0x54, 0x65, 0x6d, 0x70, 0x6f, 0x72, 0x61, 0x72, 0x69, 0x6c, 0x79]
}

pub fn t_moved_temporarily() -> (r: &'static [u8])
    ensures
        r@ == n_moved_temporarily(),
{
    let a: &'static [u8] = &[0x4d, 0x6f, 0x76, 0x65, 0x64, 0x20, 0x54, 0x65, 0x6d, 0x70, 0x6f, 0x72, 0x61, 0x72, 0x69, 0x6c, 0x79];
    proof {
        assert(a@ =~= n_moved_temporarily());
    }
    a
}

/// `Requested Range NotSatisfiable`
pub open spec fn n_range_notsat() -> Seq<u8> {
    seq![0x52, 0x65, 0x71, 0x75, 0x65, 0x73, 0x74, 0x65, 0x64, 0x20, 0x52, 0x61, 0x6e, 0x67, 0x65, 0x20, 0x4e, 0x6f, 0x74, 0x53, 0x61, 0x74, 0x69, 0x73, 0x66, 0x69, 0x61, 0x62, 0x6c, 0x65]
}

pub fn t_range_notsat() -> (r: &'static [u8])
    ensures
        r@ == n_range_notsat(),
{
    let a: &'static [u8] = &[0x52, 0x65, 0x71, 0x75, 0x65, 0x73, 0x74, 0x65, 0x64, 0x20, 0x52, 0x61, 0x6e, 0x67, 0x65, 0x20, 0x4e, 0x6f, 0x74, 0x53, 0x61, 0x74, 0x69, 0x73, 0x66, 0x69, 0x61, 0x62, 0x6c, 0x65];
    proof {
        assert(a@ =~= n_range_notsat());
    }
    a
}

/// `Slow Down`
pub open spec fn n_slow_down() -> Seq<u8> {
    seq![0x53, 0x6c, 0x6f, 0x77, 0x20, 0x44, 0x6f, 0x77, 0x6e]
}

pub fn t_slow_down() -> (r: &'static [u8])
    ensures
        r@ == n_slow_down(),
{
    let a: &'static [u8] = &[0x53, 0x6c, 0x6f, 0x77, 0x20, 0x44, 0x6f, 0x77, 0x6e];
    proof {
        assert(a@ =~= n_slow_down());
    }
    a
}

/// `TEMPORARY_REDIRECT`
pub open spec fn n_temporary_redirect() -> Seq<u8> {
    seq![0x54, 0x45, 0x4d, 0x50, 0x4f, 0x52, 0x41, 0x52, 0x59, 0x5f, 0x52, 0x45, 0x44, 0x49, 0x52, 0x45, 0x43, 0x54]
}

pub fn t_temporary_redirect() -> (r: &'static [u8])
    ensures
        r@ == n_temporary_redirect(),
{
    let a: &'static [u8] = &[0x54, 0x45, 0x4d, 0x50, 0x4f, 0x52, 0x41, 0x52, 0x59, 0x5f, 0x52, 0x45, 0x44, 0x49, 0x52, 0x45, 0x43, 0x54];
    proof {
        assert(a@ =~= n_temporary_redirect());
    }
    a
}

/// `RANGE_NOT_SATISFIABLE`
pub open spec fn n_range_not_satisfiable() -> Seq<u8> {
    seq![0x52, 0x41, 0x4e, 0x47, 0x45, 0x5f, 0x4e, 0x4f, 0x54, 0x5f, 0x53, 0x41, 0x54, 0x49, 0x53, 0x46, 0x49, 0x41, 0x42, 0x4c, 0x45]
}

pub fn t_range_not_satisfiable() -> (r: &'static [u8])
    ensures
        r@ == n_range_not_satisfiable(),
{
    let a: &'static [u8] = &[0x52, 0x41, 0x4e, 0x47, 0x45, 0x5f, 0x4e, 0x4f, 0x54, 0x5f, 0x53, 0x41, 0x54, 0x49, 0x53, 0x46, 0x49, 0x41, 0x42, 0x4c, 0x45];
    proof {
        assert(a@ =~= n_range_not_satisfiable());
    }
    a
}

/// `SERVICE_UNAVAILABLE`
pub open spec fn n_service_unavailable() -> Seq<u8> {
    seq![0x53, 0x45, 0x52, 0x56, 0x49, 0x43, 0x45, 0x5f, 0x55, 0x4e, 0x41, 0x56, 0x41, 0x49, 0x4c, 0x41, 0x42, 0x4c, 0x45]
}

pub fn t_service_unavailable() -> (r: &'static [u8])
    ensures
        r@ == n_service_unavailable(),
{
    let a: &'static [u8] = &[0x53, 0x45, 0x52, 0x56, 0x49, 0x43, 0x45, 0x5f, 0x55, 0x4e, 0x41, 0x56, 0x41, 0x49, 0x4c, 0x41, 0x42, 0x4c, 0x45];
    proof {
        assert(a@ =~= n_service_unavailable());
    }
    a
}

/// `<i>HTTP Status Code:</i> N/A`
pub open spec fn n_na_status_line() -> Seq<u8> {
    seq![0x3c, 0x69, 0x3e, 0x48, 0x54, 0x54, 0x50, 0x20, 0x53, 0x74, 0x61, 0x74, 0x75, 0x73, 0x20, 0x43, 0x6f, 0x64, 0x65, 0x3a, 0x3c, 0x2f, 0x69, 0x3e, 0x20, 0x4e, 0x2f, 0x41]
}

pub fn t_na_status_line() -> (r: &'static [u8])
    ensures
        r@ == n_na_status_line(),
{
    let a: &'static [u8] = &[0x3c, 0x69, 0x3e, 0x48, 0x54, 0x54, 0x50, 0x20, 0x53, 0x74, 0x61, 0x74, 0x75, 0x73, 0x20, 0x43, 0x6f, 0x64, 0x65, 0x3a, 0x3c, 0x2f, 0x69, 0x3e, 0x20, 0x4e, 0x2f, 0x41];
    proof {
        assert(a@ =~= n_na_status_line());
    }
    a
}

/// `<i>Code:</i> 409 Conflict`
pub open spec fn n_conflict_line() -> Seq<u8> {
    seq![0x3c, 0x69, 0x3e, 0x43, 0x6f, 0x64, 0x65, 0x3a, 0x3c, 0x2f, 0x69, 0x3e, 0x20, 0x34, 0x30, 0x39, 0x20, 0x43, 0x6f, 0x6e, 0x66, 0x6c, 0x69, 0x63, 0x74]
}

pub fn t_conflict_line() -> (r: &'static [u8])
    ensures
        r@ == n_conflict_line(),
{
    let a: &'static [u8] = &[0x3c, 0x69, 0x3e, 0x43, 0x6f, 0x64, 0x65, 0x3a, 0x3c, 0x2f, 0x69, 0x3e, 0x20, 0x34, 0x30, 0x39, 0x20, 0x43, 0x6f, 0x6e, 0x66, 0x6c, 0x69, 0x63, 0x74];
    proof {
        assert(a@ =~= n_conflict_line());
    }
    a
}

/// `SOAP Fault Code Prefix:`
pub open spec fn n_trailer_tag() -> Seq<u8> {
    seq![0x53, 0x4f, 0x41, 0x50, 0x20, 0x46, 0x61, 0x75, 0x6c, 0x74, 0x20, 0x43, 0x6f, 0x64, 0x65, 0x20, 0x50, 0x72, 0x65, 0x66, 0x69, 0x78, 0x3a]
}

pub fn t_trailer_tag() -> (r: &'static [u8])
    ensures
        r@ == n_trailer_tag(),
{
    let a: &'static [u8] = &[0x53, 0x4f, 0x41, 0x50, 0x20, 0x46, 0x61, 0x75, 0x6c, 0x74, 0x20, 0x43, 0x6f, 0x64, 0x65, 0x20, 0x50, 0x72, 0x65, 0x66, 0x69, 0x78, 0x3a];
    proof {
        assert(a@ =~= n_trailer_tag());
    }
    a
}

/// `Client`
pub open spec fn n_trailer_text() -> Seq<u8> {
    seq![0x43, 0x6c, 0x69, 0x65, 0x6e, 0x74]
}

pub fn t_trailer_text() -> (r: &'static [u8])
    ensures
        r@ == n_trailer_text(),
{
    let a: &'static [u8] = &[0x43, 0x6c, 0x69, 0x65, 0x6e, 0x74];
    proof {
        assert(a@ =~= n_trailer_text());
    }
    a
}

} // verus!
