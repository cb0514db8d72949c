//! Enumerated string values: each is a closed set of known wire constants
//! plus an `Extension` variant that keeps an unrecognized wire string
//! verbatim, so values unknown at compile time still round-trip losslessly.
//!
//! Decoding matches the wire text against the known constants
//! case-sensitively; on no match the text is kept in `Extension`. Encoding
//! always emits the held text with no canonicalization, so a decoded then
//! re-encoded extension value is byte-identical to its input. A `Known`
//! variant and an `Extension` holding the same text serialize identically
//! but do not compare equal; well-formed (`wf`) extension values hold only
//! unrecognized text, and decoding only produces well-formed values.

use vstd::prelude::*;
use crate::text::eq_bytes;
use crate::de::bytes_to_vec;
use crate::names::{n_af_south_1, t_af_south_1, n_ap_east_1, t_ap_east_1, n_ap_northeast_1,
    t_ap_northeast_1, n_ap_northeast_2, t_ap_northeast_2, n_ap_northeast_3, t_ap_northeast_3,
    n_ap_south_1, t_ap_south_1, n_ap_southeast_1, t_ap_southeast_1, n_ap_southeast_2,
    t_ap_southeast_2, n_ap_southeast_3, t_ap_southeast_3, n_ca_central_1, t_ca_central_1,
    n_cn_north_1, t_cn_north_1, n_cn_northwest_1, t_cn_northwest_1, n_eu_upper, t_eu_upper,
    n_eu_central_1, t_eu_central_1, n_eu_north_1, t_eu_north_1, n_eu_south_1, t_eu_south_1,
    n_eu_west_1, t_eu_west_1, n_eu_west_2, t_eu_west_2, n_eu_west_3, t_eu_west_3, n_me_south_1,
    t_me_south_1, n_sa_east_1, t_sa_east_1, n_us_east_2, t_us_east_2, n_us_gov_east_1,
    t_us_gov_east_1, n_us_gov_west_1, t_us_gov_west_1, n_us_west_1, t_us_west_1, n_us_west_2,
    t_us_west_2, n_sql, t_sql, n_none_upper, t_none_upper, n_gzip_upper, t_gzip_upper,
    n_bzip2_upper, t_bzip2_upper, n_use_upper, t_use_upper, n_ignore_upper, t_ignore_upper,
    n_always_upper, t_always_upper, n_asneeded_upper, t_asneeded_upper, n_document_upper,
    t_document_upper, n_lines_upper, t_lines_upper, n_ev_created_all, t_ev_created_all,
    n_ev_created_put, t_ev_created_put, n_ev_created_post, t_ev_created_post, n_ev_created_copy,
    t_ev_created_copy, n_ev_created_cmu, t_ev_created_cmu, n_ev_removed_all, t_ev_removed_all,
    n_ev_removed_delete, t_ev_removed_delete, n_ev_removed_dmc, t_ev_removed_dmc, n_ev_rr_lost,
    t_ev_rr_lost};

verus! {

/// A bucket location constraint: known wire constants plus the open extension.
#[derive(Debug, Clone, PartialEq, Eq)]
pub enum BucketLocationConstraint {
    AfSouth1,
    ApEast1,
    ApNortheast1,
    ApNortheast2,
    ApNortheast3,
    ApSouth1,
    ApSoutheast1,
    ApSoutheast2,
    ApSoutheast3,
    CaCentral1,
    CnNorth1,
    CnNorthwest1,
    Eu,
    EuCentral1,
    EuNorth1,
    EuSouth1,
    EuWest1,
    EuWest2,
    EuWest3,
    MeSouth1,
    SaEast1,
    UsEast2,
    UsGovEast1,
    UsGovWest1,
    UsWest1,
    UsWest2,
    /// An unrecognized wire string, kept verbatim.
    Extension(Vec<u8>),
}

impl BucketLocationConstraint {
    /// The wire string this value serializes to.
    pub open spec fn wire_spec(&self) -> Seq<u8> {
        match self {
            BucketLocationConstraint::AfSouth1 => n_af_south_1(),
            BucketLocationConstraint::ApEast1 => n_ap_east_1(),
            BucketLocationConstraint::ApNortheast1 => n_ap_northeast_1(),
            BucketLocationConstraint::ApNortheast2 => n_ap_northeast_2(),
            BucketLocationConstraint::ApNortheast3 => n_ap_northeast_3(),
            BucketLocationConstraint::ApSouth1 => n_ap_south_1(),
            BucketLocationConstraint::ApSoutheast1 => n_ap_southeast_1(),
            BucketLocationConstraint::ApSoutheast2 => n_ap_southeast_2(),
            BucketLocationConstraint::ApSoutheast3 => n_ap_southeast_3(),
            BucketLocationConstraint::CaCentral1 => n_ca_central_1(),
            BucketLocationConstraint::CnNorth1 => n_cn_north_1(),
            BucketLocationConstraint::CnNorthwest1 => n_cn_northwest_1(),
            BucketLocationConstraint::Eu => n_eu_upper(),
            BucketLocationConstraint::EuCentral1 => n_eu_central_1(),
            BucketLocationConstraint::EuNorth1 => n_eu_north_1(),
            BucketLocationConstraint::EuSouth1 => n_eu_south_1(),
            BucketLocationConstraint::EuWest1 => n_eu_west_1(),
            BucketLocationConstraint::EuWest2 => n_eu_west_2(),
            BucketLocationConstraint::EuWest3 => n_eu_west_3(),
            BucketLocationConstraint::MeSouth1 => n_me_south_1(),
            BucketLocationConstraint::SaEast1 => n_sa_east_1(),
            BucketLocationConstraint::UsEast2 => n_us_east_2(),
            BucketLocationConstraint::UsGovEast1 => n_us_gov_east_1(),
            BucketLocationConstraint::UsGovWest1 => n_us_gov_west_1(),
            BucketLocationConstraint::UsWest1 => n_us_west_1(),
            BucketLocationConstraint::UsWest2 => n_us_west_2(),
            BucketLocationConstraint::Extension(s) => s@,
        }
    }

    /// Whether a wire string is one of the known constants.
    pub open spec fn is_known_text(s: Seq<u8>) -> bool {
        s == n_af_south_1()
        || s == n_ap_east_1()
        || s == n_ap_northeast_1()
        || s == n_ap_northeast_2()
        || s == n_ap_northeast_3()
        || s == n_ap_south_1()
        || s == n_ap_southeast_1()
        || s == n_ap_southeast_2()
        || s == n_ap_southeast_3()
        || s == n_ca_central_1()
        || s == n_cn_north_1()
        || s == n_cn_northwest_1()
        || s == n_eu_upper()
        || s == n_eu_central_1()
        || s == n_eu_north_1()
        || s == n_eu_south_1()
        || s == n_eu_west_1()
        || s == n_eu_west_2()
        || s == n_eu_west_3()
        || s == n_me_south_1()
        || s == n_sa_east_1()
        || s == n_us_east_2()
        || s == n_us_gov_east_1()
        || s == n_us_gov_west_1()
        || s == n_us_west_1()
        || s == n_us_west_2()
    }

    /// Well-formed: an extension value holds only unrecognized text.
    pub open spec fn wf(&self) -> bool {
        match self {
            BucketLocationConstraint::Extension(s) => !BucketLocationConstraint::is_known_text(s@),
            _ => true,
        }
    }

    /// The literal wire string: a known constant's fixed text, or the
    /// extension's stored text, with no canonicalization.
    pub fn as_bytes(&self) -> (r: &[u8])
        ensures
            r@ == self.wire_spec(),
    {
        match self {
            BucketLocationConstraint::AfSouth1 => t_af_south_1(),
            BucketLocationConstraint::ApEast1 => t_ap_east_1(),
            BucketLocationConstraint::ApNortheast1 => t_ap_northeast_1(),
            BucketLocationConstraint::ApNortheast2 => t_ap_northeast_2(),
            BucketLocationConstraint::ApNortheast3 => t_ap_northeast_3(),
            BucketLocationConstraint::ApSouth1 => t_ap_south_1(),
            BucketLocationConstraint::ApSoutheast1 => t_ap_southeast_1(),
            BucketLocationConstraint::ApSoutheast2 => t_ap_southeast_2(),
            BucketLocationConstraint::ApSoutheast3 => t_ap_southeast_3(),
            BucketLocationConstraint::CaCentral1 => t_ca_central_1(),
            BucketLocationConstraint::CnNorth1 => t_cn_north_1(),
            BucketLocationConstraint::CnNorthwest1 => t_cn_northwest_1(),
            BucketLocationConstraint::Eu => t_eu_upper(),
            BucketLocationConstraint::EuCentral1 => t_eu_central_1(),
            BucketLocationConstraint::EuNorth1 => t_eu_north_1(),
            BucketLocationConstraint::EuSouth1 => t_eu_south_1(),
            BucketLocationConstraint::EuWest1 => t_eu_west_1(),
            BucketLocationConstraint::EuWest2 => t_eu_west_2(),
            BucketLocationConstraint::EuWest3 => t_eu_west_3(),
            BucketLocationConstraint::MeSouth1 => t_me_south_1(),
            BucketLocationConstraint::SaEast1 => t_sa_east_1(),
            BucketLocationConstraint::UsEast2 => t_us_east_2(),
            BucketLocationConstraint::UsGovEast1 => t_us_gov_east_1(),
            BucketLocationConstraint::UsGovWest1 => t_us_gov_west_1(),
            BucketLocationConstraint::UsWest1 => t_us_west_1(),
            BucketLocationConstraint::UsWest2 => t_us_west_2(),
            BucketLocationConstraint::Extension(s) => s.as_slice(),
        }
    }

    /// Decode a wire string: a known constant on a case-sensitive match,
    /// otherwise the extension holding the text verbatim.
    pub fn from_bytes(s: &[u8]) -> (r: Self)
        ensures
            r.wire_spec() == s@,
            (r is Extension) == !BucketLocationConstraint::is_known_text(s@),
            r.wf(),
    {
        if eq_bytes(s, t_af_south_1()) {
            BucketLocationConstraint::AfSouth1
        } else if eq_bytes(s, t_ap_east_1()) {
            BucketLocationConstraint::ApEast1
        } else if eq_bytes(s, t_ap_northeast_1()) {
            BucketLocationConstraint::ApNortheast1
        } else if eq_bytes(s, t_ap_northeast_2()) {
            BucketLocationConstraint::ApNortheast2
        } else if eq_bytes(s, t_ap_northeast_3()) {
            BucketLocationConstraint::ApNortheast3
        } else if eq_bytes(s, t_ap_south_1()) {
            BucketLocationConstraint::ApSouth1
        } else if eq_bytes(s, t_ap_southeast_1()) {
            BucketLocationConstraint::ApSoutheast1
        } else if eq_bytes(s, t_ap_southeast_2()) {
            BucketLocationConstraint::ApSoutheast2
        } else if eq_bytes(s, t_ap_southeast_3()) {
            BucketLocationConstraint::ApSoutheast3
        } else if eq_bytes(s, t_ca_central_1()) {
            BucketLocationConstraint::CaCentral1
        } else if eq_bytes(s, t_cn_north_1()) {
            BucketLocationConstraint::CnNorth1
        } else if eq_bytes(s, t_cn_northwest_1()) {
            BucketLocationConstraint::CnNorthwest1
        } else if eq_bytes(s, t_eu_upper()) {
            BucketLocationConstraint::Eu
        } else if eq_bytes(s, t_eu_central_1()) {
            BucketLocationConstraint::EuCentral1
        } else if eq_bytes(s, t_eu_north_1()) {
            BucketLocationConstraint::EuNorth1
        } else if eq_bytes(s, t_eu_south_1()) {
            BucketLocationConstraint::EuSouth1
        } else if eq_bytes(s, t_eu_west_1()) {
            BucketLocationConstraint::EuWest1
        } else if eq_bytes(s, t_eu_west_2()) {
            BucketLocationConstraint::EuWest2
        } else if eq_bytes(s, t_eu_west_3()) {
            BucketLocationConstraint::EuWest3
        } else if eq_bytes(s, t_me_south_1()) {
            BucketLocationConstraint::MeSouth1
        } else if eq_bytes(s, t_sa_east_1()) {
            BucketLocationConstraint::SaEast1
        } else if eq_bytes(s, t_us_east_2()) {
            BucketLocationConstraint::UsEast2
        } else if eq_bytes(s, t_us_gov_east_1()) {
            BucketLocationConstraint::UsGovEast1
        } else if eq_bytes(s, t_us_gov_west_1()) {
            BucketLocationConstraint::UsGovWest1
        } else if eq_bytes(s, t_us_west_1()) {
            BucketLocationConstraint::UsWest1
        } else if eq_bytes(s, t_us_west_2()) {
            BucketLocationConstraint::UsWest2
        } else {
            BucketLocationConstraint::Extension(bytes_to_vec(s))
        }
    }
}

/// A expression language selector: known wire constants plus the open extension.
#[derive(Debug, Clone, PartialEq, Eq)]
pub enum ExpressionType {
    Sql,
    /// An unrecognized wire string, kept verbatim.
    Extension(Vec<u8>),
}

impl ExpressionType {
    /// The wire string this value serializes to.
    pub open spec fn wire_spec(&self) -> Seq<u8> {
        match self {
            ExpressionType::Sql => n_sql(),
            ExpressionType::Extension(s) => s@,
        }
    }

    /// Whether a wire string is one of the known constants.
    pub open spec fn is_known_text(s: Seq<u8>) -> bool {
        s == n_sql()
    }

    /// Well-formed: an extension value holds only unrecognized text.
    pub open spec fn wf(&self) -> bool {
        match self {
            ExpressionType::Extension(s) => !ExpressionType::is_known_text(s@),
            _ => true,
        }
    }

    /// The literal wire string: a known constant's fixed text, or the
    /// extension's stored text, with no canonicalization.
    pub fn as_bytes(&self) -> (r: &[u8])
        ensures
            r@ == self.wire_spec(),
    {
        match self {
            ExpressionType::Sql => t_sql(),
            ExpressionType::Extension(s) => s.as_slice(),
        }
    }

    /// Decode a wire string: a known constant on a case-sensitive match,
    /// otherwise the extension holding the text verbatim.
    pub fn from_bytes(s: &[u8]) -> (r: Self)
        ensures
            r.wire_spec() == s@,
            (r is Extension) == !ExpressionType::is_known_text(s@),
            r.wf(),
    {
        if eq_bytes(s, t_sql()) {
            ExpressionType::Sql
        } else {
            ExpressionType::Extension(bytes_to_vec(s))
        }
    }
}

/// A input compression selector: known wire constants plus the open extension.
#[derive(Debug, Clone, PartialEq, Eq)]
pub enum CompressionType {
    NoCompression,
    Gzip,
    Bzip2,
    /// An unrecognized wire string, kept verbatim.
    Extension(Vec<u8>),
}

impl CompressionType {
    /// The wire string this value serializes to.
    pub open spec fn wire_spec(&self) -> Seq<u8> {
        match self {
            CompressionType::NoCompression => n_none_upper(),
            CompressionType::Gzip => n_gzip_upper(),
            CompressionType::Bzip2 => n_bzip2_upper(),
            CompressionType::Extension(s) => s@,
        }
    }

    /// Whether a wire string is one of the known constants.
    pub open spec fn is_known_text(s: Seq<u8>) -> bool {
        s == n_none_upper()
        || s == n_gzip_upper()
        || s == n_bzip2_upper()
    }

    /// Well-formed: an extension value holds only unrecognized text.
    pub open spec fn wf(&self) -> bool {
        match self {
            CompressionType::Extension(s) => !CompressionType::is_known_text(s@),
            _ => true,
        }
    }

    /// The literal wire string: a known constant's fixed text, or the
    /// extension's stored text, with no canonicalization.
    pub fn as_bytes(&self) -> (r: &[u8])
        ensures
            r@ == self.wire_spec(),
    {
        match self {
            CompressionType::NoCompression => t_none_upper(),
            CompressionType::Gzip => t_gzip_upper(),
            CompressionType::Bzip2 => t_bzip2_upper(),
            CompressionType::Extension(s) => s.as_slice(),
        }
    }

    /// Decode a wire string: a known constant on a case-sensitive match,
    /// otherwise the extension holding the text verbatim.
    pub fn from_bytes(s: &[u8]) -> (r: Self)
        ensures
            r.wire_spec() == s@,
            (r is Extension) == !CompressionType::is_known_text(s@),
            r.wf(),
    {
        if eq_bytes(s, t_none_upper()) {
            CompressionType::NoCompression
        } else if eq_bytes(s, t_gzip_upper()) {
            CompressionType::Gzip
        } else if eq_bytes(s, t_bzip2_upper()) {
            CompressionType::Bzip2
        } else {
            CompressionType::Extension(bytes_to_vec(s))
        }
    }
}

/// A CSV header handling selector: known wire constants plus the open extension.
#[derive(Debug, Clone, PartialEq, Eq)]
pub enum FileHeaderInfo {
    NoHeaderLine,
    Use,
    Ignore,
    /// An unrecognized wire string, kept verbatim.
    Extension(Vec<u8>),
}

impl FileHeaderInfo {
    /// The wire string this value serializes to.
    pub open spec fn wire_spec(&self) -> Seq<u8> {
        match self {
            FileHeaderInfo::NoHeaderLine => n_none_upper(),
            FileHeaderInfo::Use => n_use_upper(),
            FileHeaderInfo::Ignore => n_ignore_upper(),
            FileHeaderInfo::Extension(s) => s@,
        }
    }

    /// Whether a wire string is one of the known constants.
    pub open spec fn is_known_text(s: Seq<u8>) -> bool {
        s == n_none_upper()
        || s == n_use_upper()
        || s == n_ignore_upper()
    }

    /// Well-formed: an extension value holds only unrecognized text.
    pub open spec fn wf(&self) -> bool {
        match self {
            FileHeaderInfo::Extension(s) => !FileHeaderInfo::is_known_text(s@),
            _ => true,
        }
    }

    /// The literal wire string: a known constant's fixed text, or the
    /// extension's stored text, with no canonicalization.
    pub fn as_bytes(&self) -> (r: &[u8])
        ensures
            r@ == self.wire_spec(),
    {
        match self {
            FileHeaderInfo::NoHeaderLine => t_none_upper(),
            FileHeaderInfo::Use => t_use_upper(),
            FileHeaderInfo::Ignore => t_ignore_upper(),
            FileHeaderInfo::Extension(s) => s.as_slice(),
        }
    }

    /// Decode a wire string: a known constant on a case-sensitive match,
    /// otherwise the extension holding the text verbatim.
    pub fn from_bytes(s: &[u8]) -> (r: Self)
        ensures
            r.wire_spec() == s@,
            (r is Extension) == !FileHeaderInfo::is_known_text(s@),
            r.wf(),
    {
        if eq_bytes(s, t_none_upper()) {
            FileHeaderInfo::NoHeaderLine
        } else if eq_bytes(s, t_use_upper()) {
            FileHeaderInfo::Use
        } else if eq_bytes(s, t_ignore_upper()) {
            FileHeaderInfo::Ignore
        } else {
            FileHeaderInfo::Extension(bytes_to_vec(s))
        }
    }
}

/// A CSV output quoting selector: known wire constants plus the open extension.
#[derive(Debug, Clone, PartialEq, Eq)]
pub enum QuoteFields {
    Always,
    AsNeeded,
    /// An unrecognized wire string, kept verbatim.
    Extension(Vec<u8>),
}

impl QuoteFields {
    /// The wire string this value serializes to.
    pub open spec fn wire_spec(&self) -> Seq<u8> {
        match self {
            QuoteFields::Always => n_always_upper(),
            QuoteFields::AsNeeded => n_asneeded_upper(),
            QuoteFields::Extension(s) => s@,
        }
    }

    /// Whether a wire string is one of the known constants.
    pub open spec fn is_known_text(s: Seq<u8>) -> bool {
        s == n_always_upper()
        || s == n_asneeded_upper()
    }

    /// Well-formed: an extension value holds only unrecognized text.
    pub open spec fn wf(&self) -> bool {
        match self {
            QuoteFields::Extension(s) => !QuoteFields::is_known_text(s@),
            _ => true,
        }
    }

    /// The literal wire string: a known constant's fixed text, or the
    /// extension's stored text, with no canonicalization.
    pub fn as_bytes(&self) -> (r: &[u8])
        ensures
            r@ == self.wire_spec(),
    {
        match self {
            QuoteFields::Always => t_always_upper(),
            QuoteFields::AsNeeded => t_asneeded_upper(),
            QuoteFields::Extension(s) => s.as_slice(),
        }
    }

    /// Decode a wire string: a known constant on a case-sensitive match,
    /// otherwise the extension holding the text verbatim.
    pub fn from_bytes(s: &[u8]) -> (r: Self)
        ensures
            r.wire_spec() == s@,
            (r is Extension) == !QuoteFields::is_known_text(s@),
            r.wf(),
    {
        if eq_bytes(s, t_always_upper()) {
            QuoteFields::Always
        } else if eq_bytes(s, t_asneeded_upper()) {
            QuoteFields::AsNeeded
        } else {
            QuoteFields::Extension(bytes_to_vec(s))
        }
    }
}

/// A JSON document structure selector: known wire constants plus the open extension.
#[derive(Debug, Clone, PartialEq, Eq)]
pub enum JSONType {
    Document,
    Lines,
    /// An unrecognized wire string, kept verbatim.
    Extension(Vec<u8>),
}

impl JSONType {
    /// The wire string this value serializes to.
    pub open spec fn wire_spec(&self) -> Seq<u8> {
        match self {
            JSONType::Document => n_document_upper(),
            JSONType::Lines => n_lines_upper(),
            JSONType::Extension(s) => s@,
        }
    }

    /// Whether a wire string is one of the known constants.
    pub open spec fn is_known_text(s: Seq<u8>) -> bool {
        s == n_document_upper()
        || s == n_lines_upper()
    }

    /// Well-formed: an extension value holds only unrecognized text.
    pub open spec fn wf(&self) -> bool {
        match self {
            JSONType::Extension(s) => !JSONType::is_known_text(s@),
            _ => true,
        }
    }

    /// The literal wire string: a known constant's fixed text, or the
    /// extension's stored text, with no canonicalization.
    pub fn as_bytes(&self) -> (r: &[u8])
        ensures
            r@ == self.wire_spec(),
    {
        match self {
            JSONType::Document => t_document_upper(),
            JSONType::Lines => t_lines_upper(),
            JSONType::Extension(s) => s.as_slice(),
        }
    }

    /// Decode a wire string: a known constant on a case-sensitive match,
    /// otherwise the extension holding the text verbatim.
    pub fn from_bytes(s: &[u8]) -> (r: Self)
        ensures
            r.wire_spec() == s@,
            (r is Extension) == !JSONType::is_known_text(s@),
            r.wf(),
    {
        if eq_bytes(s, t_document_upper()) {
            JSONType::Document
        } else if eq_bytes(s, t_lines_upper()) {
            JSONType::Lines
        } else {
            JSONType::Extension(bytes_to_vec(s))
        }
    }
}

/// A bucket notification event: known wire constants plus the open extension.
#[derive(Debug, Clone, PartialEq, Eq)]
pub enum Event {
    ObjectCreatedAll,
    ObjectCreatedPut,
    ObjectCreatedPost,
    ObjectCreatedCopy,
    ObjectCreatedCompleteMultipartUpload,
    ObjectRemovedAll,
    ObjectRemovedDelete,
    ObjectRemovedDeleteMarkerCreated,
    ReducedRedundancyLostObject,
    /// An unrecognized wire string, kept verbatim.
    Extension(Vec<u8>),
}

impl Event {
    /// The wire string this value serializes to.
    pub open spec fn wire_spec(&self) -> Seq<u8> {
        match self {
            Event::ObjectCreatedAll => n_ev_created_all(),
            Event::ObjectCreatedPut => n_ev_created_put(),
            Event::ObjectCreatedPost => n_ev_created_post(),
            Event::ObjectCreatedCopy => n_ev_created_copy(),
            Event::ObjectCreatedCompleteMultipartUpload => n_ev_created_cmu(),
            Event::ObjectRemovedAll => n_ev_removed_all(),
            Event::ObjectRemovedDelete => n_ev_removed_delete(),
            Event::ObjectRemovedDeleteMarkerCreated => n_ev_removed_dmc(),
            Event::ReducedRedundancyLostObject => n_ev_rr_lost(),
            Event::Extension(s) => s@,
        }
    }

    /// Whether a wire string is one of the known constants.
    pub open spec fn is_known_text(s: Seq<u8>) -> bool {
        s == n_ev_created_all()
        || s == n_ev_created_put()
        || s == n_ev_created_post()
        || s == n_ev_created_copy()
        || s == n_ev_created_cmu()
        || s == n_ev_removed_all()
        || s == n_ev_removed_delete()
        || s == n_ev_removed_dmc()
        || s == n_ev_rr_lost()
    }

    /// Well-formed: an extension value holds only unrecognized text.
    pub open spec fn wf(&self) -> bool {
        match self {
            Event::Extension(s) => !Event::is_known_text(s@),
            _ => true,
        }
    }

    /// The literal wire string: a known constant's fixed text, or the
    /// extension's stored text, with no canonicalization.
    pub fn as_bytes(&self) -> (r: &[u8])
        ensures
            r@ == self.wire_spec(),
    {
        match self {
            Event::ObjectCreatedAll => t_ev_created_all(),
            Event::ObjectCreatedPut => t_ev_created_put(),
            Event::ObjectCreatedPost => t_ev_created_post(),
            Event::ObjectCreatedCopy => t_ev_created_copy(),
            Event::ObjectCreatedCompleteMultipartUpload => t_ev_created_cmu(),
            Event::ObjectRemovedAll => t_ev_removed_all(),
            Event::ObjectRemovedDelete => t_ev_removed_delete(),
            Event::ObjectRemovedDeleteMarkerCreated => t_ev_removed_dmc(),
            Event::ReducedRedundancyLostObject => t_ev_rr_lost(),
            Event::Extension(s) => s.as_slice(),
        }
    }

    /// Decode a wire string: a known constant on a case-sensitive match,
    /// otherwise the extension holding the text verbatim.
    pub fn from_bytes(s: &[u8]) -> (r: Self)
        ensures
            r.wire_spec() == s@,
            (r is Extension) == !Event::is_known_text(s@),
            r.wf(),
    {
        if eq_bytes(s, t_ev_created_all()) {
            Event::ObjectCreatedAll
        } else if eq_bytes(s, t_ev_created_put()) {
            Event::ObjectCreatedPut
        } else if eq_bytes(s, t_ev_created_post()) {
            Event::ObjectCreatedPost
        } else if eq_bytes(s, t_ev_created_copy()) {
            Event::ObjectCreatedCopy
        } else if eq_bytes(s, t_ev_created_cmu()) {
            Event::ObjectCreatedCompleteMultipartUpload
        } else if eq_bytes(s, t_ev_removed_all()) {
            Event::ObjectRemovedAll
        } else if eq_bytes(s, t_ev_removed_delete()) {
            Event::ObjectRemovedDelete
        } else if eq_bytes(s, t_ev_removed_dmc()) {
            Event::ObjectRemovedDeleteMarkerCreated
        } else if eq_bytes(s, t_ev_rr_lost()) {
            Event::ReducedRedundancyLostObject
        } else {
            Event::Extension(bytes_to_vec(s))
        }
    }
}

impl BucketLocationConstraint {
    /// Whether two values agree as enumerated values: same wire string and
    /// the same side of the known/extension split.
    pub open spec fn same_as(&self, other: &BucketLocationConstraint) -> bool {
        self.wire_spec() == other.wire_spec() && ((self is Extension) <==> (other is Extension))
    }
}

/// A known constant's wire string is in the closed set.
pub proof fn lemma_bucketlocationconstraint_known(e: BucketLocationConstraint)
    ensures
        !(e is Extension) ==> BucketLocationConstraint::is_known_text(e.wire_spec()),
{
}

impl ExpressionType {
    /// Whether two values agree as enumerated values: same wire string and
    /// the same side of the known/extension split.
    pub open spec fn same_as(&self, other: &ExpressionType) -> bool {
        self.wire_spec() == other.wire_spec() && ((self is Extension) <==> (other is Extension))
    }
}

/// A known constant's wire string is in the closed set.
pub proof fn lemma_expressiontype_known(e: ExpressionType)
    ensures
        !(e is Extension) ==> ExpressionType::is_known_text(e.wire_spec()),
{
}

impl CompressionType {
    /// Whether two values agree as enumerated values: same wire string and
    /// the same side of the known/extension split.
    pub open spec fn same_as(&self, other: &CompressionType) -> bool {
        self.wire_spec() == other.wire_spec() && ((self is Extension) <==> (other is Extension))
    }
}

/// A known constant's wire string is in the closed set.
pub proof fn lemma_compressiontype_known(e: CompressionType)
    ensures
        !(e is Extension) ==> CompressionType::is_known_text(e.wire_spec()),
{
}

impl FileHeaderInfo {
    /// Whether two values agree as enumerated values: same wire string and
    /// the same side of the known/extension split.
    pub open spec fn same_as(&self, other: &FileHeaderInfo) -> bool {
        self.wire_spec() == other.wire_spec() && ((self is Extension) <==> (other is Extension))
    }
}

/// A known constant's wire string is in the closed set.
pub proof fn lemma_fileheaderinfo_known(e: FileHeaderInfo)
    ensures
        !(e is Extension) ==> FileHeaderInfo::is_known_text(e.wire_spec()),
{
}

impl QuoteFields {
    /// Whether two values agree as enumerated values: same wire string and
    /// the same side of the known/extension split.
    pub open spec fn same_as(&self, other: &QuoteFields) -> bool {
        self.wire_spec() == other.wire_spec() && ((self is Extension) <==> (other is Extension))
    }
}

/// A known constant's wire string is in the closed set.
pub proof fn lemma_quotefields_known(e: QuoteFields)
    ensures
        !(e is Extension) ==> QuoteFields::is_known_text(e.wire_spec()),
{
}

impl JSONType {
    /// Whether two values agree as enumerated values: same wire string and
    /// the same side of the known/extension split.
    pub open spec fn same_as(&self, other: &JSONType) -> bool {
        self.wire_spec() == other.wire_spec() && ((self is Extension) <==> (other is Extension))
    }
}

/// A known constant's wire string is in the closed set.
pub proof fn lemma_jsontype_known(e: JSONType)
    ensures
        !(e is Extension) ==> JSONType::is_known_text(e.wire_spec()),
{
}

impl Event {
    /// Whether two values agree as enumerated values: same wire string and
    /// the same side of the known/extension split.
    pub open spec fn same_as(&self, other: &Event) -> bool {
        self.wire_spec() == other.wire_spec() && ((self is Extension) <==> (other is Extension))
    }
}

/// A known constant's wire string is in the closed set.
pub proof fn lemma_event_known(e: Event)
    ensures
        !(e is Extension) ==> Event::is_known_text(e.wire_spec()),
{
}

} // verus!
