use s3_wire::de::{DeError, DeResult, Deserialize, DeserializeContent, Deserializer};
use s3_wire::enums::{BucketLocationConstraint, CompressionType, Event};
use s3_wire::ser::{Serialize, SerializeContent, Serializer};
use s3_wire::types::{
    CompletedMultipartUpload, CompletedPart, GetBucketLocationOutput, LifecycleExpiration,
    NotificationConfiguration, ScanRange, Tag, Tagging, TopicConfiguration,
};

fn deserialize<T: Deserialize>(input: &[u8]) -> DeResult<T> {
    let mut d = Deserializer::new(input);
    let ans = T::deserialize(&mut d)?;
    d.expect_eof()?;
    Ok(ans)
}

fn deserialize_content<T: DeserializeContent>(input: &[u8]) -> DeResult<T> {
    let mut d = Deserializer::new(input);
    let ans = T::deserialize_content(&mut d)?;
    d.expect_eof()?;
    Ok(ans)
}

fn serialize<T: Serialize>(val: &T) -> String {
    let mut ser = Serializer::new();
    val.serialize(&mut ser);
    String::from_utf8(ser.into_bytes()).unwrap()
}

fn serialize_content<T: SerializeContent>(val: &T) -> String {
    let mut ser = Serializer::new();
    val.serialize_content(&mut ser);
    String::from_utf8(ser.into_bytes()).unwrap()
}

#[test]
fn text_escaping() {
    let val = Tag {
        key: b"a&b".to_vec(),
        value: b"<\"x\">'y'".to_vec(),
    };
    let ans = serialize_content(&val);
    assert_eq!(
        ans,
        "<Key>a&amp;b</Key><Value>&lt;&quot;x&quot;&gt;&apos;y&apos;</Value>"
    );
    let back = deserialize_content::<Tag>(ans.as_bytes()).unwrap();
    assert_eq!(back, val);
}

#[test]
fn flattened_part_list_literal() {
    let val = CompletedMultipartUpload {
        parts: Some(vec![
            CompletedPart {
                checksum_crc32: None,
                checksum_crc32c: None,
                checksum_sha1: None,
                checksum_sha256: None,
                e_tag: Some(b"\"etag-one\"".to_vec()),
                part_number: Some(1),
            },
            CompletedPart {
                checksum_crc32: None,
                checksum_crc32c: None,
                checksum_sha1: None,
                checksum_sha256: None,
                e_tag: Some(b"\"etag-two\"".to_vec()),
                part_number: Some(2),
            },
            CompletedPart {
                checksum_crc32: None,
                checksum_crc32c: None,
                checksum_sha1: None,
                checksum_sha256: None,
                e_tag: Some(b"\"etag-three\"".to_vec()),
                part_number: Some(3),
            },
        ]),
    };
    // three consecutive sibling elements, each independently tagged, with no
    // enclosing wrapper; the quoted ETag values are escaped
    let expected = "<Part><ETag>&quot;etag-one&quot;</ETag><PartNumber>1</PartNumber></Part>\
<Part><ETag>&quot;etag-two&quot;</ETag><PartNumber>2</PartNumber></Part>\
<Part><ETag>&quot;etag-three&quot;</ETag><PartNumber>3</PartNumber></Part>";
    assert_eq!(serialize_content(&val), expected);

    let back = deserialize_content::<CompletedMultipartUpload>(expected.as_bytes()).unwrap();
    assert_eq!(back, val);
}

#[test]
fn trailing_content_rejected() {
    let good = "<Tagging><TagSet><Tag><Key>k</Key><Value>v</Value></Tag></TagSet></Tagging>";
    assert!(deserialize::<Tagging>(good.as_bytes()).is_ok());

    let trailing_ws = format!("{}  \n\t ", good);
    assert!(deserialize::<Tagging>(trailing_ws.as_bytes()).is_ok());

    let trailing_garbage = format!("{}x", good);
    assert_eq!(
        deserialize::<Tagging>(trailing_garbage.as_bytes()),
        Err(DeError::TrailingContent)
    );

    let trailing_element = format!("{}<Tagging></Tagging>", good);
    assert_eq!(
        deserialize::<Tagging>(trailing_element.as_bytes()),
        Err(DeError::TrailingContent)
    );
}

#[test]
fn multi_member_optional_omission() {
    // one optional member absent: its element is not emitted at all
    let val = LifecycleExpiration {
        date: Some(b"2019-08-24T00:00:00Z".to_vec()),
        days: None,
        expired_object_delete_marker: Some(false),
    };
    assert_eq!(
        serialize_content(&val),
        "<Date>2019-08-24T00:00:00Z</Date><ExpiredObjectDeleteMarker>false</ExpiredObjectDeleteMarker>"
    );

    let none = LifecycleExpiration {
        date: None,
        days: None,
        expired_object_delete_marker: None,
    };
    assert_eq!(serialize_content(&none), "");
}

#[test]
fn integer_members() {
    let val = ScanRange {
        start: Some(0),
        end: Some(9007199254740991),
    };
    assert_eq!(
        serialize_content(&val),
        "<Start>0</Start><End>9007199254740991</End>"
    );
    let back = deserialize_content::<ScanRange>(serialize_content(&val).as_bytes()).unwrap();
    assert_eq!(back, val);

    let bad = "<Days>36x5</Days>";
    assert_eq!(
        deserialize_content::<LifecycleExpiration>(bad.as_bytes()),
        Err(DeError::InvalidContent)
    );

    let too_big = "<Days>4294967296</Days>";
    assert_eq!(
        deserialize_content::<LifecycleExpiration>(too_big.as_bytes()),
        Err(DeError::InvalidContent)
    );

    let negative = "<Days>-30</Days>";
    let parsed = deserialize_content::<LifecycleExpiration>(negative.as_bytes()).unwrap();
    assert_eq!(parsed.days, Some(-30));
}

#[test]
fn boolean_members() {
    for (text, value) in [
        ("true", true),
        ("TRUE", true),
        ("True", true),
        ("false", false),
        ("FALSE", false),
        ("False", false),
    ] {
        let xml = format!("<ExpiredObjectDeleteMarker>{}</ExpiredObjectDeleteMarker>", text);
        let parsed = deserialize_content::<LifecycleExpiration>(xml.as_bytes()).unwrap();
        assert_eq!(parsed.expired_object_delete_marker, Some(value));
    }
    let bad = "<ExpiredObjectDeleteMarker>yes</ExpiredObjectDeleteMarker>";
    assert_eq!(
        deserialize_content::<LifecycleExpiration>(bad.as_bytes()),
        Err(DeError::InvalidContent)
    );
}

#[test]
fn enum_extension_fidelity() {
    // an unrecognized constant decodes to the extension holding the exact
    // text, and re-encodes byte-identically
    let xml = "<LocationConstraint>moon-base-1</LocationConstraint>";
    let val = deserialize::<GetBucketLocationOutput>(xml.as_bytes()).unwrap();
    assert_eq!(
        val.location_constraint,
        Some(BucketLocationConstraint::Extension(b"moon-base-1".to_vec()))
    );
    assert_eq!(serialize(&val), xml);

    // a known constant and an extension holding the same text serialize to
    // the identical wire string but do not compare equal
    let known = BucketLocationConstraint::UsWest2;
    let ext = BucketLocationConstraint::Extension(b"us-west-2".to_vec());
    assert_eq!(known.as_bytes(), ext.as_bytes());
    assert_ne!(known, ext);

    // decoding a known constant's text yields the known variant
    let xml2 = "<LocationConstraint>eu-central-1</LocationConstraint>";
    let val2 = deserialize::<GetBucketLocationOutput>(xml2.as_bytes()).unwrap();
    assert_eq!(
        val2.location_constraint,
        Some(BucketLocationConstraint::EuCentral1)
    );

    assert_eq!(CompressionType::from_bytes(b"GZIP"), CompressionType::Gzip);
    assert_eq!(
        CompressionType::from_bytes(b"ZSTD"),
        CompressionType::Extension(b"ZSTD".to_vec())
    );
}

#[test]
fn namespace_emitted_and_discarded() {
    let val = Tagging {
        tag_set: vec![Tag {
            key: b"k".to_vec(),
            value: b"v".to_vec(),
        }],
    };
    let ans = serialize(&val);
    assert_eq!(
        ans,
        "<Tagging xmlns=\"http://s3.amazonaws.com/doc/2006-03-01/\"><TagSet><Tag><Key>k</Key><Value>v</Value></Tag></TagSet></Tagging>"
    );
    let back = deserialize::<Tagging>(ans.as_bytes()).unwrap();
    assert_eq!(back, val);
}

#[test]
fn unknown_members_skipped() {
    let xml = "<Tagging><Owner><ID>abc</ID></Owner><TagSet><Tag><Key>k</Key><Mystery/><Value>v</Value></Tag></TagSet><Extra>text</Extra></Tagging>";
    let val = deserialize::<Tagging>(xml.as_bytes()).unwrap();
    assert_eq!(val.tag_set.len(), 1);
    assert_eq!(val.tag_set[0].key, b"k".to_vec());
    assert_eq!(val.tag_set[0].value, b"v".to_vec());
}

#[test]
fn required_member_missing() {
    let xml = "<Tagging><TagSet><Tag><Key>k</Key></Tag></TagSet></Tagging>";
    assert_eq!(
        deserialize::<Tagging>(xml.as_bytes()),
        Err(DeError::MissingField)
    );

    let no_set = "<Tagging></Tagging>";
    assert_eq!(
        deserialize::<Tagging>(no_set.as_bytes()),
        Err(DeError::MissingField)
    );
}

#[test]
fn self_closing_with_attributes() {
    let xml = "<Tagging><TagSet><Tag foo=\"b>ar\" baz='q'><Key>k</Key><Value>v</Value></Tag></TagSet></Tagging>";
    let val = deserialize::<Tagging>(xml.as_bytes()).unwrap();
    assert_eq!(val.tag_set[0].key, b"k".to_vec());

    let empty = "<NotificationConfiguration />";
    let val = deserialize::<NotificationConfiguration>(empty.as_bytes()).unwrap();
    assert_eq!(val, NotificationConfiguration::default());
}

#[test]
fn notification_configuration_round_trip() {
    let val = NotificationConfiguration {
        event_bridge_configuration: None,
        lambda_function_configurations: None,
        queue_configurations: None,
        topic_configurations: Some(vec![TopicConfiguration {
            id: Some(b"t1".to_vec()),
            topic_arn: b"arn:aws:sns:us-west-2:123:topic".to_vec(),
            events: vec![
                Event::ObjectCreatedAll,
                Event::Extension(b"s3:ObjectRestore:Completed".to_vec()),
            ],
        }]),
    };
    let xml = serialize(&val);
    let back = deserialize::<NotificationConfiguration>(xml.as_bytes()).unwrap();
    assert_eq!(back, val);
}

#[test]
fn malformed_documents_rejected() {
    assert!(deserialize::<Tagging>(b"").is_err());
    assert!(deserialize::<Tagging>(b"  \n ").is_err());
    assert!(deserialize::<Tagging>(b"<Tagging><TagSet>").is_err());
    assert!(deserialize::<Tagging>(b"<Wrong></Wrong>").is_err());
    assert!(deserialize::<Tagging>(b"garbage").is_err());
    let bad_entity =
        b"<Tagging><TagSet><Tag><Key>a&unknown;b</Key><Value>v</Value></Tag></TagSet></Tagging>";
    assert_eq!(
        deserialize::<Tagging>(bad_entity),
        Err(DeError::InvalidContent)
    );
}

#[test]
fn members_accepted_in_any_order() {
    // S3 XML bodies are not guaranteed ordered: decode accepts members in any
    // order, while encode follows the schema's declared member order
    let reordered = "<Tagging><TagSet><Tag><Value>v</Value><Key>k</Key></Tag></TagSet></Tagging>";
    let val = deserialize::<Tagging>(reordered.as_bytes()).unwrap();
    assert_eq!(val.tag_set[0].key, b"k".to_vec());
    assert_eq!(val.tag_set[0].value, b"v".to_vec());
    assert_eq!(
        serialize_content(&val),
        "<TagSet><Tag><Key>k</Key><Value>v</Value></Tag></TagSet>"
    );
}

#[test]
fn empty_required_wrapped_list() {
    // an empty wrapped list of a required member still emits the wrapper
    let val = Tagging { tag_set: vec![] };
    assert_eq!(serialize_content(&val), "<TagSet></TagSet>");
    let back = deserialize::<Tagging>(serialize(&val).as_bytes()).unwrap();
    assert_eq!(back, val);
}

#[test]
fn serializer_appends_to_supplied_buffer() {
    let buf = b"prefix:".to_vec();
    let mut ser = Serializer::with_buffer(buf);
    let val = GetBucketLocationOutput {
        location_constraint: Some(BucketLocationConstraint::Eu),
    };
    val.serialize(&mut ser);
    assert_eq!(
        ser.into_bytes(),
        b"prefix:<LocationConstraint>EU</LocationConstraint>".to_vec()
    );
}
