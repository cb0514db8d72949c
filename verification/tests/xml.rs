use s3_wire::de::{DeResult, Deserialize, DeserializeContent, Deserializer};
use s3_wire::ser::{Serialize, SerializeContent, Serializer};
use s3_wire::types::{
    CompletedMultipartUpload, GetBucketLocationOutput, GetBucketNotificationConfigurationOutput,
    LifecycleExpiration, NotificationConfiguration, SelectObjectContentRequest, Tagging,
};
use s3_wire::enums::BucketLocationConstraint;

use std::fmt;

fn deserialize_content<T: DeserializeContent>(input: &[u8]) -> DeResult<T> {
    let mut d = Deserializer::new(input);
    let ans = T::deserialize_content(&mut d)?;
    d.expect_eof()?;
    Ok(ans)
}

fn deserialize<T: Deserialize>(input: &[u8]) -> DeResult<T> {
    let mut d = Deserializer::new(input);
    let ans = T::deserialize(&mut d)?;
    d.expect_eof()?;
    Ok(ans)
}

fn serialize_content<T: SerializeContent>(val: &T) -> String {
    let mut ser = Serializer::new();
    val.serialize_content(&mut ser);
    String::from_utf8(ser.into_bytes()).unwrap()
}

fn serialize<T: Serialize>(val: &T) -> String {
    let mut ser = Serializer::new();
    val.serialize(&mut ser);
    String::from_utf8(ser.into_bytes()).unwrap()
}

fn test_serde<T>(val: &T)
where
    T: Deserialize,
    T: Serialize,
    T: fmt::Debug + PartialEq,
{
    let xml = serialize(val);
    let ans = deserialize::<T>(xml.as_bytes()).unwrap();
    assert_eq!(*val, ans);
}

fn test_serde_content<T>(val: &T)
where
    T: DeserializeContent,
    T: SerializeContent,
    T: fmt::Debug + PartialEq,
{
    let xml = serialize_content(val);
    let ans = deserialize_content::<T>(xml.as_bytes()).unwrap();
    assert_eq!(*val, ans);
}

#[test]
fn completed_multipart_upload() {
    let input = r#"
        <CompleteMultipartUpload>
            <Part>
                <PartNumber>1</PartNumber>
                <ETag>"a54357aff0632cce46d942af68356b38"</ETag>
            </Part>
            <Part>
                <PartNumber>2</PartNumber>
                <ETag>"0c78aef83f66abc1fa1e8477f296d394"</ETag>
            </Part>
            <Part>
                <PartNumber>3</PartNumber>
                <ETag>"acbd18db4cc2f85cedef654fccc4a4d8"</ETag>
            </Part>
        </CompleteMultipartUpload>
    "#;

    let ans = deserialize::<CompletedMultipartUpload>(input.as_bytes()).unwrap();

    let parts = ans.parts.as_deref().unwrap();
    assert_eq!(parts.len(), 3);

    assert_eq!(parts[0].part_number, Some(1));
    assert_eq!(
        parts[0].e_tag.as_deref(),
        Some(&b"\"a54357aff0632cce46d942af68356b38\""[..])
    );

    assert_eq!(parts[1].part_number, Some(2));
    assert_eq!(
        parts[1].e_tag.as_deref(),
        Some(&b"\"0c78aef83f66abc1fa1e8477f296d394\""[..])
    );

    assert_eq!(parts[2].part_number, Some(3));
    assert_eq!(
        parts[2].e_tag.as_deref(),
        Some(&b"\"acbd18db4cc2f85cedef654fccc4a4d8\""[..])
    );

    test_serde(&ans);
}

#[test]
fn select_object_content_request() {
    {
        let input = r#"
        <SelectObjectContentRequest xmlns="http://s3.amazonaws.com/doc/2006-03-01/">
            <Expression>select * from s3object</Expression>
            <ExpressionType>SQL</ExpressionType>
            <InputSerialization>
                <CompressionType>NONE</CompressionType>
                <CSV>
                    <AllowQuotedRecordDelimiter>FALSE</AllowQuotedRecordDelimiter>
                    <Comments>#</Comments>
                    <FieldDelimiter>,</FieldDelimiter>
                    <FileHeaderInfo>NONE</FileHeaderInfo>
                    <QuoteCharacter>""</QuoteCharacter>
                    <QuoteEscapeCharacter>"</QuoteEscapeCharacter>
                    <RecordDelimiter>\n</RecordDelimiter>
                </CSV>
            </InputSerialization>
            <OutputSerialization>
                <JSON>
                    <RecordDelimiter>\n</RecordDelimiter>
                </JSON>
            </OutputSerialization>
        </SelectObjectContentRequest>
    "#;

        let ans = deserialize::<SelectObjectContentRequest>(input.as_bytes()).unwrap();

        {
            let csv = ans.input_serialization.csv.as_ref().unwrap();
            assert_eq!(csv.allow_quoted_record_delimiter, Some(false));
        }

        test_serde(&ans);
    }

    {
        let input = r#"
    <SelectObjectContentRequest xmlns="http://s3.amazonaws.com/doc/2006-03-01/">
        <Expression>select * from s3object</Expression>
        <ExpressionType>SQL</ExpressionType>
        <InputSerialization>
            <CSV />
        </InputSerialization>
        <OutputSerialization>
            <CSV />
        </OutputSerialization>
        <RequestProgress>
            <Enabled>true</Enabled>
        </RequestProgress>
    </SelectObjectContentRequest>
"#;

        let ans = deserialize::<SelectObjectContentRequest>(input.as_bytes()).unwrap();

        assert!(ans.input_serialization.csv.is_some());
        assert!(ans.output_serialization.csv.is_some());

        test_serde(&ans);
    }
}

#[test]
fn tagging() {
    let input = r#"
        <Tagging xmlns="http://s3.amazonaws.com/doc/2006-03-01/">
            <TagSet>
                <Tag>
                    <Key>Key4</Key>
                    <Value>Value4</Value>
                </Tag>
            </TagSet>
        </Tagging>
    "#;

    let ans = deserialize::<Tagging>(input.as_bytes()).unwrap();

    assert_eq!(ans.tag_set.len(), 1);
    let tag = &ans.tag_set[0];
    assert_eq!(tag.key, b"Key4".to_vec());
    assert_eq!(tag.value, b"Value4".to_vec());

    test_serde(&ans);
}

#[test]
fn lifecycle_expiration() {
    let val = LifecycleExpiration {
        date: None,
        days: Some(365),
        expired_object_delete_marker: None,
    };

    let ans = serialize_content(&val);
    let expected = "<Days>365</Days>";

    assert_eq!(ans, expected);

    test_serde_content(&val);
}

#[test]
fn get_bucket_location_output() {
    {
        let us_west_2 = BucketLocationConstraint::UsWest2;
        let val = GetBucketLocationOutput {
            location_constraint: Some(us_west_2),
        };

        let ans = serialize(&val);
        let expected = "<LocationConstraint>us-west-2</LocationConstraint>";

        assert_eq!(ans, expected);

        test_serde(&val);
    }
    {
        let val = GetBucketLocationOutput {
            location_constraint: None,
        };

        let ans = serialize(&val);
        let expected = "<LocationConstraint></LocationConstraint>";

        assert_eq!(ans, expected);

        test_serde(&val);
    }
}

#[test]
fn get_bucket_notification_configuration_output() {
    let xml = "<NotificationConfiguration></NotificationConfiguration>";

    let val = deserialize::<NotificationConfiguration>(xml.as_bytes()).unwrap();
    assert_eq!(val, NotificationConfiguration::default());
    test_serde(&val);

    let val = deserialize::<GetBucketNotificationConfigurationOutput>(xml.as_bytes()).unwrap();
    assert_eq!(val, GetBucketNotificationConfigurationOutput::default());
    test_serde(&val);
}
