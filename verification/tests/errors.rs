use s3_wire::de::{DeResult, Deserializer};
use s3_wire::error_code::{ErrorEnvelope, ErrorTable, S3ErrorCode};
use s3_wire::error_doc::{collect_errors, patch_extra_errors, status_const_name, BuildError};
use s3_wire::ser::{Serialize, Serializer};

fn serialize_envelope(val: &ErrorEnvelope) -> String {
    let mut ser = Serializer::new();
    val.serialize(&mut ser);
    String::from_utf8(ser.into_bytes()).unwrap()
}

fn deserialize_envelope(table: &ErrorTable, input: &[u8]) -> DeResult<ErrorEnvelope> {
    let mut d = Deserializer::new(input);
    let ans = ErrorEnvelope::deserialize_with(table, &mut d)?;
    d.expect_eof()?;
    Ok(ans)
}

const DOC: &str = "\
<i>Code:</i> AccessDenied</p>
<i>Description:</i> Access denied.</p>
<i>HTTP Status Code:</i> 403 Forbidden</p>
<i>SOAP Fault Code Prefix:</i> Client</p>
<i>Code:</i> BucketNotEmpty</p>
<i>Description:</i> The bucket that you tried to delete
is not empty.</p>
<i>HTTP Status Code:</i> 409 Conflict</p>
<i>SOAP Fault Code Prefix:</i> Client</p>
<i>Code:</i> InvalidBucketState</p>
<i>Description:</i> The request is not valid for the current state of the bucket.</p>
<i>Code:</i> 409 Conflict</p>
<i>SOAP Fault Code Prefix:</i> Client</p>
<i>Code:</i> AccountProblem</p>
<i>Description:</i> There is a problem with your account.</p>
<i>HTTP Status Code:</i> N/A</p>
<i>SOAP Fault Code Prefix:</i> Client</p>
<i>Code:</i> SlowDown</p>
<i>Description:</i> Reduce your request rate.</p>
<i>HTTP Status Code:</i> 503 Slow Down</p>
<i>SOAP Fault Code Prefix:</i> Server</p>
";

fn lookup<'a>(table: &'a ErrorTable, code: &[u8]) -> Option<&'a s3_wire::error_code::ErrorEntry> {
    table.entries.iter().find(|e| e.code == code)
}

#[test]
fn table_from_documentation() {
    let table = collect_errors(DOC.as_bytes()).unwrap();

    let access = lookup(&table, b"AccessDenied").unwrap();
    assert_eq!(access.status, Some(403));
    assert_eq!(access.descriptions.len(), 1);
    assert_eq!(access.descriptions[0], b"Access denied.".to_vec());

    // a description spanning lines is joined with single spaces
    let not_empty = lookup(&table, b"BucketNotEmpty").unwrap();
    assert_eq!(
        not_empty.descriptions[0],
        b"The bucket that you tried to delete is not empty.".to_vec()
    );
    assert_eq!(not_empty.status, Some(409));

    // the irregular status documented under a `Code:` label
    let bucket_state = lookup(&table, b"InvalidBucketState").unwrap();
    assert_eq!(bucket_state.status, Some(409));
    assert_eq!(bucket_state.status_text.as_deref(), Some(&b"409 Conflict"[..]));

    // the N/A sentinel: no default status
    let account = lookup(&table, b"AccountProblem").unwrap();
    assert_eq!(account.status, None);
    assert_eq!(account.status_text, None);

    // the patch list adds the undocumented replication code with its 404
    let repl = lookup(&table, b"ReplicationConfigurationNotFoundError").unwrap();
    assert_eq!(repl.status, Some(404));
    assert_eq!(
        repl.descriptions[0],
        b"There is no replication configuration for this bucket.".to_vec()
    );
}

#[test]
fn error_code_collapse() {
    // the same code repeated with several description blocks but one status
    // collapses to exactly one entry holding both descriptions
    let doc = "\
<i>Code:</i> InvalidRequest</p>
<i>Description:</i> Please use AWS4-HMAC-SHA256.</p>
<i>HTTP Status Code:</i> 400 Bad Request</p>
<i>SOAP Fault Code Prefix:</i> Client</p>
<i>Code:</i> InvalidRequest</p>
<i>Description:</i> Amazon S3 Transfer Acceleration is not supported on this bucket.</p>
<i>HTTP Status Code:</i> 400 Bad Request</p>
<i>SOAP Fault Code Prefix:</i> Client</p>
";
    let table = collect_errors(doc.as_bytes()).unwrap();
    let matching: Vec<_> = table
        .entries
        .iter()
        .filter(|e| e.code == b"InvalidRequest")
        .collect();
    assert_eq!(matching.len(), 1);
    assert_eq!(matching[0].descriptions.len(), 2);
    assert_eq!(matching[0].status, Some(400));

    // a repeat with an inconsistent status fails table construction
    let bad = "\
<i>Code:</i> InvalidRequest</p>
<i>Description:</i> Please use AWS4-HMAC-SHA256.</p>
<i>HTTP Status Code:</i> 400 Bad Request</p>
<i>SOAP Fault Code Prefix:</i> Client</p>
<i>Code:</i> InvalidRequest</p>
<i>Description:</i> Another description.</p>
<i>HTTP Status Code:</i> 403 Forbidden</p>
<i>SOAP Fault Code Prefix:</i> Client</p>
";
    assert_eq!(
        collect_errors(bad.as_bytes()),
        Err(BuildError::InconsistentStatus)
    );

    // a repeat of a code that carries no status fails too
    let bad2 = "\
<i>Code:</i> AccountProblem</p>
<i>HTTP Status Code:</i> N/A</p>
<i>SOAP Fault Code Prefix:</i> Client</p>
<i>Code:</i> AccountProblem</p>
<i>HTTP Status Code:</i> N/A</p>
<i>SOAP Fault Code Prefix:</i> Client</p>
";
    assert_eq!(
        collect_errors(bad2.as_bytes()),
        Err(BuildError::InconsistentStatus)
    );
}

#[test]
fn malformed_documentation_rejected() {
    // a record the input ends inside is a hard failure
    let truncated = "\
<i>Code:</i> AccessDenied</p>
<i>Description:</i> Access denied.</p>
";
    assert!(collect_errors(truncated.as_bytes()).is_err());

    // a status that is not a three-digit status line
    let bad_status = "\
<i>Code:</i> AccessDenied</p>
<i>Description:</i> Access denied.</p>
<i>HTTP Status Code:</i> Forbidden</p>
<i>SOAP Fault Code Prefix:</i> Client</p>
";
    assert_eq!(
        collect_errors(bad_status.as_bytes()),
        Err(BuildError::BadStatusText)
    );
}

#[test]
fn unknown_code_resolution() {
    let table = collect_errors(DOC.as_bytes()).unwrap();

    let known = table.resolve(b"AccessDenied").unwrap();
    assert_eq!(known, S3ErrorCode::Known(b"AccessDenied".to_vec()));
    assert_eq!(table.status_of(&known), Some(403));

    // an arbitrary byte string not in the closed set becomes an extension
    // identifier with no status
    let unknown = table.resolve(b"TotallyMadeUpCode").unwrap();
    assert_eq!(unknown, S3ErrorCode::Custom(b"TotallyMadeUpCode".to_vec()));
    assert_eq!(table.status_of(&unknown), None);

    // and it re-serializes in an <Error><Code> element unchanged
    let envelope = ErrorEnvelope {
        code: unknown,
        message: Some(b"no such code".to_vec()),
        key: None,
        version_id: None,
    };
    let xml = serialize_envelope(&envelope);
    assert_eq!(
        xml,
        "<Error><Code>TotallyMadeUpCode</Code><Message>no such code</Message></Error>"
    );
    let back = deserialize_envelope(&table, xml.as_bytes()).unwrap();
    assert_eq!(back, envelope);

    // a known code carries no status by itself when the table gave it none
    let na = table.resolve(b"AccountProblem").unwrap();
    assert_eq!(table.status_of(&na), None);

    // bytes that are not valid text have no identifier
    assert_eq!(table.resolve(&[0xff, 0xfe, 0x41]), None);
    // while valid multi-byte text is accepted
    assert!(table.resolve("code-\u{00e9}".as_bytes()).is_some());
}

#[test]
fn error_envelope_round_trip() {
    let table = collect_errors(DOC.as_bytes()).unwrap();
    let envelope = ErrorEnvelope {
        code: S3ErrorCode::Known(b"BucketNotEmpty".to_vec()),
        message: Some(b"The bucket you tried to delete is not empty".to_vec()),
        key: Some(b"some/object \"key\"".to_vec()),
        version_id: Some(b"3/L4kqtJlcpXroDTDmJ".to_vec()),
    };
    let xml = serialize_envelope(&envelope);
    let back = deserialize_envelope(&table, xml.as_bytes()).unwrap();
    assert_eq!(back, envelope);
}

#[test]
fn patch_extra_errors_inserts() {
    let mut table = ErrorTable::new();
    patch_extra_errors(&mut table);
    assert_eq!(table.entries.len(), 1);
    assert_eq!(
        table.entries[0].code,
        b"ReplicationConfigurationNotFoundError".to_vec()
    );
    assert_eq!(table.entries[0].status, Some(404));

    // patching twice replaces, never duplicates
    patch_extra_errors(&mut table);
    assert_eq!(table.entries.len(), 1);
}

#[test]
fn status_constant_names() {
    assert_eq!(
        status_const_name(b"404 Not Found").unwrap(),
        b"NOT_FOUND".to_vec()
    );
    assert_eq!(
        status_const_name(b"400 Bad Request").unwrap(),
        b"BAD_REQUEST".to_vec()
    );
    // the three irregular phrasings map to fixed names
    assert_eq!(
        status_const_name(b"307 Moved Temporarily").unwrap(),
        b"TEMPORARY_REDIRECT".to_vec()
    );
    assert_eq!(
        status_const_name(b"416 Requested Range NotSatisfiable").unwrap(),
        b"RANGE_NOT_SATISFIABLE".to_vec()
    );
    assert_eq!(
        status_const_name(b"503 Slow Down").unwrap(),
        b"SERVICE_UNAVAILABLE".to_vec()
    );
    // an irregular phrasing under the wrong status number is refused
    assert_eq!(
        status_const_name(b"403 Slow Down"),
        Err(BuildError::BadStatusText)
    );
    assert_eq!(
        status_const_name(b"Forbidden"),
        Err(BuildError::BadStatusText)
    );
}
