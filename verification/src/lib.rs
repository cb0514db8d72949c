//! Wire-format core of an S3-compatible storage protocol: a schema-driven,
//! bidirectional codec between typed operation values and the XML document
//! bodies the S3 REST protocol exchanges, together with the error-code
//! taxonomy that classifies failures and maps them to HTTP status lines.
//!
//! The codec engine is `ser` and `de` over the byte-level text handling in
//! `text` and `num`; `types` and `enums` give each operation value its
//! schema-declared mapping; `error_code` and `error_doc` are the error
//! taxonomy, its table built from the service documentation; `names` holds
//! the wire byte strings, and `utf8` a verified text-validity check.

pub mod de;
pub mod enums;
pub mod error_code;
pub mod error_doc;
pub mod names;
pub mod num;
pub mod ser;
pub mod text;
pub mod types;
pub mod utf8;
