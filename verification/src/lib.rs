//! The `MIME-Version` header field of RFC 2045: a typed version number,
//! its textual form on the wire, and the conversions between the two.

pub mod decimal;
pub mod encoding;
pub mod header;
pub mod raw;
pub mod version;

pub use header::ParseError;
pub use version::MimeVersion;
