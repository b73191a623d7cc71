//! The field inside a `hyperx` header collection.

use hyperx::header::{Formatter, Header, Headers, Raw, RawLike};
use mime_version::{MimeVersion, ParseError};
use std::fmt::Result as FmtResult;

/// What a user of `hyperx` writes to store the field in a collection.
#[derive(Debug, Clone, Copy, PartialEq)]
struct Field(MimeVersion);

impl Header for Field {
    fn header_name() -> &'static str {
        MimeVersion::header_name()
    }

    fn parse_header<'a, T>(raw: &'a T) -> hyperx::Result<Self>
    where
        T: RawLike<'a>,
        Self: Sized,
    {
        match MimeVersion::parse_one(raw.one()) {
            Ok(version) => Ok(Field(version)),
            Err(ParseError::Malformed) => Err(hyperx::Error::Header),
        }
    }

    fn fmt_header(&self, f: &mut Formatter<'_, '_>) -> FmtResult {
        f.fmt_line(&self.0.fmt_header())
    }
}

fn lines(values: &[&str]) -> Raw {
    let owned: Vec<Vec<u8>> = values.iter().map(|v| v.as_bytes().to_vec()).collect();
    Raw::from(owned)
}

#[test]
fn format_mime_version() {
    let mut headers = Headers::new();

    headers.set(Field(MimeVersion::new(1, 0)));

    assert_eq!(format!("{}", headers), "MIME-Version: 1.0\r\n");

    headers.set(Field(MimeVersion::new(0, 1)));

    assert_eq!(format!("{}", headers), "MIME-Version: 0.1\r\n");
}

#[test]
fn parse_mime_version() {
    let mut headers = Headers::new();

    headers.set_raw("MIME-Version", "1.0");

    assert_eq!(headers.get::<Field>(), Some(&Field(MimeVersion::new(1, 0))));

    headers.set_raw("MIME-Version", "0.1");

    assert_eq!(headers.get::<Field>(), Some(&Field(MimeVersion::new(0, 1))));
}

#[test]
fn format_default_in_collection() {
    let mut headers = Headers::new();
    headers.set(Field(MimeVersion::default()));
    assert_eq!(format!("{}", headers), "MIME-Version: 1.0\r\n");
}

#[test]
fn format_largest_in_collection() {
    let mut headers = Headers::new();
    headers.set(Field(MimeVersion::new(255, 255)));
    assert_eq!(format!("{}", headers), "MIME-Version: 255.255\r\n");
}

#[test]
fn name_is_matched_without_regard_to_case() {
    let mut headers = Headers::new();
    headers.set_raw("mime-version", "1.0");
    assert_eq!(headers.get::<Field>(), Some(&Field(MimeVersion::new(1, 0))));
}

#[test]
fn malformed_value_in_collection_is_absent() {
    let mut headers = Headers::new();
    headers.set_raw("MIME-Version", "1");
    assert_eq!(headers.get::<Field>(), None);
    headers.set_raw("MIME-Version", "abc.0");
    assert_eq!(headers.get::<Field>(), None);
    headers.set_raw("MIME-Version", "256.0");
    assert_eq!(headers.get::<Field>(), None);
    headers.set_raw("MIME-Version", "");
    assert_eq!(headers.get::<Field>(), None);
    headers.set_raw("MIME-Version", "+1.0");
    assert_eq!(headers.get::<Field>(), None);
}

#[test]
fn two_values_in_collection_are_absent() {
    let mut headers = Headers::new();
    headers.set_raw("MIME-Version", "1.0");
    headers.append_raw("MIME-Version", "1.0");
    assert_eq!(headers.get::<Field>(), None);
}

#[test]
fn collection_round_trip() {
    let mut written = Headers::new();
    written.set(Field(MimeVersion::new(12, 250)));
    let line = format!("{}", written);
    assert_eq!(line, "MIME-Version: 12.250\r\n");
    let value = &line["MIME-Version: ".len()..line.len() - 2];
    let mut read = Headers::new();
    read.set_raw("MIME-Version", value.to_string());
    assert_eq!(read.get::<Field>(), Some(&Field(MimeVersion::new(12, 250))));
}

#[test]
fn parse_header_single_value() {
    assert_eq!(MimeVersion::parse_header(&Raw::from("1.0")), Ok(MimeVersion::new(1, 0)));
    assert_eq!(MimeVersion::parse_header(&Raw::from("0.1")), Ok(MimeVersion::new(0, 1)));
    assert_eq!(MimeVersion::parse_header(&lines(&["7.9"])), Ok(MimeVersion::new(7, 9)));
    assert_eq!(
        MimeVersion::parse_header(&Raw::from(b"255.255".to_vec())),
        Ok(MimeVersion::new(255, 255))
    );
}

#[test]
fn parse_header_takes_the_line_not_a_constant() {
    let a = MimeVersion::parse_header(&Raw::from("3.4")).unwrap();
    let b = MimeVersion::parse_header(&Raw::from("4.3")).unwrap();
    assert_eq!((a.major(), a.minor()), (3, 4));
    assert_eq!((b.major(), b.minor()), (4, 3));
    assert_ne!(a, b);
}

#[test]
fn parse_header_no_value() {
    assert_eq!(MimeVersion::parse_header(&lines(&[])), Err(ParseError::Malformed));
}

#[test]
fn parse_header_two_values() {
    assert_eq!(MimeVersion::parse_header(&lines(&["1.0", "1.0"])), Err(ParseError::Malformed));
    let mut raw = Raw::from("1.0");
    raw.push("0.1");
    assert_eq!(MimeVersion::parse_header(&raw), Err(ParseError::Malformed));
}

#[test]
fn parse_header_three_values() {
    assert_eq!(
        MimeVersion::parse_header(&lines(&["1.0", "2.0", "3.0"])),
        Err(ParseError::Malformed)
    );
}

#[test]
fn parse_header_malformed_single_value() {
    assert_eq!(MimeVersion::parse_header(&Raw::from("")), Err(ParseError::Malformed));
    assert_eq!(MimeVersion::parse_header(&Raw::from("1")), Err(ParseError::Malformed));
    assert_eq!(MimeVersion::parse_header(&Raw::from("abc.0")), Err(ParseError::Malformed));
    assert_eq!(MimeVersion::parse_header(&Raw::from("256.0")), Err(ParseError::Malformed));
    assert_eq!(MimeVersion::parse_header(&Raw::from("+1.0")), Err(ParseError::Malformed));
    assert_eq!(
        MimeVersion::parse_header(&Raw::from(vec![0x31u8, 0x2e, 0x30, 0xff])),
        Err(ParseError::Malformed)
    );
}

#[test]
fn parse_header_agrees_with_single_value_query() {
    let cases: Vec<Vec<&str>> = vec![
        vec![],
        vec!["1.0"],
        vec!["1.0", "0.1"],
        vec!["x"],
        vec![""],
        vec!["", ""],
        vec!["10.20", "1.0", "2.2"],
    ];
    for case in cases {
        let raw = lines(&case);
        assert_eq!(MimeVersion::parse_header(&raw), MimeVersion::parse_one(raw.one()));
        assert_eq!(raw.one().is_some(), case.len() == 1);
    }
}

#[test]
fn parse_one_without_a_value() {
    assert_eq!(MimeVersion::parse_one(None), Err(ParseError::Malformed));
}

#[test]
fn parse_one_with_a_value() {
    assert_eq!(MimeVersion::parse_one(Some(b"1.0")), Ok(MimeVersion::new(1, 0)));
    assert_eq!(MimeVersion::parse_one(Some(b"0.1")), Ok(MimeVersion::new(0, 1)));
    assert_eq!(MimeVersion::parse_one(Some(b"1")), Err(ParseError::Malformed));
}

#[test]
fn header_name_is_mime_version() {
    assert_eq!(MimeVersion::header_name(), "MIME-Version");
    assert_eq!(<Field as Header>::header_name(), "MIME-Version");
}
