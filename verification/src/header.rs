//! The `MIME-Version` field on the wire: its name, the text of its value,
//! and how a raw value is read.

use crate::decimal::{
    decimal_text, is_digit, lemma_decimal_round_trip, lemma_decimal_text, parse_decimal,
    parsed_decimal, push_decimal,
};
use crate::encoding::is_utf8;
use crate::raw::{raw_lines, single_line};
use crate::version::MimeVersion;
use hyperx::header::Raw;
use vstd::prelude::*;
use vstd::slice::*;
use vstd::string::*;
use vstd::utf8::*;

verus! {

/// Why a raw field could not be read as a version.
///
/// There is one kind only: a field without a value or with several, a value
/// that is not UTF-8, one without a dot, and one whose parts are not numbers
/// that fit a byte all give it.
#[derive(Debug, Copy, Clone, PartialEq, Eq, Structural)]
pub enum ParseError {
    /// The field does not hold exactly one well-formed version.
    Malformed,
}

/// The ASCII code of the full stop, which separates the parts of a version.
pub const DOT: u8 = 0x2e;

/// The bytes of `bytes` before its first dot; all of them when it has none.
pub open spec fn up_to_dot(bytes: Seq<u8>) -> Seq<u8> {
    match bytes.index_of_first(DOT) {
        Some(dot) => bytes.take(dot),
        None => bytes,
    }
}

/// The bytes of `bytes` after its first dot; none when it has no dot.
pub open spec fn after_dot(bytes: Seq<u8>) -> Seq<u8> {
    match bytes.index_of_first(DOT) {
        Some(dot) => bytes.skip(dot + 1),
        None => Seq::empty(),
    }
}

/// What one raw value reads as.
///
/// The value has to be UTF-8 and to hold a dot. The major part is the
/// numeral before the first dot, the minor part the numeral between the
/// first dot and the second, or the end of the value where there is no
/// second dot. Whatever follows a second dot is not looked at, beyond
/// having to be UTF-8.
pub open spec fn parsed_value(raw: Seq<u8>) -> Result<MimeVersion, ParseError> {
    if valid_utf8(raw) && raw.contains(DOT) {
        match (parsed_decimal(up_to_dot(raw)), parsed_decimal(up_to_dot(after_dot(raw)))) {
            (Some(major), Some(minor)) => Ok(MimeVersion::new(major, minor)),
            _ => Err(ParseError::Malformed),
        }
    } else {
        Err(ParseError::Malformed)
    }
}

/// What a field reads as, given all the raw values received for it.
pub open spec fn parsed_lines(lines: Seq<Seq<u8>>) -> Result<MimeVersion, ParseError> {
    if lines.len() == 1 {
        parsed_value(lines[0])
    } else {
        Err(ParseError::Malformed)
    }
}

/// A dot with no dot before it is the first one.
proof fn lemma_first_dot(bytes: Seq<u8>, at: int)
    requires
        0 <= at < bytes.len(),
        bytes[at] == DOT,
        forall|j: int| 0 <= j < at ==> bytes[j] != DOT,
    ensures
        bytes.contains(DOT),
        bytes.index_of_first(DOT) == Some(at),
{
    bytes.index_of_first_ensures(DOT);
}

/// Where no byte is a dot, there is no first one.
proof fn lemma_no_dot(bytes: Seq<u8>)
    requires
        forall|j: int| 0 <= j < bytes.len() ==> bytes[j] != DOT,
    ensures
        !bytes.contains(DOT),
        bytes.index_of_first(DOT) is None,
{
    bytes.index_of_first_ensures(DOT);
}

/// The place of the first dot in `bytes`.
fn find_dot(bytes: &[u8]) -> (found: Option<usize>)
    ensures
        found is Some <==> bytes@.contains(DOT),
        match found {
            Some(at) => at < bytes@.len() && bytes@.index_of_first(DOT) == Some(at as int),
            None => bytes@.index_of_first(DOT) is None,
        },
{
    let n = bytes.len();
    let mut at: usize = 0;
    while at < n
        invariant
            at <= n,
            n == bytes@.len(),
            forall|j: int| 0 <= j < at ==> bytes@[j] != DOT,
        decreases n - at,
    {
        if bytes[at] == DOT {
            proof {
                lemma_first_dot(bytes@, at as int);
            }
            return Some(at);
        }
        at += 1;
    }
    proof {
        lemma_no_dot(bytes@);
    }
    None
}

impl MimeVersion {
    /// The text of the version on the wire: the numeral of the major part,
    /// a dot, the numeral of the minor part.
    pub open spec fn text(self) -> Seq<char> {
        decimal_text(self.major() as nat) + seq!['.'] + decimal_text(self.minor() as nat)
    }

    /// The name of the header field.
    pub fn header_name() -> (name: &'static str)
        ensures
            name@ == "MIME-Version"@,
    {
        "MIME-Version"
    }

    /// Reads one raw value.
    pub fn parse_value(raw: &[u8]) -> (parsed: Result<MimeVersion, ParseError>)
        ensures
            parsed == parsed_value(raw@),
    {
        if !is_utf8(raw) {
            return Err(ParseError::Malformed);
        }
        let dot = match find_dot(raw) {
            Some(dot) => dot,
            None => {
                return Err(ParseError::Malformed);
            },
        };
        let n = raw.len();
        let rest = slice_subrange(raw, dot + 1, n);
        let end = match find_dot(rest) {
            Some(end) => end,
            None => rest.len(),
        };
        let major = parse_decimal(slice_subrange(raw, 0, dot));
        let minor = parse_decimal(slice_subrange(rest, 0, end));
        proof {
            assert(rest@.subrange(0, rest@.len() as int) =~= rest@);
        }
        match (major, minor) {
            (Some(major), Some(minor)) => Ok(MimeVersion::new(major, minor)),
            _ => Err(ParseError::Malformed),
        }
    }

    /// Reads a field from what a header collection answers when asked for
    /// the field's single value: that value, or `None` when the collection
    /// holds no value for the field or more than one.
    pub fn parse_one(one: Option<&[u8]>) -> (parsed: Result<MimeVersion, ParseError>)
        ensures
            one is None ==> parsed == Err::<MimeVersion, ParseError>(ParseError::Malformed),
            one is Some ==> parsed == parsed_value(one.unwrap()@),
    {
        match one {
            Some(raw) => MimeVersion::parse_value(raw),
            None => Err(ParseError::Malformed),
        }
    }

    /// Reads a field from the raw values that a header collection holds for
    /// it. Exactly one value has to be there.
    pub fn parse_header(raw: &Raw) -> (parsed: Result<MimeVersion, ParseError>)
        ensures
            parsed == parsed_lines(raw_lines(*raw)),
    {
        MimeVersion::parse_one(single_line(raw))
    }

    /// Writes the value of the field, without the field's name and without
    /// a line end.
    pub fn fmt_header(&self) -> (line: String)
        ensures
            line@ == self.text(),
    {
        let mut line = String::new();
        push_decimal(&mut line, self.major());
        line.append(".");
        push_decimal(&mut line, self.minor());
        proof {
            reveal_strlit(".");
            assert("."@ =~= seq!['.']);
        }
        line
    }
}

/// Reading back the text of a version gives that version: whatever
/// [`MimeVersion::fmt_header`] writes, [`MimeVersion::parse_value`] reads as
/// the version that was written, and so does [`MimeVersion::parse_header`]
/// from a field that holds this text as its only value.
pub proof fn lemma_round_trip(version: MimeVersion)
    ensures
        parsed_value(encode_utf8(version.text())) == Ok::<MimeVersion, ParseError>(version),
        parsed_lines(seq![encode_utf8(version.text())]) == Ok::<MimeVersion, ParseError>(
            version,
        ),
{
    let major = decimal_text(version.major() as nat);
    let minor = decimal_text(version.minor() as nat);
    let text = version.text();
    let bytes = encode_utf8(text);
    let before = encode_utf8(major);
    let after = encode_utf8(minor);
    lemma_decimal_text(version.major() as nat);
    lemma_decimal_text(version.minor() as nat);
    assert(is_ascii_chars(text));
    is_ascii_chars_encode_utf8(text);
    is_ascii_chars_encode_utf8(major);
    is_ascii_chars_encode_utf8(minor);
    encode_utf8_valid_utf8(text);
    assert(bytes =~= before + seq![DOT] + after) by {
        assert forall|i: int| 0 <= i < bytes.len() implies bytes[i] == (before + seq![DOT]
            + after)[i] by {
            assert(bytes[i] == text[i] as u8);
            if i < major.len() {
                assert(before[i] == major[i] as u8);
            } else if i > major.len() {
                assert(after[i - major.len() - 1] == minor[i - major.len() - 1] as u8);
            }
        }
    }
    assert forall|j: int| 0 <= j < before.len() implies bytes[j] != DOT by {
        assert(is_digit(before[j]));
    }
    lemma_first_dot(bytes, before.len() as int);
    assert(up_to_dot(bytes) =~= before);
    assert(after_dot(bytes) =~= after);
    assert forall|j: int| 0 <= j < after.len() implies after[j] != DOT by {
        assert(is_digit(after[j]));
    }
    lemma_no_dot(after);
    lemma_decimal_round_trip(version.major());
    lemma_decimal_round_trip(version.minor());
    MimeVersion::lemma_parts(version.major(), version.minor());
    MimeVersion::lemma_equality(MimeVersion::new(version.major(), version.minor()), version);
}

/// Formatting is a function of the version alone: equal versions have the
/// same text, and versions with the same text are equal.
pub proof fn lemma_text_determined(a: MimeVersion, b: MimeVersion)
    ensures
        a == b <==> a.text() == b.text(),
{
    lemma_round_trip(a);
    lemma_round_trip(b);
}

} // verus!
