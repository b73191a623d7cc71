//! The version number itself.

use vstd::prelude::*;

verus! {

/// Message format version, defined in
/// [RFC 2045](https://tools.ietf.org/html/rfc2045#section-4).
///
/// Any pair of bytes is a version. A version does not change once it is
/// made, and two versions are equal when both of their parts are.
#[derive(Debug, Copy, Clone, PartialEq, Eq, Structural)]
pub struct MimeVersion {
    major: u8,
    minor: u8,
}

impl MimeVersion {
    /// The version `major.minor`, as a value in contracts.
    pub closed spec fn spec_new(major: u8, minor: u8) -> MimeVersion {
        MimeVersion { major, minor }
    }

    /// The part before the dot, as a value in contracts.
    pub closed spec fn spec_major(self) -> u8 {
        self.major
    }

    /// The part after the dot, as a value in contracts.
    pub closed spec fn spec_minor(self) -> u8 {
        self.minor
    }

    /// The parts of a version are the two numbers that it was made from.
    pub proof fn lemma_parts(major: u8, minor: u8)
        ensures
            MimeVersion::new(major, minor).major() == major,
            MimeVersion::new(major, minor).minor() == minor,
    {
    }

    /// Versions are equal exactly when their major parts are equal and their
    /// minor parts are equal.
    pub proof fn lemma_equality(a: MimeVersion, b: MimeVersion)
        ensures
            a == b <==> a.major() == b.major() && a.minor() == b.minor(),
    {
    }

    /// The version `major.minor`.
    #[verifier::when_used_as_spec(spec_new)]
    pub fn new(major: u8, minor: u8) -> (version: MimeVersion)
        ensures
            version == MimeVersion::new(major, minor),
            version.major() == major,
            version.minor() == minor,
    {
        MimeVersion { major, minor }
    }

    /// The part before the dot.
    #[inline]
    #[verifier::when_used_as_spec(spec_major)]
    pub fn major(self) -> (major: u8)
        ensures
            major == self.major(),
    {
        self.major
    }

    /// The part after the dot.
    #[inline]
    #[verifier::when_used_as_spec(spec_minor)]
    pub fn minor(self) -> (minor: u8)
        ensures
            minor == self.minor(),
    {
        self.minor
    }
}

impl Default for MimeVersion {
    /// Version 1.0, the only one that RFC 2045 defines.
    fn default() -> (version: MimeVersion)
        ensures
            version == MimeVersion::new(1, 0),
    {
        MimeVersion { major: 1, minor: 0 }
    }
}

} // verus!
