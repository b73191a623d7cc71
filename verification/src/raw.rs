//! The raw occurrences of one header field, as `hyperx` holds them.
//!
//! A header collection keeps, under each field name, the unparsed lines that
//! were received for it: none, one, or several. Nothing in this module is
//! proved: it says what is taken on trust from `hyperx`.

use hyperx::header::{Raw, RawLike};
use vstd::prelude::*;

verus! {

/// `hyperx::header::Raw`, the raw values of one header field. Trusted to
/// be a type that can be passed around; nothing is known of what is inside.
#[verifier::external_type_specification]
#[verifier::external_body]
pub struct ExRaw(Raw);

/// The lines that a `Raw` holds, each as its bytes, in the order in which
/// they were added. A `Raw` holds no line, one line, or several.
pub uninterp spec fn raw_lines(raw: Raw) -> Seq<Seq<u8>>;

/// Calls `<Raw as RawLike>::one`.
///
/// Trusted, not proved: the call returns the bytes of the single line when
/// the `Raw` holds exactly one line, and `None` when it holds no line or
/// more than one.
#[verifier::external_body]
pub(crate) fn single_line(raw: &Raw) -> (line: Option<&[u8]>)
    ensures
        line is Some <==> raw_lines(*raw).len() == 1,
        line is Some ==> line.unwrap()@ == raw_lines(*raw)[0],
{
    raw.one()
}

} // verus!
