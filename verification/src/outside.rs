//! What the library takes from `std` and from other crates on trust.

use vstd::prelude::*;

verus! {

/// `String::push` appends one character to the end of the string.
pub assume_specification[ String::push ](s: &mut String, c: char)
    ensures
        final(s)@ == old(s)@.push(c),
;

/// The bytes that MD5 gives for an input.
pub uninterp spec fn md5_digest(input: Seq<u8>) -> Seq<u8>;

/// `md5::compute`: the digest is a function of the input bytes alone. Nothing but its length of
/// sixteen bytes is said of its value.
#[verifier::external_body]
pub(crate) fn md5_compute(input: &[u8]) -> (digest: [u8; 16])
    ensures
        digest@ == md5_digest(input@),
{
    md5::compute(input).0
}

/// The last six characters of an RFC 3339 time in UTC.
pub open spec fn ends_in_utc(time: Seq<char>) -> bool {
    time.len() >= 6 && time.skip(time.len() - 6) == seq!['+', '0', '0', ':', '0', '0']
}

/// `chrono::Utc::now` and `DateTime::to_rfc3339`: the current time, written with the offset of
/// UTC at its end. The time itself is the clock's, so nothing is said of it. `Utc::now` expects a
/// clock that is set no earlier than 1970.
#[verifier::external_body]
pub(crate) fn utc_now_rfc3339() -> (time: String)
    ensures
        ends_in_utc(time@),
{
    chrono::Utc::now().to_rfc3339()
}

} // verus!
