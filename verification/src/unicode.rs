//! The Unicode character database, as far as the processing consults it:
//! bidi classes, combining marks and Normalization Form C.

use unicode_bidi::BidiClass as UcdBidiClass;
use unicode_normalization::UnicodeNormalization;
use vstd::prelude::*;

verus! {

/// The bidi classes that the bidi rule tells apart; every other class is
/// `Other`.
#[derive(Clone, Copy, Debug, PartialEq, Eq, Structural)]
pub enum BidiClass {
    L,
    R,
    AL,
    AN,
    EN,
    ES,
    CS,
    ET,
    ON,
    BN,
    NSM,
    Other,
}

/// The bidi class of a scalar value in the character database.
pub uninterp spec fn bidi_class_of(c: char) -> BidiClass;

/// Whether a scalar value is a combining mark (`General_Category=Mark`) in
/// the character database.
pub uninterp spec fn combining_mark(c: char) -> bool;

/// Whether the normalization library takes a string to be in Normalization
/// Form C.
pub uninterp spec fn is_nfc_of(s: Seq<char>) -> bool;

/// Normalization Form C of a string, as the normalization library computes it.
pub uninterp spec fn nfc_of(s: Seq<char>) -> Seq<char>;

/// Calls `unicode_bidi::bidi_class`, which looks the scalar value up in the
/// crate's table of bidi classes, and hands the class on; the twelve classes
/// that the bidi rule does not tell apart come back as `Other`. The result
/// depends on the scalar value alone; the contract names it and claims
/// nothing else of it.
#[verifier::external_body]
pub(crate) fn bidi_class(c: char) -> (class: BidiClass)
    ensures
        class == bidi_class_of(c),
{
    match unicode_bidi::bidi_class(c) {
        UcdBidiClass::L => BidiClass::L,
        UcdBidiClass::R => BidiClass::R,
        UcdBidiClass::AL => BidiClass::AL,
        UcdBidiClass::AN => BidiClass::AN,
        UcdBidiClass::EN => BidiClass::EN,
        UcdBidiClass::ES => BidiClass::ES,
        UcdBidiClass::CS => BidiClass::CS,
        UcdBidiClass::ET => BidiClass::ET,
        UcdBidiClass::ON => BidiClass::ON,
        UcdBidiClass::BN => BidiClass::BN,
        UcdBidiClass::NSM => BidiClass::NSM,
        _ => BidiClass::Other,
    }
}

/// Calls `unicode_normalization::char::is_combining_mark`, a lookup in the
/// crate's table of combining marks. The result depends on the scalar value
/// alone; the contract names it and claims nothing else of it.
#[verifier::external_body]
pub(crate) fn is_combining_mark(c: char) -> (mark: bool)
    ensures
        mark == combining_mark(c),
{
    unicode_normalization::char::is_combining_mark(c)
}

/// Calls `unicode_normalization::is_nfc`, which decides whether a string is
/// in Normalization Form C. The result depends on the string alone; the
/// contract names it and claims nothing else of it.
#[verifier::external_body]
pub(crate) fn is_nfc(s: &str) -> (normalized: bool)
    ensures
        normalized == is_nfc_of(s@),
{
    unicode_normalization::is_nfc(s)
}

/// Calls `UnicodeNormalization::nfc` on the string and collects what the
/// iterator yields: the string in Normalization Form C. The result depends
/// on the string alone; the contract names it and claims nothing else of it.
#[verifier::external_body]
pub(crate) fn nfc(s: &str) -> (normalized: String)
    ensures
        normalized@ == nfc_of(s@),
{
    s.nfc().collect()
}

} // verus!
