//! An override of the character encoding that a query string is written in,
//! on top of the encodings of the `encoding_rs` crate.

use encoding_rs::Encoding;
use std::borrow::Cow;
use vstd::prelude::*;

verus! {

/// An encoding of the `encoding_rs` crate. Its values are the crate's
/// statics, one for each encoding of the Encoding Standard.
#[verifier::external_type_specification]
#[verifier::external_body]
pub struct ExEncoding(Encoding);

/// The name of an encoding, as the Encoding Standard writes it.
pub uninterp spec fn encoding_name(encoding: &Encoding) -> Seq<char>;

/// The name of the encoding that a label of the Encoding Standard stands
/// for, if it stands for one.
pub uninterp spec fn label_encoding(label: Seq<u8>) -> Option<Seq<char>>;

/// What bytes decode to in the encoding of the given name, with each
/// malformed sequence replaced by U+FFFD.
pub uninterp spec fn decoded_text(name: Seq<char>, bytes: Seq<u8>) -> Seq<char>;

/// What a text encodes to in the output encoding of the encoding of the given
/// name, with each unmappable character replaced by a numeric character
/// reference.
pub uninterp spec fn encoded_bytes(name: Seq<char>, text: Seq<char>) -> Seq<u8>;

/// The name of the output encoding of the encoding of the given name: UTF-8
/// for UTF-16BE, UTF-16LE and replacement, the encoding itself otherwise.
pub open spec fn output_name(name: Seq<char>) -> Seq<char> {
    if name == "UTF-16BE"@ || name == "UTF-16LE"@ || name == "replacement"@ {
        "UTF-8"@
    } else {
        name
    }
}

/// Hands out `encoding_rs::UTF_8`, the static whose name is `UTF-8`.
#[verifier::external_body]
fn utf8_encoding() -> (encoding: &'static Encoding)
    ensures
        encoding_name(encoding) == "UTF-8"@,
{
    encoding_rs::UTF_8
}

/// Calls `Encoding::for_label`, which looks a label of the Encoding Standard
/// up and yields its encoding, if it has one. The result depends on the
/// label alone; the contract names the encoding's name.
#[verifier::external_body]
fn encoding_for_label(label: &[u8]) -> (found: Option<&'static Encoding>)
    ensures
        match found {
            Some(encoding) => label_encoding(label@) == Some(encoding_name(encoding)),
            None => label_encoding(label@) is None,
        },
{
    Encoding::for_label(label)
}

/// Calls `Encoding::output_encoding`: UTF-8 for UTF-16BE, UTF-16LE and
/// replacement, the encoding itself otherwise.
#[verifier::external_body]
fn output_encoding_of(encoding: &'static Encoding) -> (output: &'static Encoding)
    ensures
        encoding_name(output) == output_name(encoding_name(encoding)),
{
    encoding.output_encoding()
}

/// Compares two encodings with `==`. Each encoding is one static with a name
/// of its own, so two are the same exactly when their names are.
#[verifier::external_body]
fn same_encoding(a: &'static Encoding, b: &'static Encoding) -> (same: bool)
    ensures
        same == (encoding_name(a) == encoding_name(b)),
{
    a == b
}

/// Calls `Encoding::name`.
#[verifier::external_body]
fn name_of(encoding: &'static Encoding) -> (name: &'static str)
    ensures
        name@ == encoding_name(encoding),
{
    encoding.name()
}

/// Calls `Encoding::decode_without_bom_handling` and keeps the text. The
/// result depends on the encoding and the bytes alone; the contract names it.
#[verifier::external_body]
fn decode_bytes<'a>(encoding: &'static Encoding, bytes: &'a [u8]) -> (text: Cow<'a, str>)
    ensures
        text@ == decoded_text(encoding_name(encoding), bytes@),
{
    encoding.decode_without_bom_handling(bytes).0
}

/// Calls `Encoding::encode` and keeps the bytes. The result depends on the
/// encoding and the text alone; the contract names it. Where the output
/// encoding is UTF-8 the method hands back, borrowed, the bytes of the text
/// itself.
#[verifier::external_body]
fn encode_text<'a>(encoding: &'static Encoding, text: &'a str) -> (bytes: Cow<'a, [u8]>)
    ensures
        bytes@ == encoded_bytes(encoding_name(encoding), text@),
        output_name(encoding_name(encoding)) == "UTF-8"@ ==> bytes is Borrowed && bytes@
            == vstd::utf8::encode_utf8(text@),
{
    encoding.encode(text).0
}

/// The encoding that a query string is written in.
#[derive(Clone, Copy)]
pub struct EncodingOverride {
    encoding: &'static Encoding,
}

impl View for EncodingOverride {
    type V = Seq<char>;

    /// The name of the encoding.
    closed spec fn view(&self) -> Seq<char> {
        encoding_name(self.encoding)
    }
}

impl EncodingOverride {
    /// The override for the given encoding, or for UTF-8 where none is given.
    pub fn from_opt_encoding(encoding: Option<&'static Encoding>) -> (r: Self)
        ensures
            r@ == match encoding {
                Some(e) => encoding_name(e),
                None => "UTF-8"@,
            },
    {
        match encoding {
            Some(e) => Self::from_encoding(e),
            None => Self::utf8(),
        }
    }

    /// The override for the given encoding.
    pub fn from_encoding(encoding: &'static Encoding) -> (r: Self)
        ensures
            r@ == encoding_name(encoding),
    {
        EncodingOverride { encoding }
    }

    /// The override for UTF-8.
    pub fn utf8() -> (r: Self)
        ensures
            r@ == "UTF-8"@,
    {
        EncodingOverride { encoding: utf8_encoding() }
    }

    /// The override for the encoding that `label` stands for, if it stands
    /// for one.
    pub fn lookup(label: &[u8]) -> (r: Option<Self>)
        ensures
            match r {
                Some(found) => label_encoding(label@) == Some(found@),
                None => label_encoding(label@) is None,
            },
    {
        match encoding_for_label(label) {
            Some(e) => Some(Self::from_encoding(e)),
            None => None,
        }
    }

    /// The override for the output encoding of this one.
    pub fn to_output_encoding(self) -> (r: Self)
        ensures
            r@ == output_name(self@),
    {
        Self::from_encoding(output_encoding_of(self.encoding))
    }

    /// Whether the encoding is UTF-8.
    pub fn is_utf8(&self) -> (r: bool)
        ensures
            r == (self@ == "UTF-8"@),
    {
        same_encoding(self.encoding, utf8_encoding())
    }

    /// The name of the encoding.
    pub fn name(&self) -> (r: &'static str)
        ensures
            r@ == self@,
    {
        name_of(self.encoding)
    }

    /// Decodes `input`, replacing each malformed sequence. An owned input
    /// gives an owned result.
    pub fn decode<'a>(&self, input: Cow<'a, [u8]>) -> (r: Cow<'a, str>)
        ensures
            r@ == decoded_text(self@, input@),
            input is Owned ==> r is Owned,
    {
        match input {
            Cow::Borrowed(b) => decode_bytes(self.encoding, b),
            Cow::Owned(v) => {
                let text: String = match decode_bytes(self.encoding, v.as_slice()) {
                    Cow::Owned(s) => s,
                    Cow::Borrowed(s) => s.to_owned(),
                };
                Cow::Owned(text)
            },
        }
    }

    /// Encodes `input` in the output encoding, replacing each unmappable
    /// character; where the output encoding is UTF-8, the result is the bytes
    /// of the text, borrowed where the text is. An owned input gives an owned
    /// result.
    pub fn encode<'a>(&self, input: Cow<'a, str>) -> (r: Cow<'a, [u8]>)
        ensures
            r@ == encoded_bytes(self@, input@),
            output_name(self@) == "UTF-8"@ ==> r@ == vstd::utf8::encode_utf8(input@),
            output_name(self@) == "UTF-8"@ && input is Borrowed ==> r is Borrowed,
            input is Owned ==> r is Owned,
    {
        match input {
            Cow::Borrowed(s) => encode_text(self.encoding, s),
            Cow::Owned(s) => {
                let bytes: Vec<u8> = match encode_text(self.encoding, s.as_str()) {
                    Cow::Owned(v) => v,
                    Cow::Borrowed(b) => vstd::slice::slice_to_vec(b),
                };
                Cow::Owned(bytes)
            },
        }
    }
}

/// What bytes decode to as UTF-8, with each malformed sequence replaced by
/// U+FFFD.
pub uninterp spec fn utf8_lossy(bytes: Seq<u8>) -> Seq<char>;

/// `String::from_utf8_lossy` decodes bytes as UTF-8 and replaces each
/// malformed sequence by U+FFFD. Bytes that are valid UTF-8 come back,
/// borrowed, as the string they encode; any others take a new `String`.
pub assume_specification<'a>[ String::from_utf8_lossy ](v: &'a [u8]) -> (text: Cow<'a, str>)
    ensures
        text@ == utf8_lossy(v@),
        vstd::utf8::valid_utf8(v@) ==> text is Borrowed && text@ == vstd::utf8::decode_utf8(v@),
        !vstd::utf8::valid_utf8(v@) ==> text is Owned,
;

/// `String::into_bytes` hands out the bytes of the string: its encoding in
/// UTF-8.
pub assume_specification[ String::into_bytes ](s: String) -> (bytes: Vec<u8>)
    ensures
        bytes@ == vstd::utf8::encode_utf8(s@),
;

/// Decodes bytes as UTF-8, replacing each malformed sequence by U+FFFD. An
/// owned input gives an owned result; a borrowed one gives a borrowed result
/// exactly where it is valid UTF-8.
pub fn decode_utf8_lossy<'a>(input: Cow<'a, [u8]>) -> (r: Cow<'a, str>)
    ensures
        r@ == utf8_lossy(input@),
        vstd::utf8::valid_utf8(input@) ==> r@ == vstd::utf8::decode_utf8(input@),
        input is Owned ==> r is Owned,
        input is Borrowed ==> (r is Borrowed <==> vstd::utf8::valid_utf8(input@)),
{
    match input {
        Cow::Borrowed(bytes) => String::from_utf8_lossy(bytes),
        Cow::Owned(bytes) => {
            let text: String = match String::from_utf8_lossy(bytes.as_slice()) {
                Cow::Owned(s) => s,
                Cow::Borrowed(s) => s.to_owned(),
            };
            Cow::Owned(text)
        },
    }
}

/// The bytes of a text in UTF-8: borrowed where the text is borrowed, owned
/// where it is owned.
pub fn encode_utf8<'a>(input: Cow<'a, str>) -> (r: Cow<'a, [u8]>)
    ensures
        r@ == vstd::utf8::encode_utf8(input@),
        input is Borrowed ==> r is Borrowed,
        input is Owned ==> r is Owned,
{
    match input {
        Cow::Borrowed(s) => Cow::Borrowed(s.as_bytes()),
        Cow::Owned(s) => Cow::Owned(s.into_bytes()),
    }
}

} // verus!
