use idna::encoding::{decode_utf8_lossy, encode_utf8, EncodingOverride};
use std::borrow::Cow;

#[test]
fn utf8_is_the_default() {
    assert!(EncodingOverride::utf8().is_utf8());
    assert_eq!(EncodingOverride::utf8().name(), "UTF-8");
    assert!(EncodingOverride::from_opt_encoding(None).is_utf8());
    let latin2 = EncodingOverride::from_opt_encoding(Some(encoding_rs::ISO_8859_2));
    assert!(!latin2.is_utf8());
    assert_eq!(latin2.name(), "ISO-8859-2");
    assert_eq!(EncodingOverride::from_encoding(encoding_rs::WINDOWS_1252).name(), "windows-1252");
}

#[test]
fn lookup_by_label() {
    assert_eq!(EncodingOverride::lookup(b"utf-8").unwrap().name(), "UTF-8");
    assert_eq!(EncodingOverride::lookup(b" Latin2 ").unwrap().name(), "ISO-8859-2");
    assert_eq!(EncodingOverride::lookup(b"utf-16be").unwrap().name(), "UTF-16BE");
    assert!(EncodingOverride::lookup(b"unrecognized label").is_none());
    assert!(EncodingOverride::lookup(b"").is_none());
}

#[test]
fn output_encoding_of_utf16_is_utf8() {
    let utf16 = EncodingOverride::from_encoding(encoding_rs::UTF_16LE);
    assert!(!utf16.is_utf8());
    assert!(utf16.to_output_encoding().is_utf8());
    assert!(EncodingOverride::from_encoding(encoding_rs::UTF_16BE).to_output_encoding().is_utf8());
    assert!(EncodingOverride::from_encoding(encoding_rs::REPLACEMENT).to_output_encoding().is_utf8());
    let latin1 = EncodingOverride::from_encoding(encoding_rs::WINDOWS_1252);
    assert_eq!(latin1.to_output_encoding().name(), "windows-1252");
}

#[test]
fn decode_replaces_malformed_sequences() {
    let utf8 = EncodingOverride::utf8();
    assert_eq!(utf8.decode(Cow::Borrowed(&b"caf\xC3\xA9"[..])), "café");
    assert_eq!(utf8.decode(Cow::Owned(b"caf\xC3\xA9".to_vec())), "café");
    assert_eq!(utf8.decode(Cow::Borrowed(&b"a\xFFb"[..])), "a\u{FFFD}b");
    assert_eq!(utf8.decode(Cow::Owned(b"a\xFFb".to_vec())), "a\u{FFFD}b");
    let latin1 = EncodingOverride::from_encoding(encoding_rs::WINDOWS_1252);
    assert_eq!(latin1.decode(Cow::Borrowed(&b"caf\xE9"[..])), "café");
    assert_eq!(latin1.decode(Cow::Owned(b"caf\xE9".to_vec())), "café");
}

#[test]
fn encode_replaces_unmappable_characters() {
    let utf8 = EncodingOverride::utf8();
    assert_eq!(&*utf8.encode(Cow::Borrowed("café")), &b"caf\xC3\xA9"[..]);
    assert_eq!(&*utf8.encode(Cow::Owned("café".to_string())), &b"caf\xC3\xA9"[..]);
    let latin1 = EncodingOverride::from_encoding(encoding_rs::WINDOWS_1252);
    assert_eq!(&*latin1.encode(Cow::Borrowed("café")), &b"caf\xE9"[..]);
    assert_eq!(&*latin1.encode(Cow::Owned("日".to_string())), &b"&#26085;"[..]);
    let utf16 = EncodingOverride::from_encoding(encoding_rs::UTF_16LE);
    assert_eq!(&*utf16.encode(Cow::Borrowed("é")), &b"\xC3\xA9"[..]);
}

#[test]
fn utf8_without_an_override() {
    assert_eq!(decode_utf8_lossy(Cow::Borrowed(&b"caf\xC3\xA9"[..])), "café");
    assert_eq!(decode_utf8_lossy(Cow::Owned(b"caf\xC3\xA9".to_vec())), "café");
    assert_eq!(decode_utf8_lossy(Cow::Borrowed(&b"a\xFFb"[..])), "a\u{FFFD}b");
    assert_eq!(decode_utf8_lossy(Cow::Owned(b"\xC3".to_vec())), "\u{FFFD}");
    assert_eq!(decode_utf8_lossy(Cow::Owned(Vec::new())), "");
    assert_eq!(&*encode_utf8(Cow::Borrowed("café")), &b"caf\xC3\xA9"[..]);
    assert_eq!(&*encode_utf8(Cow::Owned("日".to_string())), &b"\xE6\x97\xA5"[..]);
    assert_eq!(&*encode_utf8(Cow::Borrowed("")), &b""[..]);
}

#[test]
fn borrowed_stays_borrowed_and_owned_stays_owned() {
    assert!(matches!(encode_utf8(Cow::Borrowed("café")), Cow::Borrowed(_)));
    assert!(matches!(encode_utf8(Cow::Owned("café".to_string())), Cow::Owned(_)));
    assert!(matches!(decode_utf8_lossy(Cow::Owned(b"abc".to_vec())), Cow::Owned(_)));
    assert!(matches!(decode_utf8_lossy(Cow::Owned(b"a\xFFb".to_vec())), Cow::Owned(_)));
    assert!(matches!(decode_utf8_lossy(Cow::Borrowed(&b"caf\xC3\xA9"[..])), Cow::Borrowed(_)));
    assert!(matches!(decode_utf8_lossy(Cow::Borrowed(&b"a\xFFb"[..])), Cow::Owned(_)));
    let utf8 = EncodingOverride::utf8();
    assert!(matches!(utf8.encode(Cow::Borrowed("café")), Cow::Borrowed(_)));
    assert!(matches!(utf8.decode(Cow::Owned(b"abc".to_vec())), Cow::Owned(_)));
    assert!(matches!(utf8.encode(Cow::Owned("abc".to_string())), Cow::Owned(_)));
    let latin1 = EncodingOverride::from_encoding(encoding_rs::WINDOWS_1252);
    assert!(matches!(latin1.decode(Cow::Owned(b"abc".to_vec())), Cow::Owned(_)));
    assert!(matches!(latin1.encode(Cow::Owned("abc".to_string())), Cow::Owned(_)));
}

#[test]
fn utf8_output_is_the_text_itself() {
    for encoding in [encoding_rs::UTF_8, encoding_rs::UTF_16LE, encoding_rs::UTF_16BE, encoding_rs::REPLACEMENT] {
        let over = EncodingOverride::from_encoding(encoding);
        assert_eq!(&*over.encode(Cow::Borrowed("a日\u{10FFFF}")), "a日\u{10FFFF}".as_bytes());
        assert_eq!(&*over.encode(Cow::Owned("é".to_string())), "é".as_bytes());
    }
}
