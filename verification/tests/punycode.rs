use idna::punycode::{
    adapt, decode, decode_chars, decode_to_string, encode, encode_into, encode_str, insertions,
    merge, threshold_of, value_to_digit,
};

fn chars(s: &str) -> Vec<char> {
    s.chars().collect()
}

#[test]
fn adapt_exact_values() {
    // First adaptation: delta / 700, then delta += delta / points.
    assert_eq!(adapt(0, 1, true), 0);
    assert_eq!(adapt(700, 1, true), 1);
    // 1400 / 700 = 2, 2 + 2 / 1 = 4, 36 * 4 / (4 + 38) = 3.
    assert_eq!(adapt(1400, 1, true), 3);
    // Later adaptations halve: 100 / 2 = 50, 50 + 50 / 5 = 60, 36 * 60 / 98 = 22.
    assert_eq!(adapt(100, 5, false), 22);
    // The scaling loop: 2000 / 2 = 1000, + 1000 / 1 = 2000 > 455, 2000 / 35 = 57, k = 36,
    // 36 + 36 * 57 / 95 = 36 + 21.
    assert_eq!(adapt(2000, 1, false), 57);
    assert_eq!(adapt(u32::MAX, 1, false), 180 + 36 * 81 / (81 + 38));
}

#[test]
fn digits_of_the_alphabet() {
    assert_eq!(value_to_digit(0), 'a');
    assert_eq!(value_to_digit(25), 'z');
    assert_eq!(value_to_digit(26), '0');
    assert_eq!(value_to_digit(35), '9');
}

#[test]
fn encode_known_labels() {
    assert_eq!(encode_str("bücher").unwrap(), "bcher-kva");
    assert_eq!(encode_str("münchen").unwrap(), "mnchen-3ya");
    assert_eq!(encode_str("bloß").unwrap(), "blo-7ka");
    assert_eq!(encode_str("ü").unwrap(), "tda");
    assert_eq!(encode_str("他们为什么不说中文").unwrap(), "ihqwcrb4cv8a8dqg056pqjye");
    assert_eq!(encode(&chars("עברית")).unwrap(), "5dbqzzl");
    assert_eq!(
        encode_str("Hello-Another-Way-それぞれの場所").unwrap(),
        "Hello-Another-Way--fc4qua05auwb3674vfr0b"
    );
    assert_eq!(encode_str("ひとつ屋根の下2").unwrap(), "2-u9tlzr9756bt3uc0v");
    assert_eq!(encode_str("-> $1.00 <-").unwrap(), "-> $1.00 <--");
}

#[test]
fn encode_edge_cases() {
    assert_eq!(encode_str("").unwrap(), "");
    assert_eq!(encode_str("abc").unwrap(), "abc-");
    assert_eq!(encode_str("-").unwrap(), "--");
    assert_eq!(encode(&['\u{80}']).unwrap(), "a");
    assert_eq!(encode(&['\u{10FFFF}']).unwrap(), encode_str("\u{10FFFF}").unwrap());
}

#[test]
fn encode_into_appends() {
    let mut out = vec!['x', 'n', '-', '-'];
    assert!(encode_into(&chars("bücher"), &mut out).is_ok());
    assert_eq!(out.iter().collect::<String>(), "xn--bcher-kva");
}

#[test]
fn decode_known_labels() {
    assert_eq!(decode_to_string("bcher-kva").unwrap(), "bücher");
    assert_eq!(decode_to_string("mnchen-3ya").unwrap(), "münchen");
    assert_eq!(decode_to_string("blo-7ka").unwrap(), "bloß");
    assert_eq!(decode_to_string("tda").unwrap(), "ü");
    assert_eq!(decode_to_string("u-ccb").unwrap(), "u\u{308}");
    assert_eq!(
        decode_to_string("ihqwcrb4cv8a8dqg056pqjye").unwrap(),
        "他们为什么不说中文"
    );
    assert_eq!(
        decode_to_string("Hello-Another-Way--fc4qua05auwb3674vfr0b").unwrap(),
        "Hello-Another-Way-それぞれの場所"
    );
    assert_eq!(decode_to_string("2-u9tlzr9756bt3uc0v").unwrap(), "ひとつ屋根の下2");
    assert_eq!(decode("kdb3bdf").unwrap(), chars("אבּג"));
    assert_eq!(decode_chars(&chars("mgbcm")).unwrap(), chars("ابج"));
}

#[test]
fn decode_is_case_insensitive_on_digits() {
    assert_eq!(decode_to_string("bcher-KVA").unwrap(), "bücher");
    assert_eq!(decode_to_string("TDA").unwrap(), "ü");
}

#[test]
fn decode_edge_cases() {
    assert_eq!(decode_to_string("").unwrap(), "");
    assert_eq!(decode_to_string("abc-").unwrap(), "abc");
    assert_eq!(decode_to_string("--").unwrap(), "-");
    // A delimiter in front, and no other, belongs to the extended part: no digit.
    assert!(decode("-abc").is_none());
    assert!(decode("-").is_none());
}

#[test]
fn decode_rejects_malformed_input() {
    // A character that is no digit.
    assert!(decode("a b").is_none());
    assert!(decode("é").is_none());
    // The digits end before the integer does.
    assert!(decode("0").is_none());
    assert!(decode("abc-9").is_none());
    // A base character that is not ASCII.
    assert!(decode("é-kva").is_none());
    // The accumulator overflows.
    assert!(decode("99999999").is_none());
    // The code point is a surrogate, or lies above U+10FFFF.
    assert!(decode("ib9b").is_none());
    assert!(decode("en32g").is_none());
    assert_eq!(decode("dn32g").unwrap(), vec!['\u{10FFFF}']);
}

#[test]
fn insertions_are_ordered_by_position() {
    let (base_len, ins) = insertions(&chars("bcher-kva")).unwrap();
    assert_eq!(base_len, 5);
    assert_eq!(ins, vec![(1, 'ü')]);
    let (base_len, ins) = insertions(&chars("kdb3bdf")).unwrap();
    assert_eq!(base_len, 0);
    assert_eq!(ins, vec![(0, 'א'), (1, 'ב'), (2, '\u{5bc}'), (3, 'ג')]);
    assert!(insertions(&chars("0")).is_err());
}

#[test]
fn merge_interleaves() {
    assert_eq!(merge(&chars("bcher"), &[(1, 'ü')]), chars("bücher"));
    assert_eq!(merge(&chars("ab"), &[(0, 'x'), (2, 'y'), (4, 'z')]), chars("xaybz"));
    assert_eq!(merge(&[], &[]), Vec::<char>::new());
    assert_eq!(merge(&chars("ab"), &[]), chars("ab"));
}

#[test]
fn round_trip_on_samples() {
    for s in [
        "", "a", "-", "ü", "bücher", "bloß", "日本語", "אבּג", "ابج", "a-b-c", "ü-ü", "Ünï-CÖDE",
        "\u{10FFFF}\u{80}", "☕", "ひとつ屋根の下2",
    ] {
        let encoded = encode_str(s).unwrap();
        assert!(encoded.is_ascii());
        assert_eq!(decode_to_string(&encoded).unwrap(), s);
    }
}

#[test]
fn round_trip_of_a_long_label() {
    // 3854 scalar values: no accumulator can overflow.
    let mut input = vec!['a'; 3853];
    input.push('\u{10FFFF}');
    let encoded = encode(&input).unwrap();
    assert_eq!(decode(&encoded).unwrap(), input);
    let mut input = vec!['\u{10FFFF}'; 3853];
    input.insert(0, '\u{80}');
    let encoded = encode(&input).unwrap();
    assert_eq!(decode(&encoded).unwrap(), input);
}

#[test]
fn decoder_refuses_an_insertion_point_beyond_32_bits() {
    // The second delta is 1 + 65535 * 65536, which fits; the decoder adds it to the
    // insertion point 65535 and overflows.
    let mut input = vec!['\u{10080}'];
    input.extend(std::iter::repeat('a').take(65534));
    input.push('\u{80}');
    let encoded = encode(&input).unwrap();
    assert!(decode(&encoded).is_none());
}

#[test]
fn encoder_refuses_a_delta_beyond_32_bits() {
    // (0x10FFFF - 0x80) * 3857 does not fit.
    let mut input = vec!['a'; 3856];
    input.push('\u{10FFFF}');
    assert!(encode(&input).is_none());
    let mut out = Vec::new();
    assert!(encode_into(&input, &mut out).is_err());
    // What the output held before the call is still its beginning.
    let mut out = vec!['x', 'n', '-', '-'];
    assert!(encode_into(&input, &mut out).is_err());
    assert!(out.len() >= 4);
    assert_eq!(&out[..4], &['x', 'n', '-', '-']);
}

#[test]
fn thresholds() {
    // clamp(k - bias, 1, 26), for every k and bias.
    assert_eq!(threshold_of(36, 72), 1);
    assert_eq!(threshold_of(72, 72), 1);
    assert_eq!(threshold_of(73, 72), 1);
    assert_eq!(threshold_of(80, 72), 8);
    assert_eq!(threshold_of(97, 72), 25);
    assert_eq!(threshold_of(98, 72), 26);
    assert_eq!(threshold_of(108, 72), 26);
    assert_eq!(threshold_of(36, u32::MAX), 1);
    assert_eq!(threshold_of(u32::MAX, u32::MAX - 5), 5);
    assert_eq!(threshold_of(u32::MAX, 0), 26);
}
