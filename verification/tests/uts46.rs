use idna::bidi::{is_bidi_domain, passes_bidi};
use idna::uts46::{is_simple_domain, is_valid, map_char, processing};
use idna::{Config, Errors, Mapping, MappingTable, Range, StringTableSlice};
use unicode_normalization::char::is_combining_mark;

fn chars(s: &str) -> Vec<char> {
    s.chars().collect()
}

/// Builds a table from runs of scalar values, each with the kind of its mapping and, for a
/// kind that carries text, one replacement per scalar value of the run. What lies between
/// the runs is disallowed.
fn build(runs: &[(u32, u32, u8, &[&str])]) -> MappingTable {
    let mut ranges = Vec::new();
    let mut index = Vec::new();
    let mut mappings = vec![
        Mapping::Valid,
        Mapping::Ignored,
        Mapping::Disallowed,
        Mapping::DisallowedStd3Valid,
    ];
    let mut strings: Vec<char> = Vec::new();
    let mut push = |from: u32, to: u32, entry: u16| {
        // The surrogates are no scalar values: a run across them is two ranges.
        let pieces = if from < 0xD800 && to > 0xDFFF {
            vec![(from, 0xD7FF), (0xE000, to)]
        } else {
            vec![(from, to)]
        };
        for (a, b) in pieces {
            ranges.push(Range { from: char::from_u32(a).unwrap(), to: char::from_u32(b).unwrap() });
            index.push(entry);
        }
    };
    let mut next: u32 = 0;
    for &(from, to, kind, texts) in runs {
        if next < from {
            push(next, from - 1, 0x8000 | 2);
        }
        match kind {
            b'V' => push(from, to, 0x8000),
            b'I' => push(from, to, 0x8000 | 1),
            b'X' => push(from, to, 0x8000 | 2),
            b'3' => push(from, to, 0x8000 | 3),
            _ => {
                let first = mappings.len() as u16;
                for text in texts {
                    let start = strings.len();
                    strings.extend(text.chars());
                    let slice = StringTableSlice {
                        start_lo: (start & 0xFF) as u8,
                        start_hi: (start >> 8) as u8,
                        len: text.chars().count() as u8,
                    };
                    mappings.push(match kind {
                        b'M' => Mapping::Mapped(slice),
                        b'D' => Mapping::Deviation(slice),
                        _ => Mapping::DisallowedStd3Mapped(slice),
                    });
                }
                if texts.len() == 1 {
                    push(from, to, 0x8000 | first);
                } else {
                    assert_eq!(texts.len() as u32, to - from + 1);
                    push(from, to, first);
                }
            }
        }
        next = to + 1;
    }
    if next <= 0x10FFFF {
        push(next, 0x10FFFF, 0x8000 | 2);
    }
    MappingTable::new(ranges, index, mappings, strings).unwrap()
}

/// A small table with the mappings of the scalar values that these tests use.
fn table() -> MappingTable {
    let lower = [
        "a", "b", "c", "d", "e", "f", "g", "h", "i", "j", "k", "l", "m", "n", "o", "p", "q", "r",
        "s", "t", "u", "v", "w", "x", "y", "z",
    ];
    build(&[
        (0x0000, 0x002C, b'3', &[]),
        (0x002D, 0x002E, b'V', &[]),
        (0x002F, 0x002F, b'3', &[]),
        (0x0030, 0x0039, b'V', &[]),
        (0x003A, 0x0040, b'3', &[]),
        (0x0041, 0x005A, b'M', &lower),
        (0x005B, 0x0060, b'3', &[]),
        (0x0061, 0x007A, b'V', &[]),
        (0x007B, 0x007F, b'3', &[]),
        (0x0080, 0x009F, b'X', &[]),
        (0x00AD, 0x00AD, b'I', &[]),
        (0x00DF, 0x00DF, b'D', &["ss"]),
        (0x00E0, 0x00FF, b'V', &[]),
        (0x0300, 0x033F, b'V', &[]),
        (0x0591, 0x05BD, b'V', &[]),
        (0x05D0, 0x05EA, b'V', &[]),
        (0x0620, 0x063F, b'V', &[]),
        (0x0660, 0x0669, b'V', &[]),
        (0x2488, 0x2488, b'S', &["1."]),
        (0x2615, 0x2615, b'V', &[]),
        (0x3002, 0x3002, b'M', &["."]),
        (0x4E00, 0x9FFF, b'V', &[]),
        (0xFF21, 0xFF3A, b'M', &lower),
        (0xFF61, 0xFF61, b'M', &["."]),
        (0x11C38, 0x11C3F, b'V', &[]),
    ])
}

fn strict() -> Config {
    Config::default().verify_dns_length(true).use_std3_ascii_rules(true)
}

fn _to_ascii(domain: &str) -> Result<String, Errors> {
    strict().to_ascii(&table(), domain)
}

fn _to_unicode(domain: &str) -> (String, Result<(), Errors>) {
    strict().to_unicode(&table(), domain)
}

#[test]
fn mapping_fast_path() {
    let table = table();
    assert!(matches!(table.find_char('-'), &Mapping::Valid));
    assert!(matches!(table.find_char('.'), &Mapping::Valid));
    for c in &['0', '1', '2', '3', '4', '5', '6', '7', '8', '9'] {
        assert!(matches!(table.find_char(*c), &Mapping::Valid));
    }
    for c in &[
        'a', 'b', 'c', 'd', 'e', 'f', 'g', 'h', 'i', 'j', 'k', 'l', 'm', 'n', 'o', 'p', 'q',
        'r', 's', 't', 'u', 'v', 'w', 'x', 'y', 'z',
    ] {
        assert!(matches!(table.find_char(*c), &Mapping::Valid));
    }
}

#[test]
fn test_examples() {
    let (out, result) = _to_unicode("Bloß.de");
    assert!(matches!(result, Ok(())));
    assert_eq!(out, "bloß.de");

    let (out, result) = _to_unicode("xn--blo-7ka.de");
    assert!(matches!(result, Ok(())));
    assert_eq!(out, "bloß.de");

    let (out, result) = _to_unicode("u\u{308}.com");
    assert!(matches!(result, Ok(())));
    assert_eq!(out, "ü.com");

    let (out, result) = _to_unicode("xn--tda.com");
    assert!(matches!(result, Ok(())));
    assert_eq!(out, "ü.com");

    let (_, result) = _to_unicode("xn--u-ccb.com");
    assert!(matches!(result, Err(_)));

    let (_, result) = _to_unicode("a⒈com");
    assert!(matches!(result, Err(_)));

    let (_, result) = _to_unicode("xn--a-ecp.ru");
    assert!(matches!(result, Err(_)));

    let (_, result) = _to_unicode("xn--0.pt");
    assert!(matches!(result, Err(_)));

    let (out, result) = _to_unicode("日本語。ＪＰ");
    assert!(matches!(result, Ok(())));
    assert_eq!(out, "日本語.jp");

    let (out, result) = _to_unicode("☕.us");
    assert!(matches!(result, Ok(())));
    assert_eq!(out, "☕.us");
}

#[test]
fn test_v5() {
    assert!(is_combining_mark('\u{11C3A}'));
    assert!(_to_ascii("\u{11C3A}").is_err());
    assert!(_to_ascii("\u{850f}.\u{11C3A}").is_err());
    assert!(_to_ascii("\u{850f}\u{ff61}\u{11C3A}").is_err());
}

#[test]
fn test_v8_bidi_rules() {
    assert_eq!(_to_ascii("abc").unwrap(), "abc");
    assert_eq!(_to_ascii("123").unwrap(), "123");
    assert_eq!(_to_ascii("אבּג").unwrap(), "xn--kdb3bdf");
    assert_eq!(_to_ascii("ابج").unwrap(), "xn--mgbcm");
    assert_eq!(_to_ascii("abc.ابج").unwrap(), "abc.xn--mgbcm");
    assert_eq!(_to_ascii("אבּג.ابج").unwrap(), "xn--kdb3bdf.xn--mgbcm");

    // Bidi domain names cannot start with digits
    assert!(_to_ascii("0a.\u{05D0}").is_err());
    assert!(_to_ascii("0à.\u{05D0}").is_err());

    // Bidi chars may be punycode-encoded
    assert!(_to_ascii("xn--0ca24w").is_err());
}

#[test]
fn error_kinds() {
    let table = table();
    let strict = strict();
    // A label that cannot be decoded.
    let e = strict.to_unicode(&table, "xn--0.pt").1.unwrap_err();
    assert!(e.punycode && !e.validity_criteria);
    // A decoded label that is not normalized.
    let e = strict.to_unicode(&table, "xn--u-ccb.com").1.unwrap_err();
    assert!(e.validity_criteria && !e.punycode);
    // Disallowed under the STD3 rules, and only under them.
    let e = strict.to_unicode(&table, "a_b").1.unwrap_err();
    assert!(e.disallowed_by_std3_ascii_rules && e.validity_criteria);
    assert_eq!(Config::default().to_ascii(&table, "a_b").unwrap(), "a_b");
    let e = strict.to_unicode(&table, "a⒈com").1.unwrap_err();
    assert!(e.disallowed_mapped_in_std3);
    let (out, result) = Config::default().to_unicode(&table, "a⒈com");
    assert!(result.is_ok());
    assert_eq!(out, "a1.com");
    // Disallowed whatever the options.
    let (out, result) = Config::default().to_unicode(&table, "a\u{80}b");
    let e = result.unwrap_err();
    assert!(e.disallowed_character && e.validity_criteria);
    assert_eq!(out, "a\u{80}b");
    // The lengths.
    let e = strict.to_ascii(&table, "a..b").unwrap_err();
    assert!(e.too_short_for_dns && !e.too_long_for_dns);
    let e = strict.to_ascii(&table, &"a".repeat(64)).unwrap_err();
    assert!(e.too_long_for_dns && !e.too_short_for_dns);
}

#[test]
fn dns_length_limits() {
    let table = table();
    let strict = strict();
    assert!(strict.to_ascii(&table, "").unwrap_err().too_short_for_dns);
    assert!(strict.to_ascii(&table, ".").unwrap_err().too_short_for_dns);
    assert!(strict.to_ascii(&table, ".a").unwrap_err().too_short_for_dns);
    assert!(strict.to_ascii(&table, "a..").unwrap_err().too_short_for_dns);
    // One trailing full stop does not count.
    assert_eq!(strict.to_ascii(&table, "a.").unwrap(), "a.");
    // 63 is the longest label, 253 the longest name.
    assert_eq!(strict.to_ascii(&table, &"a".repeat(63)).unwrap(), "a".repeat(63));
    assert!(strict.to_ascii(&table, &"a".repeat(64)).unwrap_err().too_long_for_dns);
    let label = "a".repeat(63);
    let name = format!("{}.{}.{}.{}", label, label, label, "a".repeat(61));
    assert_eq!(name.len(), 253);
    assert_eq!(strict.to_ascii(&table, &name).unwrap(), name);
    assert_eq!(strict.to_ascii(&table, &format!("{}.", name)).unwrap(), format!("{}.", name));
    let name = format!("{}.{}.{}.{}", label, label, label, "a".repeat(62));
    assert!(strict.to_ascii(&table, &name).unwrap_err().too_long_for_dns);
    // Without the option the lengths are free.
    assert_eq!(Config::default().to_ascii(&table, "a..b").unwrap(), "a..b");
    assert_eq!(Config::default().to_ascii(&table, "").unwrap(), "");
    // The length is that of the encoded label.
    let long = "ü".repeat(60);
    assert!(strict.to_ascii(&table, &long).unwrap_err().too_long_for_dns);
}

#[test]
fn options() {
    let table = table();
    // Deviations are mapped under transitional processing only.
    let transitional = Config::default().transitional_processing(true);
    assert_eq!(transitional.to_ascii(&table, "Bloß.de").unwrap(), "bloss.de");
    assert_eq!(Config::default().to_ascii(&table, "Bloß.de").unwrap(), "xn--blo-7ka.de");
    // An encoded label is validated without transitional processing.
    assert_eq!(transitional.to_unicode(&table, "xn--blo-7ka.de").0, "bloß.de");
    assert!(transitional.to_unicode(&table, "xn--blo-7ka.de").1.is_ok());
    // Hyphens at the ends of a label.
    let hyphens = Config::default().check_hyphens(true);
    assert!(hyphens.to_ascii(&table, "-a.b").unwrap_err().validity_criteria);
    assert!(hyphens.to_ascii(&table, "a-.b").unwrap_err().validity_criteria);
    assert_eq!(hyphens.to_ascii(&table, "a-b.c").unwrap(), "a-b.c");
    assert_eq!(Config::default().to_ascii(&table, "-a.b").unwrap(), "-a.b");
    // The default options are all off.
    let config = Config::default();
    assert!(!config.use_std3_ascii_rules && !config.transitional_processing);
    assert!(!config.verify_dns_length && !config.check_hyphens);
    let config = config.use_std3_ascii_rules(true).use_std3_ascii_rules(false);
    assert!(!config.use_std3_ascii_rules);
}

#[test]
fn ignored_and_mapped_characters() {
    let table = table();
    let mut out = Vec::new();
    let mut errors = Errors::default();
    for c in "A\u{AD}ß⒈\u{80}_z".chars() {
        map_char(&table, c, Config::default(), &mut out, &mut errors);
    }
    assert_eq!(out, chars("aß1.\u{80}_z"));
    assert!(errors.disallowed_character);
    assert!(!errors.disallowed_by_std3_ascii_rules && !errors.disallowed_mapped_in_std3);
    let mut out = Vec::new();
    let mut errors = Errors::default();
    let config = Config::default().use_std3_ascii_rules(true).transitional_processing(true);
    for c in "ß⒈_".chars() {
        map_char(&table, c, config, &mut out, &mut errors);
    }
    assert_eq!(out, chars("ss1._"));
    assert!(errors.disallowed_by_std3_ascii_rules && errors.disallowed_mapped_in_std3);
    assert!(!errors.disallowed_character);
}

#[test]
fn fast_path() {
    assert!(is_simple_domain(&chars("abc.example-1.com")));
    assert!(is_simple_domain(&chars("x")));
    assert!(is_simple_domain(&chars("xn")));
    assert!(is_simple_domain(&chars("a..b")));
    assert!(!is_simple_domain(&chars("")));
    assert!(!is_simple_domain(&chars("Abc")));
    assert!(!is_simple_domain(&chars("a_b")));
    assert!(!is_simple_domain(&chars("-a")));
    assert!(!is_simple_domain(&chars("a-")));
    assert!(!is_simple_domain(&chars("a.-b")));
    assert!(!is_simple_domain(&chars("xn-")));
    assert!(!is_simple_domain(&chars("xn--")));
    assert!(!is_simple_domain(&chars("a.xn--b")));
    assert!(is_simple_domain(&chars("axn--b")));
    let (out, errors) = processing(&table(), "abc.example-1.com", strict());
    assert_eq!(out, "abc.example-1.com");
    assert!(Result::from(errors).is_ok());
}

#[test]
fn label_validity() {
    let table = table();
    let config = Config::default();
    assert!(is_valid(&table, &[], config));
    assert!(is_valid(&table, &chars("bloß"), config));
    assert!(!is_valid(&table, &chars("bloß"), config.transitional_processing(true)));
    assert!(is_valid(&table, &chars("a_b"), config));
    assert!(!is_valid(&table, &chars("a_b"), config.use_std3_ascii_rules(true)));
    assert!(!is_valid(&table, &chars("Abc"), config));
    assert!(!is_valid(&table, &chars("\u{308}a"), config));
    assert!(is_valid(&table, &chars("a\u{308}"), config));
    assert!(is_valid(&table, &chars("-a-"), config));
    assert!(!is_valid(&table, &chars("-a"), config.check_hyphens(true)));
}

#[test]
fn bidi_rule() {
    // Labels of a domain that is no bidi domain pass.
    assert!(passes_bidi(&chars("0a"), false));
    assert!(passes_bidi(&[], true));
    // From left to right.
    assert!(passes_bidi(&chars("abc"), true));
    assert!(passes_bidi(&chars("a1"), true));
    assert!(passes_bidi(&chars("a1\u{308}"), true));
    assert!(!passes_bidi(&chars("a-"), true));
    assert!(!passes_bidi(&chars("a\u{5D0}"), true));
    assert!(!passes_bidi(&chars("0a"), true));
    // From right to left.
    assert!(passes_bidi(&chars("אבּג"), true));
    assert!(passes_bidi(&chars("\u{5D0}1"), true));
    assert!(passes_bidi(&chars("\u{627}\u{660}"), true));
    assert!(passes_bidi(&chars("\u{5D0}\u{5BC}"), true));
    assert!(!passes_bidi(&chars("\u{5D0}a"), true));
    assert!(!passes_bidi(&chars("\u{5D0}-"), true));
    // Both EN and AN.
    assert!(!passes_bidi(&chars("\u{627}1\u{660}"), true));
    assert!(!passes_bidi(&chars("\u{627}\u{660}1\u{627}"), true));
    // What makes a bidi domain.
    assert!(is_bidi_domain(&chars("a\u{5D0}")));
    assert!(is_bidi_domain(&chars("\u{660}")));
    assert!(!is_bidi_domain(&chars("abc-123")));
    assert!(!is_bidi_domain(&chars("日本語")));
}

#[test]
fn to_ascii_output_is_letters_digits_hyphens() {
    let table = table();
    for domain in ["Bloß.de", "日本語。ＪＰ", "אבּג.ابج", "a-b.c", "☕.us", "ü.com."] {
        let ascii = strict().to_ascii(&table, domain).unwrap();
        assert!(ascii.chars().all(|c| c.is_ascii_alphanumeric() || c == '.' || c == '-'));
        // A domain that is its own ASCII form stays so.
        assert_eq!(strict().to_ascii(&table, &ascii).unwrap(), ascii);
    }
}

#[test]
fn encoded_labels_round_trip() {
    let table = table();
    for domain in ["xn--blo-7ka.de", "xn--kdb3bdf.xn--mgbcm", "xn--tda.com"] {
        let (unicode, result) = strict().to_unicode(&table, domain);
        assert!(result.is_ok());
        assert_eq!(strict().to_ascii(&table, &unicode).unwrap(), domain);
    }
}

#[test]
fn where_the_way_back_differs() {
    let table = table();
    // What a label decodes to may itself begin with the prefix of an encoded label.
    let (unicode, result) = Config::default().to_unicode(&table, "xn--xn---3ra");
    assert!(result.is_ok());
    assert_eq!(unicode, "xn--ü");
    assert!(Config::default().to_ascii(&table, &unicode).unwrap_err().punycode);
    // Transitional processing maps a deviation on the way back.
    let transitional = Config::default().transitional_processing(true);
    let (unicode, result) = transitional.to_unicode(&table, "xn--blo-7ka.de");
    assert!(result.is_ok());
    assert_eq!(unicode, "bloß.de");
    assert_eq!(transitional.to_ascii(&table, &unicode).unwrap(), "bloss.de");
}

#[test]
fn malformed_tables_are_refused() {
    let range = |a: char, b: char| Range { from: a, to: b };
    // No ranges.
    assert!(MappingTable::new(vec![], vec![], vec![Mapping::Valid], vec![]).is_none());
    // Everything valid.
    let whole = vec![range('\0', '\u{D7FF}'), range('\u{E000}', '\u{10FFFF}')];
    assert!(MappingTable::new(whole.clone(), vec![0x8000, 0x8000], vec![Mapping::Valid], vec![])
        .is_some());
    // A gap, an overlap, a missing start and a missing end.
    let gap = vec![range('\0', 'a'), range('c', '\u{D7FF}'), range('\u{E000}', '\u{10FFFF}')];
    assert!(MappingTable::new(gap, vec![0x8000; 3], vec![Mapping::Valid], vec![]).is_none());
    let overlap = vec![range('\0', 'b'), range('b', '\u{D7FF}'), range('\u{E000}', '\u{10FFFF}')];
    assert!(MappingTable::new(overlap, vec![0x8000; 3], vec![Mapping::Valid], vec![]).is_none());
    let late = vec![range('\u{1}', '\u{D7FF}'), range('\u{E000}', '\u{10FFFF}')];
    assert!(MappingTable::new(late, vec![0x8000; 2], vec![Mapping::Valid], vec![]).is_none());
    let early = vec![range('\0', '\u{D7FF}'), range('\u{E000}', '\u{10FFFE}')];
    assert!(MappingTable::new(early, vec![0x8000; 2], vec![Mapping::Valid], vec![]).is_none());
    // An index entry that leads nowhere, and one entry too few.
    assert!(MappingTable::new(whole.clone(), vec![0x8000, 0x8001], vec![Mapping::Valid], vec![])
        .is_none());
    assert!(MappingTable::new(whole.clone(), vec![0, 0x8000], vec![Mapping::Valid], vec![])
        .is_none());
    assert!(MappingTable::new(whole.clone(), vec![0x8000], vec![Mapping::Valid], vec![]).is_none());
    // A slice that is empty, and one that leaves the pool.
    let slice = |start: u8, len: u8| StringTableSlice { start_lo: start, start_hi: 0, len };
    let mapped = |s| vec![Mapping::Valid, Mapping::Mapped(s)];
    assert!(MappingTable::new(whole.clone(), vec![0x8000; 2], mapped(slice(0, 0)), vec!['a'])
        .is_none());
    assert!(MappingTable::new(whole.clone(), vec![0x8000; 2], mapped(slice(1, 1)), vec!['a'])
        .is_none());
    assert!(MappingTable::new(whole.clone(), vec![0x8000; 2], mapped(slice(0, 1)), vec!['a'])
        .is_some());
    // The fast path does not agree.
    assert!(MappingTable::new(whole, vec![0x8000; 2], vec![Mapping::Disallowed], vec![]).is_none());
}

#[test]
fn per_code_point_ranges() {
    let table = table();
    let text = |c: char| match table.find_char(c) {
        Mapping::Mapped(slice) => table.decode_slice(slice).iter().collect::<String>(),
        _ => String::new(),
    };
    assert_eq!(text('A'), "a");
    assert_eq!(text('M'), "m");
    assert_eq!(text('Z'), "z");
    assert_eq!(text('Ｊ'), "j");
    assert_eq!(text('。'), ".");
    assert!(matches!(table.find_char('\u{10FFFF}'), Mapping::Disallowed));
    assert!(matches!(table.find_char('\0'), Mapping::DisallowedStd3Valid));
    assert!(matches!(table.find_char('\u{AD}'), Mapping::Ignored));
    assert!(matches!(table.find_char('ß'), Mapping::Deviation(_)));
    assert!(matches!(table.find_char('⒈'), Mapping::DisallowedStd3Mapped(_)));
}
