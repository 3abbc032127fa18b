use idna::text::{append_chars, char_at, chars_of, has_prefix, split_labels, string_of};

fn chars(s: &str) -> Vec<char> {
    s.chars().collect()
}

#[test]
fn strings_and_scalar_values() {
    assert_eq!(chars_of(""), Vec::<char>::new());
    assert_eq!(chars_of("aß日\u{10FFFF}"), vec!['a', 'ß', '日', '\u{10FFFF}']);
    assert_eq!(string_of(&[]), "");
    assert_eq!(string_of(&['a', 'ß', '日', '\u{10FFFF}']), "aß日\u{10FFFF}");
    assert_eq!(char_at(&['a', 'ß'], 1), 'ß');
    let mut v = vec!['a'];
    append_chars(&mut v, &['b', 'c']);
    append_chars(&mut v, &[]);
    assert_eq!(v, vec!['a', 'b', 'c']);
}

#[test]
fn labels_of_a_domain() {
    let split = |s: &str| -> Vec<String> {
        split_labels(&chars(s)).iter().map(|l| l.iter().collect()).collect()
    };
    assert_eq!(split(""), vec![""]);
    assert_eq!(split("a"), vec!["a"]);
    assert_eq!(split("a.b"), vec!["a", "b"]);
    assert_eq!(split("a."), vec!["a", ""]);
    assert_eq!(split(".a"), vec!["", "a"]);
    assert_eq!(split("."), vec!["", ""]);
    assert_eq!(split("a..b"), vec!["a", "", "b"]);
    assert_eq!(split("日本語.jp"), vec!["日本語", "jp"]);
}

#[test]
fn prefixes() {
    assert!(has_prefix(&chars("xn--a"), &chars("xn--")));
    assert!(has_prefix(&chars("xn--"), &chars("xn--")));
    assert!(has_prefix(&chars("a"), &[]));
    assert!(!has_prefix(&chars("xn-"), &chars("xn--")));
    assert!(!has_prefix(&chars("Xn--a"), &chars("xn--")));
    assert!(!has_prefix(&chars("axn--"), &chars("xn--")));
}
