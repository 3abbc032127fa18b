//! What holds of the two conversions, whatever the domain.

use crate::bidi::{
    has_class, is_ascii_graphic, is_rtl_class, lemma_no_mixed_numbers, spec_is_bidi_domain,
    spec_passes_bidi,
};
use crate::punycode::decoder::spec_decode;
use crate::punycode::encoder::{is_digit_char, lemma_encode_chars, spec_encode};
use crate::punycode::lemma_char_range;
use crate::punycode::round_trip::lemma_round_trip;
use crate::table::{is_simple_char, TableView};
use crate::text::{
    each_char, joined, labels, lemma_joined_chars, lemma_labels_chars, lemma_labels_of_joined,
    no_stop, starts_with, FULL_STOP,
};
use crate::unicode::{bidi_class_of, is_nfc_of, nfc_of, BidiClass};
use crate::uts46::{
    all_pass_bidi, all_valid, any_bidi, any_undecoded, any_unencodable, ascii_errors, ascii_form,
    ascii_label, ascii_labels, char_allowed, char_text, dns_name, is_simple,
    is_simple_label, label_result, label_texts, map_errors, map_text, non_transitional,
    punycode_prefix, spec_is_valid, spec_processing, spec_to_ascii, spec_to_unicode, too_long,
    too_short, Config, Errors,
};
use vstd::prelude::*;
use vstd::utf8::is_ascii_chars;

verus! {

/// A letter, a digit, a hyphen or a full stop of ASCII.
pub open spec fn is_ldh_or_stop(c: char) -> bool {
    let n = c as int;
    0x41 <= n <= 0x5A || 0x61 <= n <= 0x7A || 0x30 <= n <= 0x39 || n == 0x2D || n == 0x2E
}

/// A table follows the STD3 rules when the only ASCII characters that it
/// lets through as valid or as deviations are letters, digits, the hyphen and
/// the full stop.
pub open spec fn follows_std3(t: TableView) -> bool {
    forall|c: char|
        c <= '\u{7f}' && (#[trigger] t.find(c) is Valid || t.find(c) is Deviation) ==> is_ldh_or_stop(c)
}

/// What holds of the digits `a` to `z` and `0` to `9`, of the hyphen and of
/// the ASCII characters of a label holds of every character of its ASCII form.
proof fn lemma_ascii_label_chars(label: Seq<char>, holds: spec_fn(char) -> bool)
    requires
        forall|c: char| is_digit_char(c) ==> #[trigger] holds(c),
        holds('-'),
        forall|j: int| 0 <= j < label.len() && label[j] <= '\u{7f}' ==> holds(#[trigger] label[j]),
    ensures
        each_char(ascii_label(label), holds),
{
    let form = ascii_label(label);
    if is_ascii_chars(label) {
        assert forall|j: int| 0 <= j < form.len() implies holds(#[trigger] form[j]) by {
            assert(label[j] <= '\u{7f}');
        }
    } else {
        lemma_encode_chars(label, holds);
        match spec_encode(label) {
            Some(encoded) => {
                assert(is_digit_char('x') && is_digit_char('n'));
                assert forall|j: int| 0 <= j < form.len() implies holds(#[trigger] form[j]) by {
                    if j >= 4 {
                        assert(form[j] == encoded[j - 4]);
                    }
                }
            },
            None => {},
        }
    }
}

/// The ASCII form of a domain is ASCII, whatever the errors: a character of
/// it is a byte of it.
pub proof fn lemma_ascii_form_is_ascii(t: TableView, domain: Seq<char>, config: Config)
    ensures
        is_ascii_chars(ascii_form(t, domain, config)),
{
    let text = spec_processing(t, domain, config).0;
    let ascii = |c: char| '\0' <= c <= '\u{7f}';
    let forms = ascii_labels(text);
    assert forall|i: int| 0 <= i < forms.len() implies each_char(#[trigger] forms[i], ascii) by {
        let label = labels(text)[i];
        assert forall|j: int| 0 <= j < label.len() && label[j] <= '\u{7f}' implies ascii(
            #[trigger] label[j],
        ) by {
            lemma_char_range(label[j]);
        }
        lemma_ascii_label_chars(label, ascii);
    }
    lemma_joined_chars(forms, ascii);
    let form = ascii_form(t, domain, config);
    assert forall|j: int| 0 <= j < form.len() implies '\0' <= #[trigger] form[j] <= '\u{7f}' by {
        assert(ascii(form[j]));
    }
}

/// With the lengths verified, a length error is recorded exactly when the
/// name in its ASCII form breaks a limit of the DNS, counted in bytes: "too
/// short" when the name or one of its labels is empty, "too long" when the
/// name has more than 253 bytes or one of its labels more than 63.
pub proof fn lemma_dns_length_errors(t: TableView, domain: Seq<char>, config: Config)
    requires
        config.verify_dns_length,
    ensures
        ({
            let name = dns_name(ascii_form(t, domain, config));
            let errors = ascii_errors(t, domain, config);
            &&& errors.too_short_for_dns <==> (vstd::utf8::encode_utf8(name).len() == 0
                || exists|i: int|
                0 <= i < labels(name).len() && vstd::utf8::encode_utf8(
                    #[trigger] labels(name)[i],
                ).len() == 0)
            &&& errors.too_long_for_dns <==> (vstd::utf8::encode_utf8(name).len() > 253
                || exists|i: int|
                0 <= i < labels(name).len() && vstd::utf8::encode_utf8(
                    #[trigger] labels(name)[i],
                ).len() > 63)
        }),
{
    broadcast use vstd::utf8::is_ascii_chars_encode_utf8;

    let form = ascii_form(t, domain, config);
    let name = dns_name(form);
    lemma_ascii_form_is_ascii(t, domain, config);
    let ascii = |c: char| '\0' <= c <= '\u{7f}';
    assert(is_ascii_chars(name)) by {
        assert forall|j: int| 0 <= j < name.len() implies '\0' <= #[trigger] name[j] <= '\u{7f}' by {
            assert(name[j] == form[j]);
        }
    }
    assert(each_char(name, ascii));
    lemma_labels_chars(name, ascii);
    assert forall|i: int| 0 <= i < labels(name).len() implies is_ascii_chars(
        #[trigger] labels(name)[i],
    ) by {
        let label = labels(name)[i];
        assert(each_char(label, ascii));
        assert forall|j: int| 0 <= j < label.len() implies '\0' <= #[trigger] label[j] <= '\u{7f}' by {
            assert(ascii(label[j]));
        }
    }
    assert forall|i: int| 0 <= i < labels(name).len() implies vstd::utf8::encode_utf8(
        #[trigger] labels(name)[i],
    ).len() == labels(name)[i].len() by {
        assert(is_ascii_chars(labels(name)[i]));
    }
}

/// A domain that is its own ASCII form is converted to itself again.
pub proof fn lemma_to_ascii_fixed(t: TableView, domain: Seq<char>, config: Config)
    requires
        spec_to_ascii(t, domain, config) == Ok::<Seq<char>, Errors>(domain),
    ensures
        spec_to_ascii(t, spec_to_ascii(t, domain, config).unwrap(), config) == spec_to_ascii(
            t,
            domain,
            config,
        ),
{
}

/// Every character that a valid label holds is one that the table lets
/// through as valid or as a deviation, where the STD3 rules are on.
proof fn lemma_valid_label_chars(t: TableView, label: Seq<char>, config: Config)
    requires
        config.use_std3_ascii_rules,
        spec_is_valid(t, label, config),
    ensures
        each_char(label, |c: char| t.find(c) is Valid || t.find(c) is Deviation),
{
    assert forall|j: int| 0 <= j < label.len() implies (t.find(#[trigger] label[j]) is Valid
        || t.find(label[j]) is Deviation) by {
        assert(char_allowed(t, label[j], config));
    }
}

/// Under the STD3 rules, and with a table that follows them, a domain that
/// is converted to ASCII without an error holds only letters, digits,
/// hyphens and full stops.
pub proof fn lemma_to_ascii_ldh(t: TableView, domain: Seq<char>, config: Config)
    requires
        t.wf(),
        follows_std3(t),
        config.use_std3_ascii_rules,
        spec_to_ascii(t, domain, config) is Ok,
    ensures
        each_char(spec_to_ascii(t, domain, config).unwrap(), |c: char| is_ldh_or_stop(c)),
{
    let ldh = |c: char| is_ldh_or_stop(c);
    // What holds of every character of the processed domain: it is a full stop or one that
    // the table lets through.
    let passed = |c: char| c == FULL_STOP || t.find(c) is Valid || t.find(c) is Deviation;
    let processed = spec_processing(t, domain, config);
    let text = processed.0;
    assert(!ascii_errors(t, domain, config).failed());
    assert(!processed.1.validity_criteria);
    assert(!processed.1.punycode);
    assert(each_char(text, passed)) by {
        if is_simple(domain) {
            assert forall|j: int| 0 <= j < text.len() implies passed(#[trigger] text[j]) by {
                assert(is_simple_char(domain[j]));
                assert(t.find(domain[j]) is Valid);
            }
        } else {
            let parts = labels(nfc_of(map_text(t, domain, config)));
            let texts = label_texts(t, parts, config);
            assert(all_valid(t, parts, config));
            assert forall|i: int| 0 <= i < texts.len() implies each_char(
                #[trigger] texts[i],
                passed,
            ) by {
                let result = label_result(t, parts[i], config);
                assert(result.valid);
                assert(texts[i] == result.text);
                if starts_with(parts[i], punycode_prefix()) {
                    match spec_decode(parts[i].subrange(4, parts[i].len() as int)) {
                        Some(decoded) => {
                            lemma_valid_label_chars(t, decoded, non_transitional(config));
                        },
                        None => {},
                    }
                } else {
                    lemma_valid_label_chars(t, parts[i], config);
                }
                assert forall|j: int| 0 <= j < texts[i].len() implies passed(
                    #[trigger] texts[i][j],
                ) by {
                    let c = texts[i][j];
                    assert(t.find(c) is Valid || t.find(c) is Deviation);
                }
            }
            lemma_joined_chars(texts, passed);
        }
    }
    lemma_labels_chars(text, passed);
    let forms = ascii_labels(text);
    assert forall|i: int| 0 <= i < forms.len() implies each_char(#[trigger] forms[i], ldh) by {
        let label = labels(text)[i];
        assert(each_char(label, passed));
        assert forall|j: int| 0 <= j < label.len() && label[j] <= '\u{7f}' implies ldh(
            #[trigger] label[j],
        ) by {
            assert(passed(label[j]));
        }
        assert forall|c: char| is_digit_char(c) implies #[trigger] ldh(c) by {}
        lemma_ascii_label_chars(label, ldh);
    }
    lemma_joined_chars(forms, ldh);
}

/// A table without a deviation in ASCII, as the Unicode data are.
pub open spec fn ascii_without_deviation(t: TableView) -> bool {
    forall|c: char| c <= '\u{7f}' ==> !(#[trigger] t.find(c) is Deviation)
}

/// A label that a domain may hold in its encoded form: a valid, normalized
/// label that the codec takes both ways.
pub open spec fn is_decodable_label(t: TableView, label: Seq<char>, config: Config) -> bool {
    &&& each_char(label, no_stop())
    &&& is_nfc_of(label)
    &&& spec_is_valid(t, label, non_transitional(config))
    &&& spec_encode(label) is Some
    &&& spec_decode(spec_encode(label).unwrap()) is Some
}

/// A label that the conversion to ASCII encodes, and encodes back to where
/// it came from: one that is not ASCII and does not itself begin with `xn--`.
pub open spec fn is_encoded_label(t: TableView, label: Seq<char>, config: Config) -> bool {
    &&& is_decodable_label(t, label, config)
    &&& !is_ascii_chars(label)
    &&& !starts_with(label, punycode_prefix())
}

/// The encoded form of a label: `xn--` and its Punycode encoding.
pub open spec fn encoded_form(label: Seq<char>) -> Seq<char> {
    punycode_prefix() + spec_encode(label).unwrap()
}

/// The labels in their encoded forms.
pub open spec fn encoded_forms(parts: Seq<Seq<char>>) -> Seq<Seq<char>> {
    Seq::new(parts.len(), |i: int| encoded_form(parts[i]))
}

/// Whether the mapping step leaves a scalar value as it is, without an
/// error.
spec fn passes_mapping(t: TableView, config: Config) -> spec_fn(char) -> bool {
    |c: char| char_allowed(t, c, config)
}

/// The mapping step leaves a domain as it is where it leaves each of its
/// scalar values so.
proof fn lemma_map_identity(t: TableView, domain: Seq<char>, config: Config)
    requires
        each_char(domain, passes_mapping(t, config)),
    ensures
        map_text(t, domain, config) == domain,
        map_errors(t, domain, config) == Errors::none(),
    decreases domain.len(),
{
    if domain.len() > 0 {
        let rest = domain.drop_last();
        assert forall|j: int| 0 <= j < rest.len() implies passes_mapping(t, config)(
            #[trigger] rest[j],
        ) by {
            assert(rest[j] == domain[j]);
        }
        lemma_map_identity(t, rest, config);
        let c = domain.last();
        assert(passes_mapping(t, config)(domain[domain.len() - 1]));
        assert(char_text(t, c, config) == seq![c]);
        assert(rest + seq![c] =~= domain);
    } else {
        assert(map_text(t, domain, config) =~= domain);
    }
}

/// The mapping step leaves the full stop as it is.
proof fn lemma_stop_passes(t: TableView, config: Config)
    requires
        t.wf(),
    ensures
        passes_mapping(t, config)(FULL_STOP),
{
    assert(is_simple_char(FULL_STOP));
    assert(t.find(FULL_STOP) is Valid);
}

/// Under the options without transitional processing each scalar value of
/// a valid label is allowed.
proof fn lemma_encoded_label_chars(t: TableView, label: Seq<char>, config: Config)
    requires
        is_decodable_label(t, label, config),
    ensures
        forall|j: int|
            0 <= j < label.len() ==> char_allowed(t, #[trigger] label[j], non_transitional(config)),
{
}

/// The encoded form of a label holds no full stop, and the mapping step
/// leaves it as it is.
proof fn lemma_form_chars(t: TableView, label: Seq<char>, config: Config)
    requires
        t.wf(),
        ascii_without_deviation(t),
        is_decodable_label(t, label, config),
    ensures
        each_char(encoded_form(label), no_stop()),
        each_char(encoded_form(label), passes_mapping(t, config)),
{
    let both = |c: char| no_stop()(c) && passes_mapping(t, config)(c);
    lemma_encoded_label_chars(t, label, config);
    assert forall|c: char| is_digit_char(c) implies #[trigger] both(c) by {
        assert(is_simple_char(c));
        assert(t.find(c) is Valid);
    }
    assert(both('-')) by {
        assert(is_simple_char('-'));
        assert(t.find('-') is Valid);
    }
    assert forall|j: int| 0 <= j < label.len() && label[j] <= '\u{7f}' implies both(
        #[trigger] label[j],
    ) by {
        assert(no_stop()(label[j]));
        assert(char_allowed(t, label[j], non_transitional(config)));
        assert(!(t.find(label[j]) is Deviation));
    }
    lemma_encode_chars(label, both);
    let encoded = spec_encode(label).unwrap();
    let form = encoded_form(label);
    assert(is_digit_char('x') && is_digit_char('n'));
    assert forall|j: int| 0 <= j < form.len() implies no_stop()(#[trigger] form[j])
        && passes_mapping(t, config)(form[j]) by {
        if j >= 4 {
            assert(form[j] == encoded[j - 4]);
            assert(both(encoded[j - 4]));
        } else {
            assert(both(form[j]));
        }
    }
}

/// What the decode-and-validate step makes of one encoded label: the label
/// itself, valid and decoded.
proof fn lemma_encoded_label(t: TableView, label: Seq<char>, config: Config)
    requires
        is_decodable_label(t, label, config),
    ensures
        label_result(t, encoded_form(label), config).text == label,
        label_result(t, encoded_form(label), config).valid,
        !label_result(t, encoded_form(label), config).punycode,
        label_result(t, encoded_form(label), config).bidi == spec_is_bidi_domain(label),
        starts_with(encoded_form(label), punycode_prefix()),
{
    let encoded = spec_encode(label).unwrap();
    let form = encoded_form(label);
    assert(form.subrange(0, 4) =~= punycode_prefix());
    assert(form.subrange(4, form.len() as int) =~= encoded);
    lemma_round_trip(label);
}

/// What the decode-and-validate step makes of the labels of a domain whose
/// every label is the encoded form of a valid, normalized label: the labels
/// themselves, all valid, none undecoded.
proof fn lemma_encoded_labels(t: TableView, parts: Seq<Seq<char>>, config: Config)
    requires
        forall|i: int| 0 <= i < parts.len() ==> is_decodable_label(t, #[trigger] parts[i], config),
    ensures
        label_texts(t, encoded_forms(parts), config) == parts,
        all_valid(t, encoded_forms(parts), config),
        !any_undecoded(t, encoded_forms(parts), config),
        any_bidi(t, encoded_forms(parts), config) <==> exists|i: int|
            0 <= i < parts.len() && spec_is_bidi_domain(#[trigger] parts[i]),
{
    let forms = encoded_forms(parts);
    assert forall|i: int| 0 <= i < parts.len() implies {
        let result = #[trigger] label_result(t, forms[i], config);
        result.text == parts[i] && result.valid && !result.punycode && result.bidi
            == spec_is_bidi_domain(parts[i])
    } by {
        assert(is_decodable_label(t, parts[i], config));
        lemma_encoded_label(t, parts[i], config);
    }
    assert(label_texts(t, forms, config) =~= parts);
    if any_bidi(t, forms, config) {
        let i = choose|i: int|
            0 <= i < forms.len() && (#[trigger] label_result(t, forms[i], config)).bidi;
        assert(spec_is_bidi_domain(parts[i]));
    }
    if exists|i: int| 0 <= i < parts.len() && spec_is_bidi_domain(#[trigger] parts[i]) {
        let i = choose|i: int| 0 <= i < parts.len() && spec_is_bidi_domain(#[trigger] parts[i]);
        assert(label_result(t, forms[i], config).bidi);
    }
}

/// The domain of the encoded forms is mapped to itself, splits into those
/// forms, and is not of the fast path.
proof fn lemma_encoded_domain(t: TableView, parts: Seq<Seq<char>>, config: Config)
    requires
        t.wf(),
        ascii_without_deviation(t),
        parts.len() >= 1,
        forall|i: int| 0 <= i < parts.len() ==> is_decodable_label(t, #[trigger] parts[i], config),
    ensures
        map_text(t, joined(encoded_forms(parts)), config) == joined(encoded_forms(parts)),
        map_errors(t, joined(encoded_forms(parts)), config) == Errors::none(),
        labels(joined(encoded_forms(parts))) == encoded_forms(parts),
        !is_simple(joined(encoded_forms(parts))),
{
    let forms = encoded_forms(parts);
    let domain = joined(forms);
    assert forall|i: int| 0 <= i < forms.len() implies each_char(#[trigger] forms[i], no_stop())
        && each_char(forms[i], passes_mapping(t, config)) by {
        assert(is_decodable_label(t, parts[i], config));
        lemma_form_chars(t, parts[i], config);
    }
    lemma_stop_passes(t, config);
    lemma_joined_chars(forms, passes_mapping(t, config));
    lemma_map_identity(t, domain, config);
    lemma_labels_of_joined(forms);
    assert(is_decodable_label(t, parts[0], config));
    lemma_encoded_label(t, parts[0], config);
    assert(!is_simple_label(labels(domain)[0]));
}

/// A domain in encoded form is converted to Unicode by decoding its labels.
/// Let every label of `parts` be valid and normalized, let the table have no
/// deviation in ASCII and the normalization leave the encoded domain, which
/// is ASCII, as it is, and let the labels pass the bidi rule where one of
/// them makes a bidi domain: then the domain of their encoded forms is
/// converted, without an error, to the labels joined.
pub proof fn lemma_to_unicode_decodes(t: TableView, parts: Seq<Seq<char>>, config: Config)
    requires
        t.wf(),
        ascii_without_deviation(t),
        parts.len() >= 1,
        forall|i: int| 0 <= i < parts.len() ==> is_decodable_label(t, #[trigger] parts[i], config),
        nfc_of(joined(encoded_forms(parts))) == joined(encoded_forms(parts)),
        (exists|i: int| 0 <= i < parts.len() && spec_is_bidi_domain(#[trigger] parts[i]))
            ==> all_pass_bidi(joined(parts)),
    ensures
        spec_to_unicode(t, joined(encoded_forms(parts)), config) == (
            joined(parts),
            Ok::<(), Errors>(()),
        ),
{
    lemma_encoded_domain(t, parts, config);
    lemma_encoded_labels(t, parts, config);
}

/// The domain of the labels themselves is mapped to itself, splits into
/// them, and is not of the fast path.
proof fn lemma_decoded_domain(t: TableView, parts: Seq<Seq<char>>, config: Config)
    requires
        t.wf(),
        !config.transitional_processing,
        parts.len() >= 1,
        forall|i: int| 0 <= i < parts.len() ==> is_encoded_label(t, #[trigger] parts[i], config),
    ensures
        map_text(t, joined(parts), config) == joined(parts),
        map_errors(t, joined(parts), config) == Errors::none(),
        labels(joined(parts)) == parts,
        !is_simple(joined(parts)),
{
    let domain = joined(parts);
    assert(non_transitional(config) == config);
    assert forall|i: int| 0 <= i < parts.len() implies each_char(#[trigger] parts[i], no_stop())
        && each_char(parts[i], passes_mapping(t, config)) by {
        let label = parts[i];
        assert(is_encoded_label(t, label, config));
        lemma_encoded_label_chars(t, label, config);
        assert forall|j: int| 0 <= j < label.len() implies passes_mapping(t, config)(
            #[trigger] label[j],
        ) by {
            assert(char_allowed(t, label[j], config));
        }
    }
    lemma_stop_passes(t, config);
    lemma_joined_chars(parts, passes_mapping(t, config));
    lemma_map_identity(t, domain, config);
    lemma_labels_of_joined(parts);
    // A label that is not ASCII keeps the domain off the fast path.
    if is_simple(domain) {
        let simple = |c: char| is_simple_char(c);
        assert(each_char(domain, simple));
        lemma_labels_chars(domain, simple);
        assert(each_char(labels(domain)[0], simple));
        assert(is_encoded_label(t, parts[0], config));
        assert forall|j: int| 0 <= j < parts[0].len() implies '\0' <= #[trigger] parts[0][j]
            <= '\u{7f}' by {
            assert(simple(parts[0][j]));
        }
    }
}

/// What the decode-and-validate step makes of the labels themselves: it
/// leaves them as they are, all valid.
proof fn lemma_decoded_labels(t: TableView, parts: Seq<Seq<char>>, config: Config)
    requires
        !config.transitional_processing,
        forall|i: int| 0 <= i < parts.len() ==> is_encoded_label(t, #[trigger] parts[i], config),
    ensures
        label_texts(t, parts, config) == parts,
        all_valid(t, parts, config),
        !any_undecoded(t, parts, config),
        any_bidi(t, parts, config) <==> exists|i: int|
            0 <= i < parts.len() && spec_is_bidi_domain(#[trigger] parts[i]),
{
    assert(non_transitional(config) == config);
    assert forall|i: int| 0 <= i < parts.len() implies {
        let result = #[trigger] label_result(t, parts[i], config);
        result.text == parts[i] && result.valid && !result.punycode && result.bidi
            == spec_is_bidi_domain(parts[i])
    } by {
        assert(is_encoded_label(t, parts[i], config));
    }
    assert(label_texts(t, parts, config) =~= parts);
    if any_bidi(t, parts, config) {
        let i = choose|i: int|
            0 <= i < parts.len() && (#[trigger] label_result(t, parts[i], config)).bidi;
        assert(spec_is_bidi_domain(parts[i]));
    }
    if exists|i: int| 0 <= i < parts.len() && spec_is_bidi_domain(#[trigger] parts[i]) {
        let i = choose|i: int| 0 <= i < parts.len() && spec_is_bidi_domain(#[trigger] parts[i]);
        assert(label_result(t, parts[i], config).bidi);
    }
}

/// The conversion to ASCII undoes the conversion to Unicode. Let every label
/// of `parts` be valid, normalized and not ASCII, and let none begin with
/// `xn--`; let the labels pass the bidi rule where one of them makes a bidi
/// domain. Without transitional processing, with the normalization leaving
/// the decoded domain as it is, and with the encoded domain inside the length
/// limits where they are verified, the decoded domain is converted back to
/// the encoded one.
pub proof fn lemma_to_ascii_encodes(t: TableView, parts: Seq<Seq<char>>, config: Config)
    requires
        t.wf(),
        !config.transitional_processing,
        parts.len() >= 1,
        forall|i: int| 0 <= i < parts.len() ==> is_encoded_label(t, #[trigger] parts[i], config),
        nfc_of(joined(parts)) == joined(parts),
        (exists|i: int| 0 <= i < parts.len() && spec_is_bidi_domain(#[trigger] parts[i]))
            ==> all_pass_bidi(joined(parts)),
        config.verify_dns_length ==> !too_short(joined(encoded_forms(parts))) && !too_long(
            joined(encoded_forms(parts)),
        ),
    ensures
        spec_to_ascii(t, joined(parts), config) == Ok::<Seq<char>, Errors>(
            joined(encoded_forms(parts)),
        ),
{
    let domain = joined(parts);
    lemma_decoded_domain(t, parts, config);
    lemma_decoded_labels(t, parts, config);
    let processed = spec_processing(t, domain, config);
    assert(processed.0 == domain);
    assert(processed.1 == Errors::none());
    // Every label is encoded.
    assert(ascii_labels(domain) =~= encoded_forms(parts)) by {
        assert forall|i: int| 0 <= i < parts.len() implies ascii_label(parts[i]) == encoded_form(
            parts[i],
        ) by {
            assert(is_encoded_label(t, parts[i], config));
        }
    }
    assert(!any_unencodable(domain)) by {
        assert forall|i: int| 0 <= i < labels(domain).len() implies spec_encode(
            #[trigger] labels(domain)[i],
        ) is Some by {
            assert(is_encoded_label(t, parts[i], config));
        }
    }
}

/// Whether a scalar value is of class `AN` and outside printable ASCII.
pub open spec fn is_wide_an(c: char) -> bool {
    bidi_class_of(c) is AN && !is_ascii_graphic(c)
}

/// Whether the label holds a scalar value of class `AN` outside printable
/// ASCII.
pub open spec fn has_wide_an(label: Seq<char>) -> bool {
    exists|j: int| 0 <= j < label.len() && is_wide_an(#[trigger] label[j])
}

/// A label that makes no bidi domain holds no `AN` outside printable ASCII.
proof fn lemma_plain_label(label: Seq<char>)
    requires
        !spec_is_bidi_domain(label),
    ensures
        each_char(label, |c: char| !is_wide_an(c)),
{
    assert forall|j: int| 0 <= j < label.len() implies !is_wide_an(#[trigger] label[j]) by {
        if is_wide_an(label[j]) {
            assert(!is_ascii_graphic(label[j]) && is_rtl_class(bidi_class_of(label[j])));
        }
    }
}

/// Bidi rule 4 on the output of the conversion to Unicode: where a domain is
/// converted without an error, no label of the output holds both a scalar
/// value of class `EN` and one of class `AN` outside printable ASCII.
pub proof fn lemma_to_unicode_numbers(t: TableView, domain: Seq<char>, config: Config)
    requires
        spec_to_unicode(t, domain, config).1 is Ok,
    ensures
        forall|i: int|
            0 <= i < labels(spec_to_unicode(t, domain, config).0).len() ==> !(has_class(
                #[trigger] labels(spec_to_unicode(t, domain, config).0)[i],
                BidiClass::EN,
            ) && has_wide_an(labels(spec_to_unicode(t, domain, config).0)[i])),
{
    let processed = spec_processing(t, domain, config);
    let text = processed.0;
    let narrow = |c: char| !is_wide_an(c);
    assert(!processed.1.failed());
    if is_simple(domain) || !any_bidi(
        t,
        labels(nfc_of(map_text(t, domain, config))),
        config,
    ) {
        // No label makes a bidi domain: the output holds no such `AN` at all.
        assert(each_char(text, narrow)) by {
            if is_simple(domain) {
                assert forall|j: int| 0 <= j < text.len() implies narrow(#[trigger] text[j]) by {
                    assert(is_simple_char(domain[j]));
                    assert(is_ascii_graphic(domain[j]));
                }
            } else {
                let parts = labels(nfc_of(map_text(t, domain, config)));
                let texts = label_texts(t, parts, config);
                assert(!any_undecoded(t, parts, config));
                assert forall|i: int| 0 <= i < texts.len() implies each_char(
                    #[trigger] texts[i],
                    narrow,
                ) by {
                    let result = label_result(t, parts[i], config);
                    assert(!result.bidi);
                    assert(!result.punycode);
                    assert(texts[i] == result.text);
                    lemma_plain_label(result.text);
                    assert forall|j: int| 0 <= j < texts[i].len() implies narrow(
                        #[trigger] texts[i][j],
                    ) by {
                        assert(!is_wide_an(result.text[j]));
                    }
                }
                assert(narrow(FULL_STOP)) by {
                    assert(is_ascii_graphic(FULL_STOP));
                }
                lemma_joined_chars(texts, narrow);
            }
        }
        lemma_labels_chars(text, narrow);
        assert forall|i: int| 0 <= i < labels(text).len() implies !has_wide_an(
            #[trigger] labels(text)[i],
        ) by {
            let label = labels(text)[i];
            assert(each_char(label, narrow));
            if has_wide_an(label) {
                let j = choose|j: int| 0 <= j < label.len() && is_wide_an(#[trigger] label[j]);
                assert(narrow(label[j]));
            }
        }
    } else {
        // Some label makes a bidi domain: every label of the output passes the bidi rule.
        assert(!processed.1.validity_criteria);
        assert forall|i: int| 0 <= i < labels(text).len() implies !(has_class(
            #[trigger] labels(text)[i],
            BidiClass::EN,
        ) && has_wide_an(labels(text)[i])) by {
            let label = labels(text)[i];
            assert(spec_passes_bidi(label));
            lemma_no_mixed_numbers(label);
            if has_wide_an(label) {
                let j = choose|j: int| 0 <= j < label.len() && is_wide_an(#[trigger] label[j]);
                assert(bidi_class_of(label[j]) == BidiClass::AN);
                assert(has_class(label, BidiClass::AN));
            }
        }
    }
}

/// Bidi rule 4 on the output of the conversion to Unicode, for a character
/// database that gives no printable ASCII character the class `AN`: where a
/// domain is converted without an error, no label of the output holds both
/// `EN` and `AN`.
pub proof fn lemma_to_unicode_no_mixed_numbers(t: TableView, domain: Seq<char>, config: Config)
    requires
        spec_to_unicode(t, domain, config).1 is Ok,
        forall|c: char| is_ascii_graphic(c) ==> !(#[trigger] bidi_class_of(c) is AN),
    ensures
        forall|i: int|
            0 <= i < labels(spec_to_unicode(t, domain, config).0).len() ==> !(has_class(
                #[trigger] labels(spec_to_unicode(t, domain, config).0)[i],
                BidiClass::EN,
            ) && has_class(labels(spec_to_unicode(t, domain, config).0)[i], BidiClass::AN)),
{
    let text = spec_to_unicode(t, domain, config).0;
    lemma_to_unicode_numbers(t, domain, config);
    assert forall|i: int| 0 <= i < labels(text).len() implies !(has_class(
        #[trigger] labels(text)[i],
        BidiClass::EN,
    ) && has_class(labels(text)[i], BidiClass::AN)) by {
        let label = labels(text)[i];
        if has_class(label, BidiClass::AN) {
            let j = choose|j: int|
                0 <= j < label.len() && bidi_class_of(#[trigger] label[j]) == BidiClass::AN;
            assert(is_wide_an(label[j]));
            assert(has_wide_an(label));
        }
    }
}

} // verus!
