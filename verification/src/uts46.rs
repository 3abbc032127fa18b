//! Unicode IDNA Compatibility Processing (UTS #46): mapping, normalization,
//! validation of the labels of a domain, and the two conversions built on it.

use crate::bidi::{is_bidi_domain, passes_bidi, spec_is_bidi_domain, spec_passes_bidi};
use crate::punycode::decoder::{decode_chars, is_all_ascii, spec_decode};
use crate::punycode::encoder::{encode, spec_encode};
use crate::table::{is_simple_char, Mapping, MappingKind, MappingTable, TableView};
use crate::text::{
    append_chars, char_at, chars_of, has_prefix, joined, label_views, labels, split_labels,
    starts_with, string_of, FULL_STOP,
};
use crate::unicode::{combining_mark, is_combining_mark, is_nfc, is_nfc_of, nfc, nfc_of};
use vstd::prelude::*;
use vstd::slice::slice_subrange;
use vstd::utf8::is_ascii_chars;

pub mod laws;

verus! {

/// The options of the processing. All are off by default.
#[derive(Clone, Copy, Debug)]
pub struct Config {
    /// Whether what the STD3 rules disallow in ASCII is an error.
    pub use_std3_ascii_rules: bool,
    /// Whether deviations are mapped, as they were under IDNA2003.
    pub transitional_processing: bool,
    /// Whether the conversion to ASCII holds the result to the length limits
    /// of the DNS: 1 to 63 bytes for a label, 1 to 253 for the name.
    pub verify_dns_length: bool,
    /// Whether a label that begins or ends with a hyphen is invalid.
    pub check_hyphens: bool,
}

impl Default for Config {
    fn default() -> (config: Config)
        ensures
            !config.use_std3_ascii_rules,
            !config.transitional_processing,
            !config.verify_dns_length,
            !config.check_hyphens,
    {
        Config {
            use_std3_ascii_rules: false,
            transitional_processing: false,
            check_hyphens: false,
            verify_dns_length: false,
        }
    }
}

/// The kinds of error met while a domain was processed: each flag says that
/// its kind was met at least once.
#[derive(Clone, Copy, Debug)]
pub struct Errors {
    /// A label could not be decoded, or could not be encoded.
    pub punycode: bool,
    /// A label failed the validity criteria or the bidi rule.
    pub validity_criteria: bool,
    /// With the STD3 rules on, a scalar value was met that they disallow and
    /// that is valid without them.
    pub disallowed_by_std3_ascii_rules: bool,
    /// With the STD3 rules on, a scalar value was met that they disallow and
    /// that is mapped without them.
    pub disallowed_mapped_in_std3: bool,
    /// A scalar value was met that is disallowed whatever the options.
    pub disallowed_character: bool,
    /// The name, or one of its labels, is too long for the DNS.
    pub too_long_for_dns: bool,
    /// The name, or one of its labels, is empty.
    pub too_short_for_dns: bool,
}

impl Default for Errors {
    fn default() -> (errors: Errors)
        ensures
            errors == Errors::none(),
    {
        Errors {
            punycode: false,
            validity_criteria: false,
            disallowed_by_std3_ascii_rules: false,
            disallowed_mapped_in_std3: false,
            disallowed_character: false,
            too_long_for_dns: false,
            too_short_for_dns: false,
        }
    }
}

impl Errors {
    /// No error of any kind.
    pub open spec fn none() -> Errors {
        Errors {
            punycode: false,
            validity_criteria: false,
            disallowed_by_std3_ascii_rules: false,
            disallowed_mapped_in_std3: false,
            disallowed_character: false,
            too_long_for_dns: false,
            too_short_for_dns: false,
        }
    }

    /// Whether an error of any kind was met.
    pub open spec fn failed(self) -> bool {
        self.punycode || self.validity_criteria || self.disallowed_by_std3_ascii_rules
            || self.disallowed_mapped_in_std3 || self.disallowed_character || self.too_long_for_dns
            || self.too_short_for_dns
    }

    /// The result that a set of errors stands for.
    pub open spec fn spec_result(self) -> Result<(), Errors> {
        if self.failed() {
            Err(self)
        } else {
            Ok(())
        }
    }

}

impl From<Errors> for Result<(), Errors> {
    /// `Ok` where no error was met, the errors themselves otherwise.
    fn from(e: Errors) -> (r: Result<(), Errors>) {
        let failed = e.punycode || e.validity_criteria || e.disallowed_by_std3_ascii_rules
            || e.disallowed_mapped_in_std3 || e.disallowed_character || e.too_long_for_dns
            || e.too_short_for_dns;
        if !failed {
            Ok(())
        } else {
            Err(e)
        }
    }
}

impl vstd::std_specs::convert::FromSpecImpl<Errors> for Result<(), Errors> {
    open spec fn obeys_from_spec() -> bool {
        true
    }

    open spec fn from_spec(e: Errors) -> Result<(), Errors> {
        e.spec_result()
    }
}

/// What a scalar value becomes in the mapping step.
pub open spec fn char_text(t: TableView, c: char, config: Config) -> Seq<char> {
    match t.kind(c) {
        MappingKind::Valid => seq![c],
        MappingKind::Ignored => Seq::empty(),
        MappingKind::Mapped(text) => text,
        MappingKind::Deviation(text) => if config.transitional_processing {
            text
        } else {
            seq![c]
        },
        MappingKind::Disallowed => seq![c],
        MappingKind::DisallowedStd3Valid => seq![c],
        MappingKind::DisallowedStd3Mapped(text) => text,
    }
}

/// The errors after a scalar value has gone through the mapping step.
pub open spec fn char_errors(t: TableView, c: char, config: Config, errors: Errors) -> Errors {
    match t.kind(c) {
        MappingKind::Disallowed => Errors { disallowed_character: true, ..errors },
        MappingKind::DisallowedStd3Valid => if config.use_std3_ascii_rules {
            Errors { disallowed_by_std3_ascii_rules: true, ..errors }
        } else {
            errors
        },
        MappingKind::DisallowedStd3Mapped(_) => if config.use_std3_ascii_rules {
            Errors { disallowed_mapped_in_std3: true, ..errors }
        } else {
            errors
        },
        _ => errors,
    }
}

/// Maps one scalar value: appends what it becomes to `output` and records
/// the errors it stands for.
pub fn map_char(
    table: &MappingTable,
    codepoint: char,
    config: Config,
    output: &mut Vec<char>,
    errors: &mut Errors,
)
    ensures
        final(output)@ == old(output)@ + char_text(table@, codepoint, config),
        *final(errors) == char_errors(table@, codepoint, config, *old(errors)),
{
    let n: u32 = codepoint as u32;
    if n == 0x2E || n == 0x2D || (0x61 <= n && n <= 0x7A) || (0x30 <= n && n <= 0x39) {
        proof {
            use_type_invariant(table);
            assert(is_simple_char(codepoint));
            assert(table@.find(codepoint) is Valid);
            assert(old(output)@.push(codepoint) =~= old(output)@ + seq![codepoint]);
        }
        output.push(codepoint);
        return ;
    }
    proof {
        assert(old(output)@.push(codepoint) =~= old(output)@ + seq![codepoint]);
        assert(old(output)@ =~= old(output)@ + Seq::<char>::empty());
    }
    match table.find_char(codepoint) {
        Mapping::Valid => output.push(codepoint),
        Mapping::Ignored => {},
        Mapping::Mapped(slice) => append_chars(output, table.decode_slice(slice)),
        Mapping::Deviation(slice) => {
            if config.transitional_processing {
                append_chars(output, table.decode_slice(slice))
            } else {
                output.push(codepoint)
            }
        },
        Mapping::Disallowed => {
            errors.disallowed_character = true;
            output.push(codepoint);
        },
        Mapping::DisallowedStd3Valid => {
            if config.use_std3_ascii_rules {
                errors.disallowed_by_std3_ascii_rules = true;
            }
            output.push(codepoint)
        },
        Mapping::DisallowedStd3Mapped(slice) => {
            if config.use_std3_ascii_rules {
                errors.disallowed_mapped_in_std3 = true;
            }
            append_chars(output, table.decode_slice(slice))
        },
    }
}

/// Whether the table lets a scalar value stand in a label under `config`.
pub open spec fn char_allowed(t: TableView, c: char, config: Config) -> bool {
    match t.find(c) {
        Mapping::Valid => true,
        Mapping::Deviation(_) => !config.transitional_processing,
        Mapping::DisallowedStd3Valid => !config.use_std3_ascii_rules,
        _ => false,
    }
}

/// The validity criteria for one label, without those on normalization and
/// bidi: an empty label is valid; another is valid when it neither begins nor
/// ends with a hyphen where hyphens are checked, does not begin with a
/// combining mark, and holds only scalar values that the table allows.
pub open spec fn spec_is_valid(t: TableView, label: Seq<char>, config: Config) -> bool {
    label.len() == 0 || {
        &&& !(config.check_hyphens && (label[0] == '-' || label.last() == '-'))
        &&& !combining_mark(label[0])
        &&& forall|j: int| 0 <= j < label.len() ==> char_allowed(t, #[trigger] label[j], config)
    }
}

/// Checks the validity criteria for the given label.
pub fn is_valid(table: &MappingTable, label: &[char], config: Config) -> (valid: bool)
    ensures
        valid == spec_is_valid(table@, label@, config),
{
    if label.len() == 0 {
        return true;
    }
    let first_char: char = char_at(label, 0);
    let last_char: char = char_at(label, label.len() - 1);
    // Neither begin nor end with a hyphen.
    if config.check_hyphens && (first_char == '-' || last_char == '-') {
        return false;
    }
    // Not begin with a combining mark.
    if is_combining_mark(first_char) {
        return false;
    }
    // Hold only what the mapping table allows.
    let mut j: usize = 0;
    while j < label.len()
        invariant
            0 <= j <= label@.len(),
            forall|m: int| 0 <= m < j ==> char_allowed(table@, #[trigger] label@[m], config),
        decreases label@.len() - j,
    {
        let allowed: bool = match table.find_char(char_at(label, j)) {
            Mapping::Valid => true,
            Mapping::Deviation(_) => !config.transitional_processing,
            Mapping::DisallowedStd3Valid => !config.use_std3_ascii_rules,
            _ => false,
        };
        if !allowed {
            assert(!char_allowed(table@, label@[j as int], config));
            return false;
        }
        j = j + 1;
    }
    true
}

/// The prefix of a label in its ASCII-compatible encoding.
pub open spec fn punycode_prefix() -> Seq<char> {
    seq!['x', 'n', '-', '-']
}

/// The fast path: a domain that is not empty, holds only `a` to `z`, digits,
/// hyphens and full stops, and has no label that begins or ends with a hyphen
/// or begins with `xn--`, goes through the processing unchanged.
pub open spec fn is_simple(domain: Seq<char>) -> bool {
    &&& domain.len() > 0
    &&& forall|j: int| 0 <= j < domain.len() ==> is_simple_char(#[trigger] domain[j])
    &&& forall|i: int| 0 <= i < labels(domain).len() ==> is_simple_label(#[trigger] labels(domain)[i])
}

/// A label of the fast path neither begins nor ends with a hyphen and does
/// not begin with `xn--`.
pub open spec fn is_simple_label(label: Seq<char>) -> bool {
    &&& label.len() > 0 ==> label[0] != '-' && label.last() != '-'
    &&& !starts_with(label, punycode_prefix())
}

/// The mapping step on a whole domain: what its scalar values become, in
/// order.
pub open spec fn map_text(t: TableView, domain: Seq<char>, config: Config) -> Seq<char>
    decreases domain.len(),
{
    if domain.len() == 0 {
        Seq::empty()
    } else {
        map_text(t, domain.drop_last(), config) + char_text(t, domain.last(), config)
    }
}

/// The errors of the mapping step on a whole domain.
pub open spec fn map_errors(t: TableView, domain: Seq<char>, config: Config) -> Errors
    decreases domain.len(),
{
    if domain.len() == 0 {
        Errors::none()
    } else {
        char_errors(t, domain.last(), config, map_errors(t, domain.drop_last(), config))
    }
}

/// What the processing finds of one label of the normalized domain.
pub ghost struct LabelResult {
    /// The label as it goes to the output: decoded, where it was encoded.
    pub text: Seq<char>,
    /// Whether the label meets the validity criteria.
    pub valid: bool,
    /// Whether the label makes the domain a bidi domain.
    pub bidi: bool,
    /// Whether the label is encoded and could not be decoded.
    pub punycode: bool,
}

/// The same options without transitional processing.
pub open spec fn non_transitional(config: Config) -> Config {
    Config { transitional_processing: false, ..config }
}

/// The decode-and-validate step for one label. A label that begins with
/// `xn--` is decoded; what it decodes to must be normalized and valid without
/// transitional processing. A label that cannot be decoded yields no text,
/// makes the domain a bidi domain and is a Punycode error. Any other label
/// stays as it is and must be valid under `config`.
pub open spec fn label_result(t: TableView, label: Seq<char>, config: Config) -> LabelResult {
    if starts_with(label, punycode_prefix()) {
        match spec_decode(label.subrange(4, label.len() as int)) {
            Some(decoded) => LabelResult {
                text: decoded,
                valid: is_nfc_of(decoded) && spec_is_valid(t, decoded, non_transitional(config)),
                bidi: spec_is_bidi_domain(decoded),
                punycode: false,
            },
            None => LabelResult { text: Seq::empty(), valid: true, bidi: true, punycode: true },
        }
    } else {
        LabelResult {
            text: label,
            valid: spec_is_valid(t, label, config),
            bidi: spec_is_bidi_domain(label),
            punycode: false,
        }
    }
}

/// The texts that the labels go to the output with.
pub open spec fn label_texts(t: TableView, parts: Seq<Seq<char>>, config: Config) -> Seq<Seq<char>> {
    Seq::new(parts.len(), |i: int| label_result(t, parts[i], config).text)
}

/// Whether every label meets the validity criteria.
pub open spec fn all_valid(t: TableView, parts: Seq<Seq<char>>, config: Config) -> bool {
    forall|i: int| 0 <= i < parts.len() ==> (#[trigger] label_result(t, parts[i], config)).valid
}

/// Whether some label makes the domain a bidi domain.
pub open spec fn any_bidi(t: TableView, parts: Seq<Seq<char>>, config: Config) -> bool {
    exists|i: int| 0 <= i < parts.len() && (#[trigger] label_result(t, parts[i], config)).bidi
}

/// Whether some label could not be decoded.
pub open spec fn any_undecoded(t: TableView, parts: Seq<Seq<char>>, config: Config) -> bool {
    exists|i: int| 0 <= i < parts.len() && (#[trigger] label_result(t, parts[i], config)).punycode
}

/// Whether every label of `text` passes the bidi rule.
pub open spec fn all_pass_bidi(text: Seq<char>) -> bool {
    forall|i: int| 0 <= i < labels(text).len() ==> spec_passes_bidi(#[trigger] labels(text)[i])
}

/// The processing of a domain: its output and the errors met. A domain of
/// the fast path is its own output. Any other is mapped, normalized and split
/// into labels; each label is decoded where it is encoded, and validated; the
/// output joins what the labels became. Where some label makes the domain a
/// bidi domain, every label of the output must pass the bidi rule.
pub open spec fn spec_processing(t: TableView, domain: Seq<char>, config: Config) -> (
    Seq<char>,
    Errors,
) {
    if is_simple(domain) {
        (domain, Errors::none())
    } else {
        let parts = labels(nfc_of(map_text(t, domain, config)));
        let text = joined(label_texts(t, parts, config));
        let valid = all_valid(t, parts, config) && (any_bidi(t, parts, config) ==> all_pass_bidi(
            text,
        ));
        (
            text,
            Errors {
                punycode: any_undecoded(t, parts, config),
                validity_criteria: !valid,
                ..map_errors(t, domain, config)
            },
        )
    }
}

/// Whether `label` neither begins nor ends with a hyphen and does not begin
/// with `xn--`.
fn check_simple_label(label: &[char]) -> (r: bool)
    ensures
        r == is_simple_label(label@),
{
    if label.len() > 0 && (label[0] == '-' || label[label.len() - 1] == '-') {
        return false;
    }
    let prefix: [char; 4] = ['x', 'n', '-', '-'];
    assert(prefix@ =~= punycode_prefix());
    !has_prefix(label, prefix.as_slice())
}

/// Whether `domain` goes through the processing unchanged.
pub fn is_simple_domain(domain: &[char]) -> (r: bool)
    ensures
        r == is_simple(domain@),
{
    if domain.len() == 0 {
        return false;
    }
    let mut j: usize = 0;
    while j < domain.len()
        invariant
            0 <= j <= domain@.len(),
            forall|m: int| 0 <= m < j ==> is_simple_char(#[trigger] domain@[m]),
        decreases domain@.len() - j,
    {
        let n: u32 = char_at(domain, j) as u32;
        if !(n == 0x2D || n == 0x2E || (0x30 <= n && n <= 0x39) || (0x61 <= n && n <= 0x7A)) {
            assert(!is_simple_char(domain@[j as int]));
            return false;
        }
        j = j + 1;
    }
    let parts = split_labels(domain);
    let mut i: usize = 0;
    while i < parts.len()
        invariant
            0 <= i <= parts@.len(),
            label_views(parts@) == labels(domain@),
            forall|m: int| 0 <= m < i ==> is_simple_label(#[trigger] labels(domain@)[m]),
        decreases parts@.len() - i,
    {
        assert(label_views(parts@)[i as int] == parts@[i as int]@);
        if !check_simple_label(parts[i].as_slice()) {
            return false;
        }
        i = i + 1;
    }
    true
}

/// The mapping step records only errors of its own three kinds.
pub proof fn lemma_map_errors(t: TableView, domain: Seq<char>, config: Config)
    ensures
        !map_errors(t, domain, config).punycode,
        !map_errors(t, domain, config).validity_criteria,
        !map_errors(t, domain, config).too_long_for_dns,
        !map_errors(t, domain, config).too_short_for_dns,
    decreases domain.len(),
{
    if domain.len() > 0 {
        lemma_map_errors(t, domain.drop_last(), config);
    }
}

proof fn lemma_joined_push(texts: Seq<Seq<char>>, i: int)
    requires
        0 <= i < texts.len(),
    ensures
        joined(texts.subrange(0, i + 1)) == if i == 0 {
            texts[0]
        } else {
            joined(texts.subrange(0, i)) + seq![FULL_STOP] + texts[i]
        },
{
    let more = texts.subrange(0, i + 1);
    assert(more.last() == texts[i]);
    assert(more.drop_last() =~= texts.subrange(0, i));
    assert(more[0] == texts[0]);
}

/// The decode-and-validate step for one label: appends its text to
/// `validated`.
fn process_label(
    table: &MappingTable,
    label: &[char],
    config: Config,
    validated: &mut Vec<char>,
) -> (r: (bool, bool, bool))
    ensures
        final(validated)@ == old(validated)@ + label_result(table@, label@, config).text,
        r.0 == label_result(table@, label@, config).valid,
        r.1 == label_result(table@, label@, config).bidi,
        r.2 == label_result(table@, label@, config).punycode,
{
    let prefix: [char; 4] = ['x', 'n', '-', '-'];
    assert(prefix@ =~= punycode_prefix());
    if has_prefix(label, prefix.as_slice()) {
        let payload = slice_subrange(label, 4, label.len());
        match decode_chars(payload) {
            Some(decoded_label) => {
                let bidi = is_bidi_domain(decoded_label.as_slice());
                let non_transitional = Config { transitional_processing: false, ..config };
                let text = string_of(decoded_label.as_slice());
                let valid = is_nfc(text.as_str()) && is_valid(
                    table,
                    decoded_label.as_slice(),
                    non_transitional,
                );
                append_chars(validated, decoded_label.as_slice());
                (valid, bidi, false)
            },
            None => {
                assert(old(validated)@ =~= old(validated)@ + Seq::<char>::empty());
                (true, true, true)
            },
        }
    } else {
        let bidi = is_bidi_domain(label);
        // The domain was normalized as a whole, so this label is.
        let valid = is_valid(table, label, config);
        append_chars(validated, label);
        (valid, bidi, false)
    }
}

/// Whether every label of `text` passes the bidi rule.
fn check_bidi(text: &[char]) -> (r: bool)
    ensures
        r == all_pass_bidi(text@),
{
    let parts = split_labels(text);
    let mut i: usize = 0;
    while i < parts.len()
        invariant
            0 <= i <= parts@.len(),
            label_views(parts@) == labels(text@),
            forall|m: int| 0 <= m < i ==> spec_passes_bidi(#[trigger] labels(text@)[m]),
        decreases parts@.len() - i,
    {
        assert(label_views(parts@)[i as int] == parts@[i as int]@);
        if !passes_bidi(parts[i].as_slice(), true) {
            return false;
        }
        i = i + 1;
    }
    true
}

/// Processes a domain: maps and normalizes it, decodes and validates its
/// labels, and checks the bidi rule. Yields the output with the errors met.
pub fn processing(table: &MappingTable, domain: &str, config: Config) -> (r: (String, Errors))
    ensures
        r.0@ == spec_processing(table@, domain@, config).0,
        r.1 == spec_processing(table@, domain@, config).1,
{
    let chars = chars_of(domain);
    // The simple case: lower-case ASCII letters, digits, hyphens and full stops,
    // no label that begins or ends with a hyphen or is encoded.
    if is_simple_domain(chars.as_slice()) {
        return (domain.to_owned(), Errors::default());
    }
    let ghost t = table@;
    let mut errors = Errors::default();
    let mut mapped: Vec<char> = Vec::with_capacity(chars.len());
    let mut j: usize = 0;
    while j < chars.len()
        invariant
            t == table@,
            0 <= j <= chars@.len(),
            mapped@ == map_text(t, chars@.subrange(0, j as int), config),
            errors == map_errors(t, chars@.subrange(0, j as int), config),
        decreases chars@.len() - j,
    {
        proof {
            assert(chars@.subrange(0, j + 1).drop_last() =~= chars@.subrange(0, j as int));
        }
        map_char(table, chars[j], config, &mut mapped, &mut errors);
        j = j + 1;
    }
    proof {
        assert(chars@.subrange(0, j as int) =~= chars@);
    }
    let normalized: String = nfc(string_of(mapped.as_slice()).as_str());
    let normalized_chars = chars_of(normalized.as_str());
    let parts = split_labels(normalized_chars.as_slice());
    let ghost views = labels(normalized_chars@);
    let ghost texts = label_texts(t, views, config);

    let mut validated: Vec<char> = Vec::new();
    let mut valid: bool = true;
    let mut has_bidi_labels: bool = false;
    let mut undecoded: bool = false;
    let mut i: usize = 0;
    while i < parts.len()
        invariant
            t == table@,
            0 <= i <= parts@.len(),
            label_views(parts@) == views,
            texts == label_texts(t, views, config),
            validated@ == joined(texts.subrange(0, i as int)),
            valid == all_valid(t, views.subrange(0, i as int), config),
            has_bidi_labels == any_bidi(t, views.subrange(0, i as int), config),
            undecoded == any_undecoded(t, views.subrange(0, i as int), config),
        decreases parts@.len() - i,
    {
        if i > 0 {
            validated.push(FULL_STOP);
        }
        let ghost seen = views.subrange(0, i as int);
        let ghost more = views.subrange(0, i + 1);
        let ghost here = label_result(t, views[i as int], config);
        proof {
            assert(label_views(parts@)[i as int] == parts@[i as int]@);
            lemma_joined_push(texts, i as int);
            assert(more[i as int] == views[i as int]);
            assert forall|m: int| 0 <= m < i implies seen[m] == more[m] by {}
            assert(all_valid(t, more, config) == (all_valid(t, seen, config) && here.valid)) by {
                if all_valid(t, more, config) {
                    assert forall|m: int| 0 <= m < seen.len() implies (#[trigger] label_result(
                        t,
                        seen[m],
                        config,
                    )).valid by {
                        assert(seen[m] == more[m]);
                        assert(label_result(t, more[m], config).valid);
                    }
                    assert(label_result(t, more[i as int], config).valid);
                }
                if all_valid(t, seen, config) && here.valid {
                    assert forall|m: int| 0 <= m < more.len() implies (#[trigger] label_result(
                        t,
                        more[m],
                        config,
                    )).valid by {
                        if m < i {
                            assert(seen[m] == more[m]);
                            assert(label_result(t, seen[m], config).valid);
                        }
                    }
                }
            }
            assert(any_bidi(t, more, config) == (any_bidi(t, seen, config) || here.bidi)) by {
                if any_bidi(t, seen, config) {
                    let w = choose|w: int|
                        0 <= w < seen.len() && (#[trigger] label_result(t, seen[w], config)).bidi;
                    assert(seen[w] == more[w]);
                    assert(label_result(t, more[w], config).bidi);
                }
                if here.bidi {
                    assert(label_result(t, more[i as int], config).bidi);
                }
                if any_bidi(t, more, config) {
                    let w = choose|w: int|
                        0 <= w < more.len() && (#[trigger] label_result(t, more[w], config)).bidi;
                    if w < i {
                        assert(seen[w] == more[w]);
                        assert(label_result(t, seen[w], config).bidi);
                    }
                }
            }
            assert(any_undecoded(t, more, config) == (any_undecoded(t, seen, config)
                || here.punycode)) by {
                if any_undecoded(t, seen, config) {
                    let w = choose|w: int|
                        0 <= w < seen.len() && (#[trigger] label_result(t, seen[w], config)).punycode;
                    assert(seen[w] == more[w]);
                    assert(label_result(t, more[w], config).punycode);
                }
                if here.punycode {
                    assert(label_result(t, more[i as int], config).punycode);
                }
                if any_undecoded(t, more, config) {
                    let w = choose|w: int|
                        0 <= w < more.len() && (#[trigger] label_result(t, more[w], config)).punycode;
                    if w < i {
                        assert(seen[w] == more[w]);
                        assert(label_result(t, seen[w], config).punycode);
                    }
                }
            }
        }
        let (label_valid, label_bidi, label_undecoded) = process_label(
            table,
            parts[i].as_slice(),
            config,
            &mut validated,
        );
        proof {
            assert(texts[i as int] == here.text);
            if i > 0 {
                assert(validated@ =~= joined(texts.subrange(0, i as int)) + seq![FULL_STOP]
                    + texts[i as int]);
            } else {
                assert(joined(texts.subrange(0, 0)) =~= Seq::<char>::empty());
                assert(validated@ =~= texts[0]);
            }
        }
        valid = valid && label_valid;
        has_bidi_labels = has_bidi_labels || label_bidi;
        undecoded = undecoded || label_undecoded;
        i = i + 1;
    }
    proof {
        assert(views.subrange(0, i as int) =~= views);
        assert(texts.subrange(0, i as int) =~= texts);
        lemma_map_errors(t, domain@, config);
    }
    if undecoded {
        errors.punycode = true;
    }
    // The bidi rule holds the labels of bidi domains only.
    if has_bidi_labels && !check_bidi(validated.as_slice()) {
        valid = false;
    }
    if !valid {
        errors.validity_criteria = true;
    }
    (string_of(validated.as_slice()), errors)
}

/// A label in its ASCII form: itself where it is ASCII, else `xn--` and its
/// Punycode encoding. A label that cannot be encoded yields nothing.
pub open spec fn ascii_label(label: Seq<char>) -> Seq<char> {
    if is_ascii_chars(label) {
        label
    } else {
        match spec_encode(label) {
            Some(encoded) => punycode_prefix() + encoded,
            None => Seq::empty(),
        }
    }
}

/// The ASCII forms of the labels of `text`.
pub open spec fn ascii_labels(text: Seq<char>) -> Seq<Seq<char>> {
    Seq::new(labels(text).len(), |i: int| ascii_label(labels(text)[i]))
}

/// Whether some label of `text` is not ASCII and cannot be encoded.
pub open spec fn any_unencodable(text: Seq<char>) -> bool {
    exists|i: int|
        0 <= i < labels(text).len() && !is_ascii_chars(#[trigger] labels(text)[i]) && spec_encode(
            labels(text)[i],
        ) is None
}

/// The name whose length counts for the DNS: the domain without one
/// trailing full stop.
pub open spec fn dns_name(domain: Seq<char>) -> Seq<char> {
    if domain.len() > 0 && domain.last() == FULL_STOP {
        domain.drop_last()
    } else {
        domain
    }
}

/// A domain is too short for the DNS when its name is empty or has an empty
/// label.
pub open spec fn too_short(domain: Seq<char>) -> bool {
    let name = dns_name(domain);
    name.len() == 0 || exists|i: int|
        0 <= i < labels(name).len() && (#[trigger] labels(name)[i]).len() == 0
}

/// A domain is too long for the DNS when its name has more than 253
/// characters or a label of more than 63.
pub open spec fn too_long(domain: Seq<char>) -> bool {
    let name = dns_name(domain);
    name.len() > 253 || exists|i: int|
        0 <= i < labels(name).len() && (#[trigger] labels(name)[i]).len() > 63
}

/// The ASCII form of a domain before its errors are looked at: the output of
/// the processing with each label in its ASCII form.
pub open spec fn ascii_form(t: TableView, domain: Seq<char>, config: Config) -> Seq<char> {
    joined(ascii_labels(spec_processing(t, domain, config).0))
}

/// The errors of the conversion to ASCII: those of the processing, a
/// Punycode error where a label cannot be encoded and, where the lengths are
/// verified, the two length errors.
pub open spec fn ascii_errors(t: TableView, domain: Seq<char>, config: Config) -> Errors {
    let processed = spec_processing(t, domain, config);
    let result = ascii_form(t, domain, config);
    Errors {
        punycode: processed.1.punycode || any_unencodable(processed.0),
        too_short_for_dns: config.verify_dns_length && too_short(result),
        too_long_for_dns: config.verify_dns_length && too_long(result),
        ..processed.1
    }
}

/// The conversion of a domain to ASCII: its ASCII form where no error was
/// met, the errors otherwise.
pub open spec fn spec_to_ascii(t: TableView, domain: Seq<char>, config: Config) -> Result<
    Seq<char>,
    Errors,
> {
    let errors = ascii_errors(t, domain, config);
    if errors.failed() {
        Err(errors)
    } else {
        Ok(ascii_form(t, domain, config))
    }
}

/// The conversion of a domain to Unicode: the output of the processing, with
/// `Ok` where no error was met.
pub open spec fn spec_to_unicode(t: TableView, domain: Seq<char>, config: Config) -> (
    Seq<char>,
    Result<(), Errors>,
) {
    let processed = spec_processing(t, domain, config);
    (processed.0, processed.1.spec_result())
}

/// The processing records no length error.
pub proof fn lemma_processing_errors(t: TableView, domain: Seq<char>, config: Config)
    ensures
        !spec_processing(t, domain, config).1.too_long_for_dns,
        !spec_processing(t, domain, config).1.too_short_for_dns,
{
    lemma_map_errors(t, domain, config);
}

/// Whether `name` is empty or has an empty label, and whether it has more
/// than 253 characters or a label of more than 63.
fn dns_lengths(domain: &[char]) -> (r: (bool, bool))
    ensures
        r.0 == too_short(domain@),
        r.1 == too_long(domain@),
{
    let name: &[char] = if domain.len() > 0 && domain[domain.len() - 1] == FULL_STOP {
        slice_subrange(domain, 0, domain.len() - 1)
    } else {
        domain
    };
    assert(name@ =~= dns_name(domain@));
    let parts = split_labels(name);
    let mut short: bool = name.len() == 0;
    let mut long: bool = name.len() > 253;
    let mut i: usize = 0;
    while i < parts.len()
        invariant
            0 <= i <= parts@.len(),
            label_views(parts@) == labels(name@),
            short == (name@.len() == 0 || exists|m: int|
                0 <= m < i && (#[trigger] labels(name@)[m]).len() == 0),
            long == (name@.len() > 253 || exists|m: int|
                0 <= m < i && (#[trigger] labels(name@)[m]).len() > 63),
        decreases parts@.len() - i,
    {
        assert(label_views(parts@)[i as int] == parts@[i as int]@);
        let n: usize = parts[i].len();
        if n == 0 {
            short = true;
        }
        if n > 63 {
            long = true;
        }
        i = i + 1;
    }
    (short, long)
}

impl Config {
    /// The same options with `use_std3_ascii_rules` set to `value`.
    pub fn use_std3_ascii_rules(self, value: bool) -> (config: Config)
        ensures
            config == (Config { use_std3_ascii_rules: value, ..self }),
    {
        Config { use_std3_ascii_rules: value, ..self }
    }

    /// The same options with `transitional_processing` set to `value`.
    pub fn transitional_processing(self, value: bool) -> (config: Config)
        ensures
            config == (Config { transitional_processing: value, ..self }),
    {
        Config { transitional_processing: value, ..self }
    }

    /// The same options with `verify_dns_length` set to `value`.
    pub fn verify_dns_length(self, value: bool) -> (config: Config)
        ensures
            config == (Config { verify_dns_length: value, ..self }),
    {
        Config { verify_dns_length: value, ..self }
    }

    /// The same options with `check_hyphens` set to `value`.
    pub fn check_hyphens(self, value: bool) -> (config: Config)
        ensures
            config == (Config { check_hyphens: value, ..self }),
    {
        Config { check_hyphens: value, ..self }
    }

    /// Converts a domain to its ASCII form: processes it, then encodes every
    /// label that is not ASCII. Where `verify_dns_length` is set, the lengths
    /// of the result are held to the limits of the DNS.
    pub fn to_ascii(self, table: &MappingTable, domain: &str) -> (r: Result<String, Errors>)
        ensures
            match r {
                Ok(s) => spec_to_ascii(table@, domain@, self) == Ok::<Seq<char>, Errors>(s@),
                Err(e) => spec_to_ascii(table@, domain@, self) == Err::<Seq<char>, Errors>(e),
            },
    {
        let ghost t = table@;
        let (processed, mut errors) = processing(table, domain, self);
        proof {
            lemma_processing_errors(t, domain@, self);
        }
        let chars = chars_of(processed.as_str());
        let parts = split_labels(chars.as_slice());
        let ghost views = labels(chars@);
        let ghost forms = ascii_labels(chars@);
        let mut result: Vec<char> = Vec::new();
        let mut unencodable: bool = false;
        let mut i: usize = 0;
        while i < parts.len()
            invariant
                0 <= i <= parts@.len(),
                label_views(parts@) == views,
                views == labels(chars@),
                forms == ascii_labels(chars@),
                result@ == joined(forms.subrange(0, i as int)),
                unencodable == (exists|m: int|
                    0 <= m < i && !is_ascii_chars(#[trigger] views[m]) && spec_encode(views[m])
                        is None),
            decreases parts@.len() - i,
        {
            if i > 0 {
                result.push(FULL_STOP);
            }
            proof {
                assert(label_views(parts@)[i as int] == parts@[i as int]@);
                lemma_joined_push(forms, i as int);
            }
            let label: &[char] = parts[i].as_slice();
            let ghost before = result@;
            if is_all_ascii(label) {
                append_chars(&mut result, label);
            } else {
                match encode(label) {
                    Some(x) => {
                        let prefix: [char; 4] = ['x', 'n', '-', '-'];
                        assert(prefix@ =~= punycode_prefix());
                        append_chars(&mut result, prefix.as_slice());
                        let encoded = chars_of(x.as_str());
                        append_chars(&mut result, encoded.as_slice());
                        assert(result@ =~= before + (punycode_prefix() + encoded@));
                    },
                    None => {
                        unencodable = true;
                        assert(result@ =~= before + Seq::<char>::empty());
                    },
                }
            }
            proof {
                assert(result@ == before + forms[i as int]);
                if i > 0 {
                    assert(result@ =~= joined(forms.subrange(0, i as int)) + seq![FULL_STOP]
                        + forms[i as int]);
                } else {
                    assert(joined(forms.subrange(0, 0)) =~= Seq::<char>::empty());
                    assert(result@ =~= forms[0]);
                }
            }
            i = i + 1;
        }
        proof {
            assert(forms.subrange(0, i as int) =~= forms);
        }
        if unencodable {
            errors.punycode = true;
        }
        if self.verify_dns_length {
            let (short, long) = dns_lengths(result.as_slice());
            if short {
                errors.too_short_for_dns = true;
            }
            if long {
                errors.too_long_for_dns = true;
            }
        }
        match Result::from(errors) {
            Ok(_) => Ok(string_of(result.as_slice())),
            Err(e) => Err(e),
        }
    }

    /// Converts a domain to its Unicode form: the output of the processing,
    /// with `Ok` where no error was met.
    pub fn to_unicode(self, table: &MappingTable, domain: &str) -> (r: (String, Result<(), Errors>))
        ensures
            r.0@ == spec_to_unicode(table@, domain@, self).0,
            r.1 == spec_to_unicode(table@, domain@, self).1,
    {
        let (text, errors) = processing(table, domain, self);
        (text, Result::from(errors))
    }
}

} // verus!
