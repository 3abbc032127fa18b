//! The bidi rule of RFC 5893 for the labels of a domain name.

use crate::text::char_at;
use crate::unicode::{bidi_class, bidi_class_of, BidiClass};
use vstd::prelude::*;

verus! {

/// The printable ASCII characters but the space.
pub open spec fn is_ascii_graphic(c: char) -> bool {
    0x21 <= c as int <= 0x7E
}

/// The classes that make a label a right-to-left label.
pub open spec fn is_rtl_class(class: BidiClass) -> bool {
    class is R || class is AL || class is AN
}

/// Whether `s` holds a character outside printable ASCII whose class is
/// `R`, `AL` or `AN`: a domain with such a label is a bidi domain.
pub open spec fn spec_is_bidi_domain(s: Seq<char>) -> bool {
    exists|j: int|
        0 <= j < s.len() && !is_ascii_graphic(#[trigger] s[j]) && is_rtl_class(bidi_class_of(s[j]))
}

/// The classes allowed inside a left-to-right label.
pub open spec fn ltr_allowed(class: BidiClass) -> bool {
    class is L || class is EN || class is ES || class is CS || class is ET || class is ON
        || class is BN || class is NSM
}

/// The classes allowed inside a right-to-left label.
pub open spec fn rtl_allowed(class: BidiClass) -> bool {
    class is R || class is AL || class is AN || class is EN || class is ES || class is CS
        || class is ET || class is ON || class is BN || class is NSM
}

/// The classes a left-to-right label may end in, before trailing `NSM`.
pub open spec fn ltr_end(class: BidiClass) -> bool {
    class is L || class is EN
}

/// The classes a right-to-left label may end in, before trailing `NSM`.
pub open spec fn rtl_end(class: BidiClass) -> bool {
    class is R || class is AL || class is EN || class is AN
}

/// Whether the label holds a character of the given class.
pub open spec fn has_class(label: Seq<char>, class: BidiClass) -> bool {
    exists|j: int| 0 <= j < label.len() && bidi_class_of(#[trigger] label[j]) == class
}

/// Whether the character at `j` is the last of the label that is not `NSM`.
pub open spec fn is_last_non_nsm(label: Seq<char>, j: int) -> bool {
    &&& 0 <= j < label.len()
    &&& !(bidi_class_of(label[j]) is NSM)
    &&& forall|m: int| j < m < label.len() ==> bidi_class_of(#[trigger] label[m]) is NSM
}

/// The bidi rule for one label of a bidi domain. An empty label passes. A
/// label that starts with `L` holds only the classes allowed from left to
/// right and ends in `L` or `EN`; one that starts with `R` or `AL` holds only
/// the classes allowed from right to left, ends in `R`, `AL`, `EN` or `AN`, and
/// does not hold both `EN` and `AN`. Trailing `NSM` do not count for the end.
pub open spec fn spec_passes_bidi(label: Seq<char>) -> bool {
    label.len() == 0 || {
        let first = bidi_class_of(label[0]);
        if first is L {
            &&& forall|j: int| 1 <= j < label.len() ==> ltr_allowed(bidi_class_of(#[trigger] label[j]))
            &&& exists|j: int| #[trigger]
                is_last_non_nsm(label, j) && ltr_end(bidi_class_of(label[j]))
        } else if first is R || first is AL {
            &&& forall|j: int| 1 <= j < label.len() ==> rtl_allowed(bidi_class_of(#[trigger] label[j]))
            &&& exists|j: int| #[trigger]
                is_last_non_nsm(label, j) && rtl_end(bidi_class_of(label[j]))
            &&& !(has_class(label, BidiClass::EN) && has_class(label, BidiClass::AN))
        } else {
            false
        }
    }
}

/// No label that passes the bidi rule holds both `EN` and `AN`.
pub proof fn lemma_no_mixed_numbers(label: Seq<char>)
    requires
        spec_passes_bidi(label),
    ensures
        !(has_class(label, BidiClass::EN) && has_class(label, BidiClass::AN)),
{
    if label.len() > 0 && bidi_class_of(label[0]) is L {
        if has_class(label, BidiClass::AN) {
            let j = choose|j: int| 0 <= j < label.len() && bidi_class_of(#[trigger] label[j])
                == BidiClass::AN;
            assert(j >= 1);
            assert(ltr_allowed(bidi_class_of(label[j])));
        }
    }
}

/// Whether `s` makes its domain a bidi domain.
pub fn is_bidi_domain(s: &[char]) -> (r: bool)
    ensures
        r == spec_is_bidi_domain(s@),
{
    let mut j: usize = 0;
    while j < s.len()
        invariant
            0 <= j <= s@.len(),
            forall|m: int|
                0 <= m < j ==> is_ascii_graphic(#[trigger] s@[m]) || !is_rtl_class(
                    bidi_class_of(s@[m]),
                ),
        decreases s@.len() - j,
    {
        let c: char = char_at(s, j);
        let n: u32 = c as u32;
        if !(0x21 <= n && n <= 0x7E) {
            match bidi_class(c) {
                BidiClass::R | BidiClass::AL | BidiClass::AN => {
                    return true;
                },
                _ => {},
            }
        }
        j = j + 1;
    }
    false
}

/// The position of the last character of `label` that is not `NSM`, if there
/// is one.
fn last_non_nsm(label: &[char]) -> (r: Option<usize>)
    ensures
        match r {
            Some(j) => is_last_non_nsm(label@, j as int),
            None => forall|m: int| 0 <= m < label@.len() ==> bidi_class_of(#[trigger] label@[m]) is NSM,
        },
{
    let mut end: usize = label.len();
    while end > 0
        invariant
            0 <= end <= label@.len(),
            forall|m: int| end <= m < label@.len() ==> bidi_class_of(#[trigger] label@[m]) is NSM,
        decreases end,
    {
        match bidi_class(char_at(label, end - 1)) {
            BidiClass::NSM => {},
            _ => {
                return Some(end - 1);
            },
        }
        end = end - 1;
    }
    None
}

proof fn lemma_last_non_nsm_unique(label: Seq<char>, a: int, b: int)
    requires
        is_last_non_nsm(label, a),
        is_last_non_nsm(label, b),
    ensures
        a == b,
{
}

/// Whether `label` passes the bidi rule. The rule holds labels of bidi
/// domains only: where `is_bidi_domain` is false, every label passes.
pub fn passes_bidi(label: &[char], is_bidi_domain: bool) -> (r: bool)
    ensures
        r == (!is_bidi_domain || spec_passes_bidi(label@)),
{
    if !is_bidi_domain {
        return true;
    }
    if label.len() == 0 {
        return true;
    }
    let first_char_class: BidiClass = bidi_class(char_at(label, 0));
    match first_char_class {
        // A left-to-right label.
        BidiClass::L => {
            let mut j: usize = 1;
            while j < label.len()
                invariant
                    1 <= j <= label@.len(),
                    is_bidi_domain,
                    bidi_class_of(label@[0]) is L,
                    forall|m: int| 1 <= m < j ==> ltr_allowed(bidi_class_of(#[trigger] label@[m])),
                decreases label@.len() - j,
            {
                match bidi_class(char_at(label, j)) {
                    BidiClass::L
                    | BidiClass::EN
                    | BidiClass::ES
                    | BidiClass::CS
                    | BidiClass::ET
                    | BidiClass::ON
                    | BidiClass::BN
                    | BidiClass::NSM => {},
                    _ => {
                        assert(!ltr_allowed(bidi_class_of(label@[j as int])));
                        return false;
                    },
                }
                j = j + 1;
            }
            // It ends in L or EN, followed by zero or more NSM.
            match last_non_nsm(label) {
                Some(at) => match bidi_class(char_at(label, at)) {
                    BidiClass::L | BidiClass::EN => {
                        assert(is_last_non_nsm(label@, at as int) && ltr_end(
                            bidi_class_of(label@[at as int]),
                        ));
                        true
                    },
                    _ => {
                        assert forall|m: int| #[trigger]
                            is_last_non_nsm(label@, m) implies !ltr_end(bidi_class_of(label@[m])) by {
                            lemma_last_non_nsm_unique(label@, m, at as int);
                        }
                        false
                    },
                },
                None => {
                    assert(bidi_class_of(label@[0]) is NSM);
                    true
                },
            }
        },
        // A right-to-left label.
        BidiClass::R | BidiClass::AL => {
            let mut found_en: bool = false;
            let mut found_an: bool = false;
            let mut j: usize = 1;
            while j < label.len()
                invariant
                    1 <= j <= label@.len(),
                    is_bidi_domain,
                    bidi_class_of(label@[0]) is R || bidi_class_of(label@[0]) is AL,
                    forall|m: int| 1 <= m < j ==> rtl_allowed(bidi_class_of(#[trigger] label@[m])),
                    found_en == has_class(label@.subrange(0, j as int), BidiClass::EN),
                    found_an == has_class(label@.subrange(0, j as int), BidiClass::AN),
                decreases label@.len() - j,
            {
                let char_class: BidiClass = bidi_class(char_at(label, j));
                let ghost seen = label@.subrange(0, j as int);
                let ghost more = label@.subrange(0, j + 1);
                proof {
                    assert(more[j as int] == label@[j as int]);
                    assert forall|class: BidiClass|
                        has_class(more, class) == (has_class(seen, class) || char_class
                            == class) by {
                        if has_class(seen, class) {
                            let w = choose|w: int|
                                0 <= w < seen.len() && bidi_class_of(#[trigger] seen[w]) == class;
                            assert(more[w] == seen[w]);
                        }
                        if has_class(more, class) {
                            let w = choose|w: int|
                                0 <= w < more.len() && bidi_class_of(#[trigger] more[w]) == class;
                            if w < j {
                                assert(seen[w] == more[w]);
                            }
                        }
                    }
                }
                match char_class {
                    BidiClass::EN => {
                        found_en = true;
                    },
                    BidiClass::AN => {
                        found_an = true;
                    },
                    _ => {},
                }
                match char_class {
                    BidiClass::R
                    | BidiClass::AL
                    | BidiClass::AN
                    | BidiClass::EN
                    | BidiClass::ES
                    | BidiClass::CS
                    | BidiClass::ET
                    | BidiClass::ON
                    | BidiClass::BN
                    | BidiClass::NSM => {},
                    _ => {
                        assert(!rtl_allowed(bidi_class_of(label@[j as int])));
                        return false;
                    },
                }
                j = j + 1;
            }
            assert(label@.subrange(0, j as int) =~= label@);
            // It ends in R, AL, EN or AN, followed by zero or more NSM.
            let ends_well: bool = match last_non_nsm(label) {
                Some(at) => match bidi_class(char_at(label, at)) {
                    BidiClass::R | BidiClass::AL | BidiClass::EN | BidiClass::AN => {
                        assert(is_last_non_nsm(label@, at as int) && rtl_end(
                            bidi_class_of(label@[at as int]),
                        ));
                        true
                    },
                    _ => {
                        assert forall|m: int| #[trigger]
                            is_last_non_nsm(label@, m) implies !rtl_end(bidi_class_of(label@[m])) by {
                            lemma_last_non_nsm_unique(label@, m, at as int);
                        }
                        false
                    },
                },
                None => {
                    assert(bidi_class_of(label@[0]) is NSM);
                    false
                },
            };
            if !ends_well {
                return false;
            }
            // It does not hold both EN and AN.
            if found_an && found_en {
                return false;
            }
            true
        },
        // Any other start fails.
        _ => false,
    }
}

} // verus!
