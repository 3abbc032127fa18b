//! Conversions between strings and sequences of scalar values, and the
//! splitting of a domain into labels.

use vstd::prelude::*;
use vstd::std_specs::iter::IteratorSpec;

verus! {

/// `String::push` appends one scalar value to the end of the string.
pub assume_specification[ String::push ](s: &mut String, c: char)
    ensures
        final(s)@ == old(s)@.push(c),
;

/// The scalar value at position `j` of `s`.
pub fn char_at(s: &[char], j: usize) -> (c: char)
    requires
        j < s@.len(),
    ensures
        c == s@[j as int],
{
    s[j]
}

/// The scalar values of a string, in order.
pub fn chars_of(s: &str) -> (v: Vec<char>)
    ensures
        v@ == s@,
{
    broadcast use vstd::string::group_string_axioms;

    let mut v: Vec<char> = Vec::new();
    let mut it = s.chars();
    let ghost mut taken: int = 0;
    loop
        invariant
            0 <= taken <= s@.len(),
            v@ == s@.subrange(0, taken),
            it.remaining() == s@.subrange(taken, s@.len() as int),
            it.obeys_prophetic_iter_laws(),
            it.decrease() is Some,
        decreases it.decrease()->0,
    {
        let ghost before = it;
        match it.next() {
            Some(c) => {
                proof {
                    assert(before.remaining().len() > 0);
                    assert(c == s@[taken]);
                    assert(s@.subrange(0, taken + 1) =~= s@.subrange(0, taken).push(c));
                    assert(before.remaining().drop_first() =~= s@.subrange(
                        taken + 1,
                        s@.len() as int,
                    ));
                    taken = taken + 1;
                }
                v.push(c);
            },
            None => {
                proof {
                    assert(before.remaining().len() == 0);
                    assert(taken == s@.len());
                    assert(s@.subrange(0, taken) =~= s@);
                }
                return v;
            },
        }
    }
}

/// The string that holds the given scalar values, in order.
pub fn string_of(v: &[char]) -> (s: String)
    ensures
        s@ == v@,
{
    let mut s = String::new();
    let mut i: usize = 0;
    while i < v.len()
        invariant
            0 <= i <= v@.len(),
            s@ == v@.subrange(0, i as int),
        decreases v@.len() - i,
    {
        proof {
            assert(v@.subrange(0, i + 1) =~= v@.subrange(0, i as int).push(v@[i as int]));
        }
        s.push(v[i]);
        i = i + 1;
    }
    proof {
        assert(v@.subrange(0, i as int) =~= v@);
    }
    s
}

/// The separator of the labels of a domain.
pub const FULL_STOP: char = '.';

/// The labels of a domain: what stands between its full stops. A domain
/// without a full stop is one label, and so is the empty domain.
pub open spec fn labels(s: Seq<char>) -> Seq<Seq<char>>
    decreases s.len(),
{
    if s.len() == 0 {
        seq![Seq::<char>::empty()]
    } else {
        let head = labels(s.drop_last());
        if s.last() == FULL_STOP {
            head.push(Seq::<char>::empty())
        } else {
            head.drop_last().push(head.last().push(s.last()))
        }
    }
}

/// The labels joined by full stops.
pub open spec fn joined(parts: Seq<Seq<char>>) -> Seq<char>
    decreases parts.len(),
{
    if parts.len() == 0 {
        Seq::<char>::empty()
    } else if parts.len() == 1 {
        parts[0]
    } else {
        joined(parts.drop_last()) + seq![FULL_STOP] + parts.last()
    }
}

/// The contents of a list of labels.
pub open spec fn label_views(v: Seq<Vec<char>>) -> Seq<Seq<char>> {
    Seq::new(v.len(), |i: int| v[i]@)
}

/// Whether `s` begins with `prefix`.
pub open spec fn starts_with(s: Seq<char>, prefix: Seq<char>) -> bool {
    prefix.len() <= s.len() && s.subrange(0, prefix.len() as int) == prefix
}

/// A domain has at least one label.
pub proof fn lemma_labels_nonempty(s: Seq<char>)
    ensures
        labels(s).len() >= 1,
    decreases s.len(),
{
    if s.len() > 0 {
        lemma_labels_nonempty(s.drop_last());
    }
}

/// Splits a domain into its labels.
pub fn split_labels(s: &[char]) -> (parts: Vec<Vec<char>>)
    ensures
        label_views(parts@) == labels(s@),
        parts@.len() >= 1,
{
    let mut parts: Vec<Vec<char>> = Vec::new();
    let mut current: Vec<char> = Vec::new();
    let mut j: usize = 0;
    while j < s.len()
        invariant
            0 <= j <= s@.len(),
            label_views(parts@).push(current@) == labels(s@.subrange(0, j as int)),
        decreases s@.len() - j,
    {
        let c: char = s[j];
        proof {
            assert(s@.subrange(0, j + 1).drop_last() =~= s@.subrange(0, j as int));
        }
        let ghost head = label_views(parts@).push(current@);
        if c == FULL_STOP {
            parts.push(current);
            current = Vec::new();
            proof {
                assert(label_views(parts@) =~= head);
            }
        } else {
            current.push(c);
            proof {
                assert(head.drop_last() =~= label_views(parts@));
                assert(label_views(parts@).push(current@) =~= head.drop_last().push(
                    head.last().push(c),
                ));
            }
        }
        j = j + 1;
    }
    proof {
        assert(s@.subrange(0, j as int) =~= s@);
    }
    let ghost head = label_views(parts@).push(current@);
    parts.push(current);
    proof {
        assert(label_views(parts@) =~= head);
    }
    parts
}

/// Whether `s` begins with `prefix`.
pub fn has_prefix(s: &[char], prefix: &[char]) -> (r: bool)
    ensures
        r == starts_with(s@, prefix@),
{
    if prefix.len() > s.len() {
        return false;
    }
    let mut j: usize = 0;
    while j < prefix.len()
        invariant
            0 <= j <= prefix@.len() <= s@.len(),
            s@.subrange(0, j as int) == prefix@.subrange(0, j as int),
        decreases prefix@.len() - j,
    {
        if s[j] != prefix[j] {
            assert(s@.subrange(0, prefix@.len() as int)[j as int] != prefix@[j as int]);
            return false;
        }
        proof {
            assert(s@.subrange(0, j + 1) =~= s@.subrange(0, j as int).push(s@[j as int]));
            assert(prefix@.subrange(0, j + 1) =~= prefix@.subrange(0, j as int).push(
                prefix@[j as int],
            ));
        }
        j = j + 1;
    }
    proof {
        assert(prefix@.subrange(0, j as int) =~= prefix@);
    }
    true
}

/// Appends the scalar values of `tail` to `v`.
pub fn append_chars(v: &mut Vec<char>, tail: &[char])
    ensures
        final(v)@ == old(v)@ + tail@,
{
    let mut j: usize = 0;
    while j < tail.len()
        invariant
            0 <= j <= tail@.len(),
            v@ == old(v)@ + tail@.subrange(0, j as int),
        decreases tail@.len() - j,
    {
        proof {
            assert(tail@.subrange(0, j + 1) =~= tail@.subrange(0, j as int).push(tail@[j as int]));
        }
        v.push(tail[j]);
        j = j + 1;
    }
    proof {
        assert(tail@.subrange(0, j as int) =~= tail@);
    }
}

/// What makes a scalar value one of a label: that it is no full stop.
pub open spec fn no_stop() -> spec_fn(char) -> bool {
    |c: char| c != FULL_STOP
}

/// Whether `holds` is true of every scalar value of `s`.
pub open spec fn each_char(s: Seq<char>, holds: spec_fn(char) -> bool) -> bool {
    forall|j: int| 0 <= j < s.len() ==> holds(#[trigger] s[j])
}

/// What holds of every scalar value of a domain holds of every scalar value
/// of its labels, and no label holds a full stop.
pub proof fn lemma_labels_chars(s: Seq<char>, holds: spec_fn(char) -> bool)
    requires
        each_char(s, holds),
    ensures
        forall|i: int| 0 <= i < labels(s).len() ==> each_char(#[trigger] labels(s)[i], holds),
        forall|i: int|
            0 <= i < labels(s).len() ==> each_char(#[trigger] labels(s)[i], no_stop()),
    decreases s.len(),
{
    if s.len() > 0 {
        let rest = s.drop_last();
        assert forall|j: int| 0 <= j < rest.len() implies holds(#[trigger] rest[j]) by {
            assert(rest[j] == s[j]);
        }
        lemma_labels_chars(rest, holds);
        lemma_labels_nonempty(rest);
        let head = labels(rest);
        let c = s.last();
        assert(holds(s[s.len() - 1]));
        assert forall|i: int| 0 <= i < labels(s).len() implies each_char(
            #[trigger] labels(s)[i],
            holds,
        ) && each_char(labels(s)[i], no_stop()) by {
            if i < head.len() - 1 {
                assert(labels(s)[i] == head[i]);
            } else if c != FULL_STOP {
                assert(each_char(head[i], holds));
                assert(each_char(head[i], no_stop()));
                assert(labels(s)[i] == head[i].push(c));
            } else if i == head.len() - 1 {
                assert(labels(s)[i] == head[i]);
            }
        }
    }
}

/// What holds of the full stop and of every scalar value of every label
/// holds of every scalar value of the labels joined.
pub proof fn lemma_joined_chars(parts: Seq<Seq<char>>, holds: spec_fn(char) -> bool)
    requires
        holds(FULL_STOP),
        forall|i: int| 0 <= i < parts.len() ==> each_char(#[trigger] parts[i], holds),
    ensures
        each_char(joined(parts), holds),
    decreases parts.len(),
{
    if parts.len() > 1 {
        let rest = parts.drop_last();
        assert forall|i: int| 0 <= i < rest.len() implies each_char(#[trigger] rest[i], holds) by {
            assert(rest[i] == parts[i]);
        }
        lemma_joined_chars(rest, holds);
        assert(each_char(parts[parts.len() - 1], holds));
        let whole = joined(parts);
        let head = joined(rest);
        assert forall|j: int| 0 <= j < whole.len() implies holds(#[trigger] whole[j]) by {
            if j < head.len() {
                assert(whole[j] == head[j]);
            } else if j == head.len() {
                assert(whole[j] == FULL_STOP);
            } else {
                assert(whole[j] == parts.last()[j - head.len() - 1]);
            }
        }
    } else if parts.len() == 1 {
        assert(each_char(parts[0], holds));
    }
}

/// What follows a full stop without holding one is the last label.
pub proof fn lemma_labels_append(head: Seq<char>, tail: Seq<char>)
    requires
        each_char(tail, no_stop()),
    ensures
        labels(head + seq![FULL_STOP] + tail) == labels(head).push(tail),
    decreases tail.len(),
{
    let whole = head + seq![FULL_STOP] + tail;
    if tail.len() == 0 {
        assert(whole.drop_last() =~= head);
        assert(whole.last() == FULL_STOP);
        assert(tail =~= Seq::<char>::empty());
    } else {
        let fewer = tail.drop_last();
        assert forall|j: int| 0 <= j < fewer.len() implies no_stop()(#[trigger] fewer[j]) by {
            assert(fewer[j] == tail[j]);
        }
        lemma_labels_append(head, fewer);
        assert(whole.drop_last() =~= head + seq![FULL_STOP] + fewer);
        assert(whole.last() == tail[tail.len() - 1]);
        assert(no_stop()(tail[tail.len() - 1]));
        let before = labels(head).push(fewer);
        assert(before.drop_last() =~= labels(head));
        assert(fewer.push(tail.last()) =~= tail);
    }
}

/// A string without a full stop is one label.
pub proof fn lemma_labels_plain(s: Seq<char>)
    requires
        each_char(s, no_stop()),
    ensures
        labels(s) == seq![s],
    decreases s.len(),
{
    if s.len() == 0 {
        assert(s =~= Seq::<char>::empty());
    } else {
        let fewer = s.drop_last();
        assert forall|j: int| 0 <= j < fewer.len() implies no_stop()(#[trigger] fewer[j]) by {
            assert(fewer[j] == s[j]);
        }
        lemma_labels_plain(fewer);
        assert(no_stop()(s[s.len() - 1]));
        assert(seq![fewer].drop_last().push(fewer.push(s.last())) =~= seq![s]) by {
            assert(fewer.push(s.last()) =~= s);
        }
    }
}

/// Splitting undoes joining: labels without a full stop, joined, are the
/// labels of what they make.
pub proof fn lemma_labels_of_joined(parts: Seq<Seq<char>>)
    requires
        parts.len() >= 1,
        forall|i: int| 0 <= i < parts.len() ==> each_char(#[trigger] parts[i], no_stop()),
    ensures
        labels(joined(parts)) == parts,
    decreases parts.len(),
{
    if parts.len() == 1 {
        lemma_labels_plain(parts[0]);
        assert(seq![parts[0]] =~= parts);
    } else {
        let rest = parts.drop_last();
        assert forall|i: int| 0 <= i < rest.len() implies each_char(
            #[trigger] rest[i],
            no_stop(),
        ) by {
            assert(rest[i] == parts[i]);
        }
        lemma_labels_of_joined(rest);
        assert(each_char(parts[parts.len() - 1], no_stop()));
        lemma_labels_append(joined(rest), parts.last());
        assert(rest.push(parts.last()) =~= parts);
    }
}

} // verus!
