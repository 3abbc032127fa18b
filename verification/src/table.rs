//! The character mapping table of UTS #46: for every Unicode scalar value,
//! how the processing treats it.

use vstd::prelude::*;
use vstd::slice::slice_subrange;

verus! {

/// Marks an index entry whose whole range shares one mapping.
pub const SINGLE_MARKER: u16 = 0x8000;

/// A run of consecutive scalar values, both ends included.
#[derive(Clone, Copy, Debug)]
pub struct Range {
    /// The first scalar value of the run.
    pub from: char,
    /// The last scalar value of the run.
    pub to: char,
}

impl Range {
    /// The number of the first scalar value of the range.
    pub open spec fn lo(self) -> int {
        self.from as int
    }

    /// The number of the last scalar value of the range.
    pub open spec fn hi(self) -> int {
        self.to as int
    }
}

/// A piece of the table's pool of replacement text. Its start is kept in two
/// bytes so that a mapping stays three bytes wide.
#[derive(Clone, Copy, Debug)]
pub struct StringTableSlice {
    /// The low byte of the place in the pool where the text starts.
    pub start_lo: u8,
    /// The high byte of that place.
    pub start_hi: u8,
    /// The number of scalar values of the text.
    pub len: u8,
}

/// How the processing treats a scalar value.
#[derive(Clone, Copy, Debug)]
pub enum Mapping {
    /// Passes through unchanged.
    Valid,
    /// Leaves no trace in the output.
    Ignored,
    /// Is replaced by the text of the slice.
    Mapped(StringTableSlice),
    /// Is valid without transitional processing, and mapped with it.
    Deviation(StringTableSlice),
    /// Passes through and is an error.
    Disallowed,
    /// Passes through; an error under the STD3 rules.
    DisallowedStd3Valid,
    /// Is replaced by the text of the slice; an error under the STD3 rules.
    DisallowedStd3Mapped(StringTableSlice),
}

/// A mapping with its replacement text written out.
pub ghost enum MappingKind {
    /// Passes through unchanged.
    Valid,
    /// Leaves no trace in the output.
    Ignored,
    /// Is replaced by the text.
    Mapped(Seq<char>),
    /// Is valid without transitional processing, and mapped with it.
    Deviation(Seq<char>),
    /// Passes through and is an error.
    Disallowed,
    /// Passes through; an error under the STD3 rules.
    DisallowedStd3Valid,
    /// Is replaced by the text; an error under the STD3 rules.
    DisallowedStd3Mapped(Seq<char>),
}

/// The scalar values that the processing passes through without a lookup.
pub open spec fn is_simple_char(c: char) -> bool {
    let n = c as int;
    n == 0x2D || n == 0x2E || 0x30 <= n <= 0x39 || 0x61 <= n <= 0x7A
}

/// Whether `b` is the scalar value that follows `a`.
pub open spec fn follows(a: char, b: char) -> bool {
    b as int == a as int + 1 || (a as int == 0xD7FF && b as int == 0xE000)
}

/// The contents of a mapping table.
pub ghost struct TableView {
    pub ranges: Seq<Range>,
    pub index: Seq<u16>,
    pub mappings: Seq<Mapping>,
    pub strings: Seq<char>,
}

impl TableView {
    /// Where the text of `slice` starts in the pool.
    pub open spec fn start(slice: StringTableSlice) -> int {
        slice.start_hi as int * 256 + slice.start_lo as int
    }

    /// A slice is in order when it is not empty and lies within the pool.
    pub open spec fn slice_ok(self, slice: StringTableSlice) -> bool {
        slice.len > 0 && Self::start(slice) + slice.len <= self.strings.len()
    }

    /// A mapping is in order when the slice it carries, if any, is.
    pub open spec fn mapping_ok(self, mapping: Mapping) -> bool {
        match mapping {
            Mapping::Mapped(slice) => self.slice_ok(slice),
            Mapping::Deviation(slice) => self.slice_ok(slice),
            Mapping::DisallowedStd3Mapped(slice) => self.slice_ok(slice),
            _ => true,
        }
    }

    /// An index entry is in order when every slot it leads to exists.
    pub open spec fn entry_ok(self, i: int) -> bool {
        let x = self.index[i] as int;
        if x >= 0x8000 {
            x - 0x8000 < self.mappings.len()
        } else {
            x + (self.ranges[i].hi() - self.ranges[i].lo()) < self.mappings.len()
        }
    }

    /// The ranges are sorted, disjoint and cover every scalar value; every
    /// index entry and every mapping is in order.
    pub open spec fn structure_ok(self) -> bool {
        &&& self.ranges.len() > 0
        &&& self.ranges.len() == self.index.len()
        &&& self.ranges[0].lo() == 0
        &&& self.ranges.last().hi() == 0x10FFFF
        &&& forall|i: int|
            0 <= i < self.ranges.len() ==> (#[trigger] self.ranges[i]).lo()
                <= self.ranges[i].hi()
        &&& forall|i: int|
            0 <= i < self.ranges.len() - 1 ==> follows(
                (#[trigger] self.ranges[i]).to,
                self.ranges[i + 1].from,
            )
        &&& forall|i: int| 0 <= i < self.index.len() ==> #[trigger] self.entry_ok(i)
        &&& forall|m: int|
            0 <= m < self.mappings.len() ==> self.mapping_ok(#[trigger] self.mappings[m])
    }

    /// Whether the range at `i` holds `c`.
    pub open spec fn holds(self, i: int, c: char) -> bool {
        0 <= i < self.ranges.len() && self.ranges[i].lo() <= (c as int) <= self.ranges[i].hi()
    }

    /// The range that holds `c`.
    pub open spec fn range_of(self, c: char) -> int {
        choose|i: int| self.holds(i, c)
    }

    /// The slot of the mapping array that stands for `c`.
    pub open spec fn slot(self, c: char) -> int {
        let i = self.range_of(c);
        let x = self.index[i] as int;
        if x >= 0x8000 {
            x - 0x8000
        } else {
            x + (c as int - self.ranges[i].lo())
        }
    }

    /// The mapping of `c`.
    pub open spec fn find(self, c: char) -> Mapping {
        self.mappings[self.slot(c)]
    }

    /// The text that a slice stands for.
    pub open spec fn text(self, slice: StringTableSlice) -> Seq<char> {
        self.strings.subrange(Self::start(slice), Self::start(slice) + slice.len)
    }

    /// The mapping of `c`, with its replacement text.
    pub open spec fn kind(self, c: char) -> MappingKind {
        match self.find(c) {
            Mapping::Valid => MappingKind::Valid,
            Mapping::Ignored => MappingKind::Ignored,
            Mapping::Mapped(slice) => MappingKind::Mapped(self.text(slice)),
            Mapping::Deviation(slice) => MappingKind::Deviation(self.text(slice)),
            Mapping::Disallowed => MappingKind::Disallowed,
            Mapping::DisallowedStd3Valid => MappingKind::DisallowedStd3Valid,
            Mapping::DisallowedStd3Mapped(slice) => MappingKind::DisallowedStd3Mapped(
                self.text(slice),
            ),
        }
    }

    /// A table is well formed when its structure is in order and it maps the
    /// scalar values of the fast path to `Valid`.
    pub open spec fn wf(self) -> bool {
        &&& self.structure_ok()
        &&& forall|c: char| is_simple_char(c) ==> #[trigger] self.find(c) is Valid
    }

    /// Ranges further back hold larger scalar values.
    pub proof fn lemma_sorted(self, i: int, j: int)
        requires
            self.structure_ok(),
            0 <= i < j < self.ranges.len(),
        ensures
            self.ranges[i].hi() < self.ranges[j].lo(),
        decreases j - i,
    {
        assert(follows(self.ranges[j - 1].to, self.ranges[j].from));
        if i < j - 1 {
            self.lemma_sorted(i, j - 1);
            assert(self.ranges[j - 1].lo() <= self.ranges[j - 1].hi());
        }
    }

    /// Where every range before `i` ends before `c`, the range at `i` does
    /// not start behind `c`: no scalar value lies between two ranges.
    pub proof fn lemma_no_gap(self, i: int, c: char)
        requires
            self.structure_ok(),
            0 <= i < self.ranges.len(),
            forall|m: int| 0 <= m < i ==> (#[trigger] self.ranges[m]).hi() < c as int,
        ensures
            self.ranges[i].lo() <= c as int,
    {
        if i > 0 {
            assert(follows(self.ranges[i - 1].to, self.ranges[i].from));
            assert(self.ranges[i - 1].hi() < c as int);
        }
    }

    /// Every scalar value lies in exactly one range, and its slot exists.
    pub proof fn lemma_total(self, c: char)
        requires
            self.structure_ok(),
        ensures
            self.holds(self.range_of(c), c),
            forall|i: int| self.holds(i, c) ==> i == self.range_of(c),
            0 <= self.slot(c) < self.mappings.len(),
            self.mapping_ok(self.find(c)),
    {
        let i = self.first_from(0, c);
        self.lemma_first_from(0, c);
        assert(self.holds(i, c));
        assert forall|m: int| self.holds(m, c) implies m == self.range_of(c) by {
            let r = self.range_of(c);
            if m < r {
                self.lemma_sorted(m, r);
            } else if r < m {
                self.lemma_sorted(r, m);
            }
        }
        assert(self.entry_ok(self.range_of(c)));
    }

    /// The first range from `i` on that does not end before `c`.
    spec fn first_from(self, i: int, c: char) -> int
        decreases self.ranges.len() - i,
    {
        if i < 0 || i >= self.ranges.len() || (c as int) <= self.ranges[i].hi() {
            i
        } else {
            self.first_from(i + 1, c)
        }
    }

    proof fn lemma_first_from(self, i: int, c: char)
        requires
            self.structure_ok(),
            0 <= i < self.ranges.len(),
            forall|m: int| 0 <= m < i ==> (#[trigger] self.ranges[m]).hi() < c as int,
        ensures
            self.holds(self.first_from(i, c), c),
        decreases self.ranges.len() - i,
    {
        if (c as int) <= self.ranges[i].hi() {
            self.lemma_no_gap(i, c);
        } else if i + 1 == self.ranges.len() {
            assert(self.ranges[i] == self.ranges.last());
        } else {
            self.lemma_first_from(i + 1, c);
        }
    }
}

/// The number of a scalar value.
pub fn code_of(c: char) -> (n: u32)
    ensures
        n as int == c as int,
{
    c as u32
}

/// A mapping table: ranges of scalar values, an index entry for each range,
/// the mappings that the entries lead to, and the pool of replacement text.
/// Every value of this type is well formed.
pub struct MappingTable {
    ranges: Vec<Range>,
    index: Vec<u16>,
    mappings: Vec<Mapping>,
    strings: Vec<char>,
}

impl View for MappingTable {
    type V = TableView;

    closed spec fn view(&self) -> TableView {
        TableView {
            ranges: self.ranges@,
            index: self.index@,
            mappings: self.mappings@,
            strings: self.strings@,
        }
    }
}

/// The range of `ranges` that holds `c`.
fn search(ranges: &Vec<Range>, c: char, Ghost(t): Ghost<TableView>) -> (i: usize)
    requires
        t.structure_ok(),
        t.ranges == ranges@,
    ensures
        t.holds(i as int, c),
        i == t.range_of(c),
{
    proof {
        t.lemma_total(c);
    }
    let n: u32 = c as u32;
    let mut lo: usize = 0;
    let mut hi: usize = ranges.len();
    while lo < hi
        invariant
            t.structure_ok(),
            t.ranges == ranges@,
            n == c as int,
            0 <= lo <= hi <= ranges@.len(),
            forall|m: int| 0 <= m < lo ==> (#[trigger] t.ranges[m]).hi() < n,
            forall|m: int| hi <= m < ranges@.len() ==> n < (#[trigger] t.ranges[m]).lo(),
            forall|m: int| t.holds(m, c) ==> m == t.range_of(c),
        decreases hi - lo,
    {
        let mid: usize = lo + (hi - lo) / 2;
        let range: Range = ranges[mid];
        if n > code_of(range.to) {
            proof {
                assert forall|m: int| 0 <= m < mid + 1 implies (#[trigger] t.ranges[m]).hi() < n by {
                    if m < mid {
                        t.lemma_sorted(m, mid as int);
                        assert(t.ranges[mid as int].lo() <= t.ranges[mid as int].hi());
                    }
                }
            }
            lo = mid + 1;
        } else if n < code_of(range.from) {
            proof {
                assert forall|m: int| mid <= m < ranges@.len() implies n < (
                #[trigger] t.ranges[m]).lo() by {
                    if mid < m {
                        t.lemma_sorted(mid as int, m);
                        assert(t.ranges[mid as int].lo() <= t.ranges[mid as int].hi());
                    }
                }
            }
            hi = mid;
        } else {
            assert(t.holds(mid as int, c));
            return mid;
        }
    }
    proof {
        if lo < ranges@.len() {
            t.lemma_no_gap(lo as int, c);
        } else {
            assert(t.ranges[lo - 1] == t.ranges.last());
        }
    }
    vstd::pervasive::unreached()
}

/// The slot of the mapping array that stands for `c`.
fn slot_of(ranges: &Vec<Range>, index: &Vec<u16>, c: char, Ghost(t): Ghost<TableView>) -> (slot:
    usize)
    requires
        t.structure_ok(),
        t.ranges == ranges@,
        t.index == index@,
    ensures
        slot == t.slot(c),
        slot < t.mappings.len(),
{
    proof {
        t.lemma_total(c);
    }
    let i: usize = search(ranges, c, Ghost(t));
    let x: u16 = index[i];
    assert(t.entry_ok(i as int));
    let single: bool = (x & SINGLE_MARKER) != 0;
    let offset: u16 = !SINGLE_MARKER & x;
    assert(single == (x >= 0x8000) && offset == (if x >= 0x8000 {
        (x - 0x8000) as u16
    } else {
        x
    })) by (bit_vector)
        requires
            single == ((x & 0x8000) != 0),
            offset == (!0x8000u16 & x),
    ;
    if single {
        offset as usize
    } else {
        offset as usize + (c as u32 - code_of(ranges[i].from)) as usize
    }
}

/// Whether the mapping is in order for a pool of `pool` scalar values.
fn check_mapping(mapping: &Mapping, pool: usize, Ghost(t): Ghost<TableView>) -> (ok: bool)
    requires
        t.strings.len() == pool,
    ensures
        ok == t.mapping_ok(*mapping),
{
    match mapping {
        Mapping::Mapped(slice) | Mapping::Deviation(slice) | Mapping::DisallowedStd3Mapped(slice) => {
            let start: usize = slice.start_hi as usize * 256 + slice.start_lo as usize;
            slice.len > 0 && start + slice.len as usize <= pool
        },
        _ => true,
    }
}

/// Whether the ranges are sorted, disjoint and cover every scalar value, and
/// every index entry and mapping is in order.
fn check_structure(
    ranges: &Vec<Range>,
    index: &Vec<u16>,
    mappings: &Vec<Mapping>,
    strings: &Vec<char>,
    Ghost(t): Ghost<TableView>,
) -> (ok: bool)
    requires
        t.ranges == ranges@,
        t.index == index@,
        t.mappings == mappings@,
        t.strings == strings@,
    ensures
        ok == t.structure_ok(),
{
    let count: usize = ranges.len();
    if count == 0 || count != index.len() {
        return false;
    }
    if code_of(ranges[0].from) != 0 || code_of(ranges[count - 1].to) != 0x10FFFF {
        return false;
    }
    let mut i: usize = 0;
    while i < count
        invariant
            t.ranges == ranges@,
            t.index == index@,
            t.mappings == mappings@,
            count == ranges@.len(),
            count == index@.len(),
            0 <= i <= count,
            forall|m: int| 0 <= m < i ==> (#[trigger] t.ranges[m]).lo() <= t.ranges[m].hi(),
            forall|m: int|
                0 <= m < i && m < count - 1 ==> follows(
                    (#[trigger] t.ranges[m]).to,
                    t.ranges[m + 1].from,
                ),
            forall|m: int| 0 <= m < i ==> #[trigger] t.entry_ok(m),
        decreases count - i,
    {
        let from: u32 = code_of(ranges[i].from);
        let to: u32 = code_of(ranges[i].to);
        if from > to {
            assert(!(t.ranges[i as int].lo() <= t.ranges[i as int].hi()));
            return false;
        }
        if i + 1 < count {
            let next: u32 = code_of(ranges[i + 1].from);
            if !(next as u64 == to as u64 + 1 || (to == 0xD7FF && next == 0xE000)) {
                assert(!follows(t.ranges[i as int].to, t.ranges[i + 1].from));
                return false;
            }
        }
        let x: u16 = index[i];
        let fits: bool = if x >= SINGLE_MARKER {
            ((x - SINGLE_MARKER) as usize) < mappings.len()
        } else {
            (x as u64) + ((to - from) as u64) < mappings.len() as u64
        };
        if !fits {
            assert(!t.entry_ok(i as int));
            return false;
        }
        assert(t.entry_ok(i as int));
        i = i + 1;
    }
    let mut m: usize = 0;
    while m < mappings.len()
        invariant
            t.mappings == mappings@,
            t.strings == strings@,
            0 <= m <= mappings@.len(),
            forall|j: int| 0 <= j < m ==> t.mapping_ok(#[trigger] t.mappings[j]),
        decreases mappings@.len() - m,
    {
        if !check_mapping(&mappings[m], strings.len(), Ghost(t)) {
            assert(!t.mapping_ok(t.mappings[m as int]));
            return false;
        }
        m = m + 1;
    }
    true
}

/// Whether the table maps every scalar value of the fast path to `Valid`.
fn check_fast_path(
    ranges: &Vec<Range>,
    index: &Vec<u16>,
    mappings: &Vec<Mapping>,
    Ghost(t): Ghost<TableView>,
) -> (ok: bool)
    requires
        t.structure_ok(),
        t.ranges == ranges@,
        t.index == index@,
        t.mappings == mappings@,
    ensures
        ok == (forall|c: char| is_simple_char(c) ==> #[trigger] t.find(c) is Valid),
{
    let mut n: u32 = 0x2D;
    while n <= 0x7A
        invariant
            t.structure_ok(),
            t.ranges == ranges@,
            t.index == index@,
            t.mappings == mappings@,
            0x2D <= n <= 0x7B,
            forall|c: char| is_simple_char(c) && (c as int) < n ==> #[trigger] t.find(c) is Valid,
        decreases 0x7B - n,
    {
        if n == 0x2D || n == 0x2E || (0x30 <= n && n <= 0x39) || 0x61 <= n {
            let c: char = match char::from_u32(n) {
                Some(c) => c,
                None => vstd::pervasive::unreached(),
            };
            let slot: usize = slot_of(ranges, index, c, Ghost(t));
            let valid: bool = match mappings[slot] {
                Mapping::Valid => true,
                _ => false,
            };
            if !valid {
                assert(is_simple_char(c) && !(t.find(c) is Valid));
                return false;
            }
        }
        n = n + 1;
    }
    true
}

impl MappingTable {
    /// What holds of every table.
    #[verifier::type_invariant]
    pub open spec fn well_formed(self) -> bool {
        self@.wf()
    }

    /// Makes a table of the given parts, where they make up a well-formed
    /// one.
    pub fn new(
        ranges: Vec<Range>,
        index: Vec<u16>,
        mappings: Vec<Mapping>,
        strings: Vec<char>,
    ) -> (table: Option<MappingTable>)
        ensures
            match table {
                Some(t) => t@.wf() && t@ == (TableView {
                    ranges: ranges@,
                    index: index@,
                    mappings: mappings@,
                    strings: strings@,
                }),
                None => !(TableView {
                    ranges: ranges@,
                    index: index@,
                    mappings: mappings@,
                    strings: strings@,
                }).wf(),
            },
    {
        let ghost t = TableView {
            ranges: ranges@,
            index: index@,
            mappings: mappings@,
            strings: strings@,
        };
        if !check_structure(&ranges, &index, &mappings, &strings, Ghost(t)) {
            return None;
        }
        if !check_fast_path(&ranges, &index, &mappings, Ghost(t)) {
            return None;
        }
        Some(MappingTable { ranges, index, mappings, strings })
    }

    /// The mapping of `codepoint`.
    pub fn find_char(&self, codepoint: char) -> (mapping: &Mapping)
        ensures
            *mapping == self@.find(codepoint),
            self@.mapping_ok(*mapping),
            self@.wf(),
    {
        proof {
            use_type_invariant(self);
            self@.lemma_total(codepoint);
        }
        let slot = slot_of(&self.ranges, &self.index, codepoint, Ghost(self@));
        &self.mappings[slot]
    }

    /// The replacement text that `slice` stands for.
    pub fn decode_slice(&self, slice: &StringTableSlice) -> (text: &[char])
        requires
            self@.slice_ok(*slice),
        ensures
            text@ == self@.text(*slice),
    {
        let lo: usize = slice.start_lo as usize;
        let hi: usize = slice.start_hi as usize;
        let start: usize = (hi << 8) | lo;
        assert(start == hi * 256 + lo) by (bit_vector)
            requires
                start == (hi << 8) | lo,
                hi < 256,
                lo < 256,
        ;
        let len: usize = slice.len as usize;
        slice_subrange(self.strings.as_slice(), start, start + len)
    }
}

} // verus!
