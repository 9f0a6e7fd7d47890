//! The translation table: which physical range each record of a dump holds, and where in the
//! file its payload lies.

use vstd::prelude::*;

verus! {

/// One record of a dump: `length` bytes of physical memory from `phys_start` on, stored in the
/// file from `file_offset` on.
#[derive(Clone, Copy, Debug, PartialEq, Eq)]
pub struct TranslationEntry {
    /// First physical address of the range.
    pub phys_start: u64,
    /// Number of bytes in the range.
    pub length: u64,
    /// Offset in the file of the first payload byte.
    pub file_offset: u64,
}

impl TranslationEntry {
    /// `phys_start <= addr < phys_start + length`.
    pub open spec fn contains(self, addr: int) -> bool {
        self.phys_start <= addr < self.phys_start + self.length
    }

    /// The physical address just past the range.
    pub open spec fn phys_end(self) -> int {
        self.phys_start + self.length
    }

    /// Where in the file the byte at `addr` lies.
    pub open spec fn offset_of(self, addr: int) -> int {
        self.file_offset + (addr - self.phys_start)
    }
}

/// The answer to a lookup: `usable_len` bytes can be read from `file_offset` on.
#[derive(Clone, Copy, Debug, PartialEq, Eq)]
pub struct Translation {
    /// Offset in the file of the byte at the address that was asked for.
    pub file_offset: u64,
    /// How many bytes from there on belong to the same entry, capped by the request.
    pub usable_len: u64,
}

/// No entry contains the address that was asked for.
#[derive(Clone, Copy, Debug, PartialEq, Eq)]
pub struct OutOfRange;

/// The smaller of two numbers.
pub open spec fn min(a: int, b: int) -> int {
    if a <= b {
        a
    } else {
        b
    }
}

/// The size of a file that holds exactly the records of `entries`: each a 32-byte header and
/// its payload.
pub open spec fn records_end(entries: Seq<TranslationEntry>) -> int
    decreases entries.len(),
{
    if entries.len() == 0 {
        0
    } else {
        records_end(entries.drop_last()) + 32 + entries.last().length
    }
}

/// Every range is non-empty and ends within the 64-bit address space, and every payload starts
/// where the records before it and its own header end.
#[verifier::opaque]
pub open spec fn well_formed(entries: Seq<TranslationEntry>) -> bool {
    forall|i: int|
        0 <= i < entries.len() ==> {
            &&& (#[trigger] entries[i]).length > 0
            &&& entries[i].phys_end() <= 0x1_0000_0000_0000_0000
            &&& entries[i].file_offset == records_end(entries.take(i)) + 32
        }
}

/// No two ranges share an address.
pub open spec fn disjoint(entries: Seq<TranslationEntry>) -> bool {
    forall|i: int, j: int, addr: int|
        #![trigger entries[i].contains(addr), entries[j].contains(addr)]
        0 <= i < j < entries.len() ==> !(entries[i].contains(addr) && entries[j].contains(addr))
}

/// Some entry contains `addr`.
pub open spec fn mapped(entries: Seq<TranslationEntry>, addr: int) -> bool {
    exists|i: int| 0 <= i < entries.len() && (#[trigger] entries[i]).contains(addr)
}

/// Entry `i` contains `addr` and no entry before it does.
pub open spec fn is_first_containing(entries: Seq<TranslationEntry>, addr: int, i: int) -> bool {
    &&& 0 <= i < entries.len()
    &&& entries[i].contains(addr)
    &&& forall|j: int| 0 <= j < i ==> !(#[trigger] entries[j]).contains(addr)
}

/// The index of the first entry, in insertion order, that contains `addr`.
pub open spec fn first_containing(entries: Seq<TranslationEntry>, addr: int) -> int {
    choose|i: int| is_first_containing(entries, addr, i)
}

/// What a lookup of `addr` for at most `max_len` bytes yields: the file offset of `addr` in the
/// first entry that contains it, and the number of bytes up to the end of that entry, capped by
/// `max_len`; `None` where no entry contains `addr`.
pub open spec fn translate_spec(entries: Seq<TranslationEntry>, addr: int, max_len: int) -> Option<
    (int, int),
> {
    if mapped(entries, addr) {
        let e = entries[first_containing(entries, addr)];
        Some((e.offset_of(addr), min(max_len, e.phys_end() - addr)))
    } else {
        None
    }
}

/// An ordered sequence of translation entries, in the order of the records in the file.
///
/// Its view is the sequence of entries, which is always [`well_formed`].
pub struct TranslationTable {
    entries: Vec<TranslationEntry>,
    end: u64,
}

impl View for TranslationTable {
    type V = Seq<TranslationEntry>;

    closed spec fn view(&self) -> Seq<TranslationEntry> {
        self.entries@
    }
}

impl TranslationTable {
    #[verifier::type_invariant]
    spec fn inv(&self) -> bool {
        &&& well_formed(self.entries@)
        &&& self.end == records_end(self.entries@)
    }

    /// The empty table.
    pub fn new() -> (table: TranslationTable)
        ensures
            table@ == Seq::<TranslationEntry>::empty(),
    {
        proof {
            reveal(well_formed);
        }
        TranslationTable { entries: Vec::new(), end: 0 }
    }

    /// Number of entries.
    pub fn len(&self) -> (n: usize)
        ensures
            n == self@.len(),
    {
        self.entries.len()
    }

    /// Whether the table has no entry.
    pub fn is_empty(&self) -> (empty: bool)
        ensures
            empty == (self@.len() == 0),
    {
        self.entries.len() == 0
    }

    /// The entries, in insertion order.
    pub fn entries(&self) -> (entries: &[TranslationEntry])
        ensures
            entries@ == self@,
            well_formed(self@),
    {
        proof {
            use_type_invariant(self);
        }
        self.entries.as_slice()
    }

    /// The offset just past the last record: where the next header would stand.
    pub fn end_offset(&self) -> (end: u64)
        ensures
            end == records_end(self@),
            well_formed(self@),
    {
        proof {
            use_type_invariant(self);
        }
        self.end
    }

    /// Appends the record that follows the ones already in the table: its header stands at
    /// [`end_offset`](Self::end_offset) and its payload of `length` bytes right behind it.
    ///
    /// Nothing is appended, and `false` returned, where the range is empty or reaches beyond
    /// the 64-bit address space, or where the record would end beyond the largest file offset.
    pub fn push(&mut self, phys_start: u64, length: u64) -> (pushed: bool)
        ensures
            pushed == (length > 0 && phys_start + length <= 0x1_0000_0000_0000_0000 && records_end(
                old(self)@,
            ) + 32 + length <= u64::MAX),
            pushed ==> final(self)@ == old(self)@.push(
                TranslationEntry {
                    phys_start,
                    length,
                    file_offset: (records_end(old(self)@) + 32) as u64,
                },
            ),
            !pushed ==> final(self)@ == old(self)@,
            well_formed(final(self)@),
    {
        proof {
            use_type_invariant(&*self);
        }
        if length == 0 || length - 1 > u64::MAX - phys_start {
            return false;
        }
        if self.end > u64::MAX - 32 || length > u64::MAX - 32 - self.end {
            return false;
        }
        let mut taken = TranslationTable::new();
        core::mem::swap(self, &mut taken);
        let TranslationTable { mut entries, end } = taken;
        let entry = TranslationEntry { phys_start, length, file_offset: end + 32 };
        proof {
            lemma_well_formed_push(entries@, entry);
        }
        entries.push(entry);
        *self = TranslationTable { entries, end: end + 32 + length };
        true
    }

    /// Looks `phys_addr` up: the first entry in insertion order that contains it decides.
    pub fn translate(&self, phys_addr: u64, max_len: u64) -> (r: Result<Translation, OutOfRange>)
        ensures
            match r {
                Ok(t) => translate_spec(self@, phys_addr as int, max_len as int) == Some(
                    (t.file_offset as int, t.usable_len as int),
                ),
                Err(_) => translate_spec(self@, phys_addr as int, max_len as int) is None,
            },
    {
        proof {
            use_type_invariant(self);
        }
        let mut i: usize = 0;
        while i < self.entries.len()
            invariant
                i <= self.entries@.len(),
                well_formed(self.entries@),
                self.end == records_end(self.entries@),
                forall|j: int| 0 <= j < i ==> !(#[trigger] self.entries@[j]).contains(phys_addr as int),
            decreases self.entries@.len() - i,
        {
            let e = self.entries[i];
            if e.phys_start <= phys_addr && phys_addr - e.phys_start < e.length {
                let delta = phys_addr - e.phys_start;
                let left = e.length - delta;
                let usable_len = if max_len < left {
                    max_len
                } else {
                    left
                };
                proof {
                    lemma_payload_within_records(self.entries@, i as int);
                    lemma_first_containing(self.entries@, phys_addr as int, i as int);
                }
                return Ok(Translation { file_offset: e.file_offset + delta, usable_len });
            }
            i += 1;
        }
        Err(OutOfRange)
    }
}

/// The empty sequence is well formed.
pub proof fn lemma_well_formed_empty()
    ensures
        well_formed(Seq::<TranslationEntry>::empty()),
{
    reveal(well_formed);
}

/// A well-formed sequence stays well formed when the record that follows it is appended.
pub proof fn lemma_well_formed_push(entries: Seq<TranslationEntry>, entry: TranslationEntry)
    requires
        well_formed(entries),
        entry.length > 0,
        entry.phys_end() <= 0x1_0000_0000_0000_0000,
        entry.file_offset == records_end(entries) + 32,
    ensures
        well_formed(entries.push(entry)),
        records_end(entries.push(entry)) == records_end(entries) + 32 + entry.length,
{
    reveal(well_formed);
    let pushed = entries.push(entry);
    assert(pushed.drop_last() == entries);
    assert forall|i: int| 0 <= i < pushed.len() implies {
        &&& (#[trigger] pushed[i]).length > 0
        &&& pushed[i].phys_end() <= 0x1_0000_0000_0000_0000
        &&& pushed[i].file_offset == records_end(pushed.take(i)) + 32
    } by {
        if i < entries.len() {
            assert(pushed.take(i) == entries.take(i));
        } else {
            assert(pushed.take(i) == entries);
        }
    }
}

/// Every prefix of a well-formed sequence is well formed, and ends no later than the whole.
pub proof fn lemma_well_formed_prefix(entries: Seq<TranslationEntry>, n: int)
    requires
        well_formed(entries),
        0 <= n <= entries.len(),
    ensures
        well_formed(entries.take(n)),
        0 <= records_end(entries.take(n)) <= records_end(entries),
    decreases entries.len() - n,
{
    reveal(well_formed);
    let prefix = entries.take(n);
    assert forall|i: int| 0 <= i < prefix.len() implies {
        &&& (#[trigger] prefix[i]).length > 0
        &&& prefix[i].phys_end() <= 0x1_0000_0000_0000_0000
        &&& prefix[i].file_offset == records_end(prefix.take(i)) + 32
    } by {
        assert(prefix[i] == entries[i]);
        assert(prefix.take(i) == entries.take(i));
    }
    lemma_records_end_nonnegative(prefix);
    if n < entries.len() {
        lemma_well_formed_prefix(entries, n + 1);
        assert(entries.take(n + 1).drop_last() == prefix);
    } else {
        assert(prefix == entries);
    }
}

/// A file that holds records is no shorter than nothing.
pub proof fn lemma_records_end_nonnegative(entries: Seq<TranslationEntry>)
    ensures
        0 <= records_end(entries),
    decreases entries.len(),
{
    if entries.len() > 0 {
        lemma_records_end_nonnegative(entries.drop_last());
    }
}

/// The payload of every record lies within the file that holds the records: it starts 32 bytes
/// past the end of the record before it and ends where its own record ends.
pub proof fn lemma_payload_within_records(entries: Seq<TranslationEntry>, i: int)
    requires
        well_formed(entries),
        0 <= i < entries.len(),
    ensures
        entries[i].length > 0,
        entries[i].phys_end() <= 0x1_0000_0000_0000_0000,
        entries[i].file_offset == records_end(entries.take(i)) + 32,
        32 <= entries[i].file_offset,
        entries[i].file_offset + entries[i].length == records_end(entries.take(i + 1)),
        records_end(entries.take(i + 1)) <= records_end(entries),
{
    reveal(well_formed);
    lemma_well_formed_prefix(entries, i);
    lemma_well_formed_prefix(entries, i + 1);
    assert(entries.take(i + 1).drop_last() == entries.take(i));
}

/// File offsets are strictly increasing: a later payload starts past the end of an earlier one
/// and the later record's header.
pub proof fn lemma_file_offsets_increase(entries: Seq<TranslationEntry>, i: int, j: int)
    requires
        well_formed(entries),
        0 <= i < j < entries.len(),
    ensures
        entries[i].file_offset + entries[i].length + 32 <= entries[j].file_offset,
{
    lemma_payload_within_records(entries, i);
    lemma_payload_within_records(entries, j);
    lemma_well_formed_prefix(entries, j);
    lemma_well_formed_prefix(entries.take(j), i + 1);
    assert(entries.take(j).take(i + 1) == entries.take(i + 1));
}

/// An entry that contains an address, with none before it that does, is the one a lookup picks.
pub proof fn lemma_first_containing(entries: Seq<TranslationEntry>, addr: int, i: int)
    requires
        is_first_containing(entries, addr, i),
    ensures
        mapped(entries, addr),
        first_containing(entries, addr) == i,
{
    let k = first_containing(entries, addr);
    assert(is_first_containing(entries, addr, k));
    if k < i {
        assert(!entries[k].contains(addr));
    } else if i < k {
        assert(!entries[i].contains(addr));
    }
}

/// An address that some entry contains has a first entry that contains it.
pub proof fn lemma_mapped_has_first(entries: Seq<TranslationEntry>, addr: int)
    requires
        mapped(entries, addr),
    ensures
        is_first_containing(entries, addr, first_containing(entries, addr)),
{
    let k = choose|i: int| 0 <= i < entries.len() && (#[trigger] entries[i]).contains(addr);
    lemma_first_at_or_before(entries, addr, k);
}

proof fn lemma_first_at_or_before(entries: Seq<TranslationEntry>, addr: int, k: int)
    requires
        0 <= k < entries.len(),
        entries[k].contains(addr),
    ensures
        exists|i: int| 0 <= i <= k && is_first_containing(entries, addr, i),
    decreases k,
{
    if exists|j: int| 0 <= j < k && (#[trigger] entries[j]).contains(addr) {
        let j = choose|j: int| 0 <= j < k && (#[trigger] entries[j]).contains(addr);
        lemma_first_at_or_before(entries, addr, j);
    } else {
        assert(is_first_containing(entries, addr, k));
    }
}

/// Translation is exact: an address in the first entry that contains it lies as far into the
/// payload as it lies into the range, whatever the length asked for.
pub proof fn lemma_translation_exact(
    entries: Seq<TranslationEntry>,
    i: int,
    addr: int,
    max_len: int,
)
    requires
        well_formed(entries),
        is_first_containing(entries, addr, i),
    ensures
        translate_spec(entries, addr, max_len) is Some,
        translate_spec(entries, addr, max_len)->Some_0.0 - entries[i].file_offset == addr
            - entries[i].phys_start,
{
    lemma_first_containing(entries, addr, i);
}

/// In a table whose ranges do not overlap, translation is exact for every entry and every
/// address in it.
pub proof fn lemma_translation_exact_disjoint(
    entries: Seq<TranslationEntry>,
    i: int,
    addr: int,
    max_len: int,
)
    requires
        well_formed(entries),
        disjoint(entries),
        0 <= i < entries.len(),
        entries[i].contains(addr),
    ensures
        translate_spec(entries, addr, max_len) is Some,
        translate_spec(entries, addr, max_len)->Some_0.0 - entries[i].file_offset == addr
            - entries[i].phys_start,
{
    assert forall|j: int| 0 <= j < i implies !(#[trigger] entries[j]).contains(addr) by {
        if entries[j].contains(addr) {
            assert(entries[i].contains(addr));
        }
    }
    lemma_translation_exact(entries, i, addr, max_len);
}

/// Boundary closure: a lookup of the last address of an entry for one byte yields one byte, and
/// a lookup of the address just past an entry fails exactly when no entry contains that address.
pub proof fn lemma_boundary_closure(entries: Seq<TranslationEntry>, i: int)
    requires
        well_formed(entries),
        0 <= i < entries.len(),
    ensures
        translate_spec(entries, entries[i].phys_end() - 1, 1) is Some,
        translate_spec(entries, entries[i].phys_end() - 1, 1)->Some_0.1 == 1,
        !entries[i].contains(entries[i].phys_end()),
        translate_spec(entries, entries[i].phys_end(), 1) is None <==> !mapped(
            entries,
            entries[i].phys_end(),
        ),
{
    let last = entries[i].phys_end() - 1;
    lemma_payload_within_records(entries, i);
    assert(entries[i].contains(last));
    lemma_mapped_has_first(entries, last);
}

} // verus!
