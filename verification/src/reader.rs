//! Reading physical memory through a translation table.
//!
//! A read of `len` bytes at a physical address is served piece by piece: the address is looked
//! up, as many bytes as the entry found still holds are taken from the file, and the read goes
//! on behind them. An address that no entry contains ends the read with an error; nothing is
//! filled in for it.

use crate::table::{
    first_containing, lemma_mapped_has_first, lemma_payload_within_records, mapped, records_end,
    translate_spec, well_formed, TranslationEntry, TranslationTable,
};
use vstd::prelude::*;

verus! {

/// Why a read failed.
#[derive(Clone, Copy, Debug, PartialEq, Eq)]
pub enum ReadError {
    /// No entry of the table contains this address.
    UnmappedAddress(u64),
    /// The file does not hold the bytes that the table points to, or could not be read.
    Io,
}

impl ReadError {
    /// The short name of the error, for logs.
    pub open spec fn reason_spec(self) -> Seq<char> {
        match self {
            ReadError::UnmappedAddress(_) => "unmapped address"@,
            ReadError::Io => "unable to read file"@,
        }
    }

    /// The short name of the error, for logs: the same for every error of a kind.
    pub fn reason(&self) -> (r: &'static str)
        ensures
            r@ == self.reason_spec(),
    {
        match self {
            ReadError::UnmappedAddress(_) => "unmapped address",
            ReadError::Io => "unable to read file",
        }
    }
}

/// One piece of a read: `len` bytes of the file from `file_offset` on.
#[derive(Clone, Copy, Debug, PartialEq, Eq)]
pub struct ReadSegment {
    /// Offset in the file of the first byte of the piece.
    pub file_offset: u64,
    /// Number of bytes in the piece.
    pub len: u64,
}

/// The pieces that a read of `len` bytes at `addr` is made of, in the order in which they fill
/// the buffer; or the first address met that no entry contains.
pub open spec fn plan_spec(entries: Seq<TranslationEntry>, addr: int, len: int) -> Result<
    Seq<ReadSegment>,
    ReadError,
>
    decreases len,
{
    if len <= 0 {
        Ok(Seq::empty())
    } else {
        match translate_spec(entries, addr, len) {
            None => Err(ReadError::UnmappedAddress(addr as u64)),
            Some((offset, usable)) => if 0 < usable <= len {
                match plan_spec(entries, addr + usable, len - usable) {
                    Ok(rest) => Ok(
                        seq![ReadSegment { file_offset: offset as u64, len: usable as u64 }] + rest,
                    ),
                    Err(e) => Err(e),
                }
            } else {
                Ok(Seq::empty())
            },
        }
    }
}

/// The bytes that a read of `len` bytes at `addr` yields from `file`: piece after piece, each
/// looked up and then taken from the file, where the file holds it.
pub open spec fn read_spec(entries: Seq<TranslationEntry>, file: Seq<u8>, addr: int, len: int) -> Result<
    Seq<u8>,
    ReadError,
>
    decreases len,
{
    if len <= 0 {
        Ok(Seq::empty())
    } else {
        match translate_spec(entries, addr, len) {
            None => Err(ReadError::UnmappedAddress(addr as u64)),
            Some((offset, usable)) => if 0 < usable <= len {
                if offset + usable > file.len() {
                    Err(ReadError::Io)
                } else {
                    match read_spec(entries, file, addr + usable, len - usable) {
                        Ok(rest) => Ok(file.subrange(offset, offset + usable) + rest),
                        Err(e) => Err(e),
                    }
                }
            } else {
                Ok(Seq::empty())
            },
        }
    }
}

/// Total number of bytes in the pieces.
pub open spec fn segments_len(segments: Seq<ReadSegment>) -> int
    decreases segments.len(),
{
    if segments.len() == 0 {
        0
    } else {
        segments_len(segments.drop_last()) + segments.last().len
    }
}

/// A lookup of an address in a well-formed table, for at least one byte, yields at least one
/// byte and no more than asked for, from within the record that holds them.
pub proof fn lemma_translate_bounds(entries: Seq<TranslationEntry>, addr: int, max_len: int)
    requires
        well_formed(entries),
        0 < max_len,
        translate_spec(entries, addr, max_len) is Some,
    ensures
        ({
            let (offset, usable) = translate_spec(entries, addr, max_len)->Some_0;
            let entry = entries[first_containing(entries, addr)];
            &&& 0 < usable <= max_len
            &&& entry.contains(addr)
            &&& usable <= entry.phys_end() - addr
            &&& 32 <= offset
            &&& offset + usable <= entry.file_offset + entry.length
            &&& entry.file_offset + entry.length <= records_end(entries)
        }),
{
    lemma_mapped_has_first(entries, addr);
    lemma_payload_within_records(entries, first_containing(entries, addr));
}

/// The first piece of a read that finds its address mapped.
pub open spec fn first_segment(entries: Seq<TranslationEntry>, addr: int, len: int) -> ReadSegment {
    ReadSegment {
        file_offset: translate_spec(entries, addr, len)->Some_0.0 as u64,
        len: translate_spec(entries, addr, len)->Some_0.1 as u64,
    }
}

proof fn lemma_plan_step(entries: Seq<TranslationEntry>, addr: int, len: int, before: Seq<ReadSegment>)
    requires
        well_formed(entries),
        records_end(entries) <= u64::MAX,
        0 < len <= u64::MAX,
        translate_spec(entries, addr, len) is Some,
    ensures
        ({
            let segment = first_segment(entries, addr, len);
            &&& 0 < segment.len <= len
            &&& segment.file_offset == translate_spec(entries, addr, len)->Some_0.0
            &&& segment.len == translate_spec(entries, addr, len)->Some_0.1
            &&& segments_len(before.push(segment)) == segments_len(before) + segment.len
            &&& match plan_spec(entries, addr + segment.len, len - segment.len) {
                Ok(rest) => plan_spec(entries, addr, len) matches Ok(all) && before + all
                    == before.push(segment) + rest,
                Err(e) => plan_spec(entries, addr, len) == Err::<Seq<ReadSegment>, ReadError>(e),
            }
        }),
{
    lemma_translate_bounds(entries, addr, len);
    let segment = first_segment(entries, addr, len);
    assert(before.push(segment).drop_last() == before);
    let rest = plan_spec(entries, addr + segment.len, len - segment.len);
    if rest is Ok {
        assert(before + (seq![segment] + rest->Ok_0) == before.push(segment) + rest->Ok_0);
    }
}

proof fn lemma_read_step(
    entries: Seq<TranslationEntry>,
    file: Seq<u8>,
    addr: int,
    len: int,
    before: Seq<u8>,
)
    requires
        well_formed(entries),
        0 < len,
        translate_spec(entries, addr, len) is Some,
    ensures
        ({
            let (offset, usable) = translate_spec(entries, addr, len)->Some_0;
            &&& 0 < usable <= len
            &&& 0 <= offset
            &&& offset + usable > file.len() ==> read_spec(entries, file, addr, len) == Err::<
                Seq<u8>,
                ReadError,
            >(ReadError::Io)
            &&& offset + usable <= file.len() ==> match read_spec(
                entries,
                file,
                addr + usable,
                len - usable,
            ) {
                Ok(rest) => read_spec(entries, file, addr, len) matches Ok(all) && before + all
                    == (before + file.subrange(offset, offset + usable)) + rest,
                Err(e) => read_spec(entries, file, addr, len) == Err::<Seq<u8>, ReadError>(e),
            }
        }),
{
    lemma_translate_bounds(entries, addr, len);
    let (offset, usable) = translate_spec(entries, addr, len)->Some_0;
    if offset + usable <= file.len() {
        let rest = read_spec(entries, file, addr + usable, len - usable);
        if rest is Ok {
            let piece = file.subrange(offset, offset + usable);
            assert(before + (piece + rest->Ok_0) == (before + piece) + rest->Ok_0);
        }
    }
}

/// Lists the pieces of the file that a read of `len` bytes at `phys_addr` is made of.
///
/// The range must lie in the 64-bit address space.
pub fn plan_read(table: &TranslationTable, phys_addr: u64, len: u64) -> (r: Result<
    Vec<ReadSegment>,
    ReadError,
>)
    requires
        phys_addr + len <= 0x1_0000_0000_0000_0000,
    ensures
        match r {
            Ok(segments) => plan_spec(table@, phys_addr as int, len as int) == Ok::<
                Seq<ReadSegment>,
                ReadError,
            >(segments@) && segments_len(segments@) == len,
            Err(e) => plan_spec(table@, phys_addr as int, len as int) == Err::<
                Seq<ReadSegment>,
                ReadError,
            >(e),
        },
{
    let mut segments: Vec<ReadSegment> = Vec::new();
    let mut done: u64 = 0;
    let ghost entries = table@;
    let ghost goal = plan_spec(entries, phys_addr as int, len as int);
    let _ = table.end_offset();
    proof {
        if goal is Ok {
            assert(Seq::<ReadSegment>::empty() + goal->Ok_0 == goal->Ok_0);
        }
    }
    while done < len
        invariant
            entries == table@,
            well_formed(entries),
            done <= len,
            phys_addr + len <= 0x1_0000_0000_0000_0000,
            records_end(entries) <= u64::MAX,
            segments_len(segments@) == done,
            goal == plan_spec(entries, phys_addr as int, len as int),
            match plan_spec(entries, phys_addr + done, len - done) {
                Ok(rest) => goal matches Ok(all) && all == segments@ + rest,
                Err(e) => goal == Err::<Seq<ReadSegment>, ReadError>(e),
            },
        decreases len - done,
    {
        let cur_addr = phys_addr + done;
        match table.translate(cur_addr, len - done) {
            Err(_) => {
                return Err(ReadError::UnmappedAddress(cur_addr));
            },
            Ok(t) => {
                proof {
                    lemma_plan_step(entries, cur_addr as int, len - done, segments@);
                }
                segments.push(ReadSegment { file_offset: t.file_offset, len: t.usable_len });
                done = done + t.usable_len;
            },
        }
    }
    proof {
        assert(segments@ + Seq::<ReadSegment>::empty() == segments@);
    }
    Ok(segments)
}

/// Copies `count` bytes of `file` from `from` on into `out` from `at` on.
fn copy_bytes(file: &[u8], from: usize, out: &mut [u8], at: usize, count: usize)
    requires
        from + count <= file.len(),
        at + count <= old(out).len(),
    ensures
        final(out)@.len() == old(out)@.len(),
        forall|j: int| 0 <= j < at ==> #[trigger] final(out)@[j] == old(out)@[j],
        forall|j: int| at <= j < at + count ==> #[trigger] final(out)@[j] == file@[from + (j - at)],
{
    let mut i: usize = 0;
    while i < count
        invariant
            i <= count,
            from + count <= file.len(),
            at + count <= out.len(),
            out@.len() == old(out)@.len(),
            forall|j: int| 0 <= j < at ==> #[trigger] out@[j] == old(out)@[j],
            forall|j: int| at <= j < at + i ==> #[trigger] out@[j] == file@[from + (j - at)],
        decreases count - i,
    {
        out[at + i] = file[from + i];
        i += 1;
    }
}

/// Reads `out.len()` bytes of physical memory at `phys_addr` from a dump held in memory.
///
/// The range must lie in the 64-bit address space. On an error the buffer keeps its length
/// and holds nothing of use.
pub fn read_physical(table: &TranslationTable, file: &[u8], phys_addr: u64, out: &mut [u8]) -> (r:
    Result<(), ReadError>)
    requires
        phys_addr + old(out)@.len() <= 0x1_0000_0000_0000_0000,
    ensures
        final(out)@.len() == old(out)@.len(),
        match r {
            Ok(()) => read_spec(table@, file@, phys_addr as int, old(out)@.len() as int) == Ok::<
                Seq<u8>,
                ReadError,
            >(final(out)@),
            Err(e) => read_spec(table@, file@, phys_addr as int, old(out)@.len() as int) == Err::<
                Seq<u8>,
                ReadError,
            >(e),
        },
{
    let len: usize = out.len();
    let mut done: usize = 0;
    let ghost entries = table@;
    let ghost goal = read_spec(entries, file@, phys_addr as int, len as int);
    let _ = table.end_offset();
    proof {
        if goal is Ok {
            assert(out@.subrange(0, 0) + goal->Ok_0 == goal->Ok_0);
        }
    }
    while done < len
        invariant
            entries == table@,
            well_formed(entries),
            len == old(out)@.len(),
            out@.len() == len,
            done <= len,
            phys_addr + len <= 0x1_0000_0000_0000_0000,
            goal == read_spec(entries, file@, phys_addr as int, len as int),
            match read_spec(entries, file@, phys_addr + done, len - done) {
                Ok(rest) => goal matches Ok(all) && all == out@.subrange(0, done as int) + rest,
                Err(e) => goal == Err::<Seq<u8>, ReadError>(e),
            },
        decreases len - done,
    {
        let cur_addr = phys_addr + done as u64;
        let remaining = len - done;
        match table.translate(cur_addr, remaining as u64) {
            Err(_) => {
                return Err(ReadError::UnmappedAddress(cur_addr));
            },
            Ok(t) => {
                proof {
                    lemma_read_step(
                        entries,
                        file@,
                        cur_addr as int,
                        remaining as int,
                        out@.subrange(0, done as int),
                    );
                }
                let usable = t.usable_len as usize;
                if t.file_offset > file.len() as u64 || file.len() as u64 - t.file_offset
                    < t.usable_len {
                    return Err(ReadError::Io);
                }
                let ghost before = out@;
                copy_bytes(file, t.file_offset as usize, out, done, usable);
                proof {
                    assert(out@.subrange(0, done + usable) == before.subrange(0, done as int)
                        + file@.subrange(t.file_offset as int, t.file_offset + usable));
                }
                done = done + usable;
            },
        }
    }
    proof {
        assert(out@.subrange(0, done as int) + Seq::<u8>::empty() == out@);
    }
    Ok(())
}

/// The byte of `file` that stands for the physical address `addr`: the one that the first
/// entry containing `addr` points to.
pub open spec fn byte_at(entries: Seq<TranslationEntry>, file: Seq<u8>, addr: int) -> u8 {
    file[entries[first_containing(entries, addr)].offset_of(addr)]
}

/// Every address of the range is contained in some entry.
pub open spec fn all_mapped(entries: Seq<TranslationEntry>, addr: int, len: int) -> bool {
    forall|x: int| addr <= x < addr + len ==> #[trigger] mapped(entries, x)
}

/// Within the range, a piece that starts in one entry and runs over addresses that an earlier
/// entry contains too finds there the bytes that the earlier entry holds for them. A table
/// whose ranges do not overlap is coherent with every file.
pub open spec fn coherent(entries: Seq<TranslationEntry>, file: Seq<u8>, addr: int, len: int) -> bool {
    forall|c: int, x: int|
        #![trigger entries[first_containing(entries, c)].contains(x)]
        addr <= c <= x < addr + len && mapped(entries, c) && entries[first_containing(
            entries,
            c,
        )].contains(x) ==> file[entries[first_containing(entries, c)].offset_of(x)] == byte_at(
            entries,
            file,
            x,
        )
}

/// The bytes of `file` that the pieces name, one piece after the other.
pub open spec fn gather(file: Seq<u8>, segments: Seq<ReadSegment>) -> Seq<u8>
    decreases segments.len(),
{
    if segments.len() == 0 {
        Seq::empty()
    } else {
        file.subrange(
            segments.first().file_offset as int,
            segments.first().file_offset + segments.first().len,
        ) + gather(file, segments.drop_first())
    }
}

/// What a run of reads yields, each of them continuing where the one before ended, put
/// together: the reads have the lengths `lens`, and the first starts at `addr`.
pub open spec fn read_parts(
    entries: Seq<TranslationEntry>,
    file: Seq<u8>,
    addr: int,
    lens: Seq<nat>,
) -> Result<Seq<u8>, ReadError>
    decreases lens.len(),
{
    if lens.len() == 0 {
        Ok(Seq::empty())
    } else {
        match read_spec(entries, file, addr, lens.first() as int) {
            Err(e) => Err(e),
            Ok(head) => match read_parts(entries, file, addr + lens.first(), lens.drop_first()) {
                Err(e) => Err(e),
                Ok(tail) => Ok(head + tail),
            },
        }
    }
}

/// The sum of the lengths.
pub open spec fn total(lens: Seq<nat>) -> int
    decreases lens.len(),
{
    if lens.len() == 0 {
        0
    } else {
        lens.first() + total(lens.drop_first())
    }
}

/// A table whose ranges do not overlap is coherent with every file, on every range.
pub proof fn lemma_disjoint_is_coherent(
    entries: Seq<TranslationEntry>,
    file: Seq<u8>,
    addr: int,
    len: int,
)
    requires
        crate::table::disjoint(entries),
    ensures
        coherent(entries, file, addr, len),
{
    assert forall|c: int, x: int|
        #![trigger entries[first_containing(entries, c)].contains(x)]
        addr <= c <= x < addr + len && mapped(entries, c) && entries[first_containing(
            entries,
            c,
        )].contains(x) implies file[entries[first_containing(entries, c)].offset_of(x)]
        == byte_at(entries, file, x) by {
        let i = first_containing(entries, c);
        lemma_mapped_has_first(entries, c);
        assert(mapped(entries, x));
        lemma_mapped_has_first(entries, x);
        let j = first_containing(entries, x);
        if i < j {
            assert(!(entries[i].contains(x) && entries[j].contains(x)));
        } else if j < i {
            assert(!(entries[j].contains(x) && entries[i].contains(x)));
        }
    }
}

/// A read follows its plan: it fails where the plan fails, and where the file holds every
/// record it yields the bytes of the plan's pieces.
pub proof fn lemma_read_follows_plan(
    entries: Seq<TranslationEntry>,
    file: Seq<u8>,
    addr: int,
    len: int,
)
    requires
        well_formed(entries),
        records_end(entries) <= file.len() <= u64::MAX,
        len <= u64::MAX,
    ensures
        match plan_spec(entries, addr, len) {
            Ok(segments) => read_spec(entries, file, addr, len) == Ok::<Seq<u8>, ReadError>(
                gather(file, segments),
            ),
            Err(e) => read_spec(entries, file, addr, len) == Err::<Seq<u8>, ReadError>(e),
        },
    decreases len,
{
    if len > 0 && translate_spec(entries, addr, len) is Some {
        lemma_translate_bounds(entries, addr, len);
        let (offset, usable) = translate_spec(entries, addr, len)->Some_0;
        lemma_read_follows_plan(entries, file, addr + usable, len - usable);
        let rest = plan_spec(entries, addr + usable, len - usable);
        if rest is Ok {
            let segment = ReadSegment { file_offset: offset as u64, len: usable as u64 };
            let all = seq![segment] + rest->Ok_0;
            assert(all.first() == segment);
            assert(all.drop_first() == rest->Ok_0);
        }
    }
}

/// Where every address of a range is mapped, the file holds every record and the table is
/// coherent with it, a read of the range yields, for each address, the byte that stands for it.
pub proof fn lemma_read_bytewise(entries: Seq<TranslationEntry>, file: Seq<u8>, addr: int, len: int)
    requires
        well_formed(entries),
        records_end(entries) <= file.len(),
        0 <= len,
        all_mapped(entries, addr, len),
        coherent(entries, file, addr, len),
    ensures
        read_spec(entries, file, addr, len) == Ok::<Seq<u8>, ReadError>(
            Seq::new(len as nat, |i: int| byte_at(entries, file, addr + i)),
        ),
    decreases len,
{
    let want = Seq::new(len as nat, |i: int| byte_at(entries, file, addr + i));
    if len == 0 {
        assert(want == Seq::<u8>::empty());
    } else {
        assert(mapped(entries, addr));
        lemma_translate_bounds(entries, addr, len);
        let (offset, usable) = translate_spec(entries, addr, len)->Some_0;
        let first = entries[first_containing(entries, addr)];
        assert forall|x: int| addr + usable <= x < addr + len implies #[trigger] mapped(
            entries,
            x,
        ) by {
            assert(addr <= x < addr + len);
        }
        assert forall|c: int, x: int|
            #![trigger entries[first_containing(entries, c)].contains(x)]
            addr + usable <= c <= x < addr + len && mapped(entries, c) && entries[first_containing(
                entries,
                c,
            )].contains(x) implies file[entries[first_containing(entries, c)].offset_of(x)]
            == byte_at(entries, file, x) by {
            assert(addr <= c <= x < addr + len);
        }
        lemma_read_bytewise(entries, file, addr + usable, len - usable);
        let rest = Seq::new((len - usable) as nat, |i: int| byte_at(entries, file, addr + usable + i));
        let piece = file.subrange(offset, offset + usable);
        assert forall|k: int| 0 <= k < usable implies piece[k] == byte_at(entries, file, addr + k) by {
            assert(first.contains(addr + k));
            assert(piece[k] == file[first.offset_of(addr + k)]);
        }
        assert(piece + rest == want);
    }
}

/// Split-read equivalence, for two reads: under the conditions of
/// [`lemma_read_bytewise`], a read of `len` bytes yields what a read of the first `cut` bytes
/// and a read of the rest yield, put together.
pub proof fn lemma_split_read(
    entries: Seq<TranslationEntry>,
    file: Seq<u8>,
    addr: int,
    len: int,
    cut: int,
)
    requires
        well_formed(entries),
        records_end(entries) <= file.len(),
        0 <= cut <= len,
        all_mapped(entries, addr, len),
        coherent(entries, file, addr, len),
    ensures
        read_spec(entries, file, addr, len) is Ok,
        read_spec(entries, file, addr, cut) is Ok,
        read_spec(entries, file, addr + cut, len - cut) is Ok,
        read_spec(entries, file, addr, len)->Ok_0 == read_spec(entries, file, addr, cut)->Ok_0
            + read_spec(entries, file, addr + cut, len - cut)->Ok_0,
{
    lemma_restrict(entries, file, addr, len, addr, cut);
    lemma_restrict(entries, file, addr, len, addr + cut, len - cut);
    lemma_read_bytewise(entries, file, addr, len);
    lemma_read_bytewise(entries, file, addr, cut);
    lemma_read_bytewise(entries, file, addr + cut, len - cut);
    assert(Seq::new(len as nat, |i: int| byte_at(entries, file, addr + i)) == Seq::new(
        cut as nat,
        |i: int| byte_at(entries, file, addr + i),
    ) + Seq::new((len - cut) as nat, |i: int| byte_at(entries, file, addr + cut + i)));
}

/// Split-read equivalence: under the conditions of [`lemma_read_bytewise`], a read of `len`
/// bytes yields what any run of reads that covers the same range yields, put together.
pub proof fn lemma_split_read_parts(
    entries: Seq<TranslationEntry>,
    file: Seq<u8>,
    addr: int,
    len: int,
    lens: Seq<nat>,
)
    requires
        well_formed(entries),
        records_end(entries) <= file.len(),
        total(lens) == len,
        all_mapped(entries, addr, len),
        coherent(entries, file, addr, len),
    ensures
        read_spec(entries, file, addr, len) is Ok,
        read_parts(entries, file, addr, lens) == read_spec(entries, file, addr, len),
    decreases lens.len(),
{
    lemma_total_nonnegative(lens);
    if lens.len() == 0 {
    } else {
        let cut = lens.first() as int;
        lemma_total_nonnegative(lens.drop_first());
        lemma_split_read(entries, file, addr, len, cut);
        lemma_restrict(entries, file, addr, len, addr + cut, len - cut);
        lemma_split_read_parts(entries, file, addr + cut, len - cut, lens.drop_first());
    }
}

proof fn lemma_total_nonnegative(lens: Seq<nat>)
    ensures
        0 <= total(lens),
    decreases lens.len(),
{
    if lens.len() > 0 {
        lemma_total_nonnegative(lens.drop_first());
    }
}

/// What holds of a range holds of every range within it.
proof fn lemma_restrict(
    entries: Seq<TranslationEntry>,
    file: Seq<u8>,
    addr: int,
    len: int,
    sub_addr: int,
    sub_len: int,
)
    requires
        addr <= sub_addr,
        sub_addr + sub_len <= addr + len,
        all_mapped(entries, addr, len),
        coherent(entries, file, addr, len),
    ensures
        all_mapped(entries, sub_addr, sub_len),
        coherent(entries, file, sub_addr, sub_len),
{
    assert forall|x: int| sub_addr <= x < sub_addr + sub_len implies #[trigger] mapped(
        entries,
        x,
    ) by {
        assert(addr <= x < addr + len);
    }
    assert forall|c: int, x: int|
        #![trigger entries[first_containing(entries, c)].contains(x)]
        sub_addr <= c <= x < sub_addr + sub_len && mapped(entries, c) && entries[first_containing(
            entries,
            c,
        )].contains(x) implies file[entries[first_containing(entries, c)].offset_of(x)]
        == byte_at(entries, file, x) by {
        assert(addr <= c <= x < addr + len);
    }
}


/// Where the file holds every record, no read fails for want of bytes in the file.
pub proof fn lemma_read_finds_bytes(entries: Seq<TranslationEntry>, file: Seq<u8>, addr: int, len: int)
    requires
        well_formed(entries),
        records_end(entries) <= file.len(),
    ensures
        read_spec(entries, file, addr, len) != Err::<Seq<u8>, ReadError>(ReadError::Io),
        read_spec(entries, file, addr, len) matches Ok(bytes) ==> bytes.len() == if len <= 0 {
            0
        } else {
            len
        },
    decreases len,
{
    if len > 0 && translate_spec(entries, addr, len) is Some {
        lemma_translate_bounds(entries, addr, len);
        let (offset, usable) = translate_spec(entries, addr, len)->Some_0;
        lemma_read_finds_bytes(entries, file, addr + usable, len - usable);
    }
}


} // verus!
