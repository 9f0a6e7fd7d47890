//! Walking the records of a dump.
//!
//! A dump is a run of records, each a header and the payload it announces. The walk starts at
//! offset 0 with an empty table and, at each record boundary, reads up to 32 bytes:
//!
//! * none: the dump ends here, and the walk is done;
//! * fewer than 32: the dump ends inside a header;
//! * 32: the header is decoded, and the record is accepted if its payload ends within the file.
//!
//! [`Walker`] makes these decisions and leaves the reading to its caller; [`walk`] does both on
//! a dump held in memory.

use crate::header::{decode_block, decode_spec, DecodeError, HEADER_SIZE};
use crate::table::{
    lemma_well_formed_empty, lemma_well_formed_push, records_end, well_formed, TranslationEntry,
    TranslationTable,
};
use vstd::prelude::*;
use vstd::slice::slice_subrange;

verus! {

/// Why a walk failed.
#[derive(Clone, Copy, Debug, PartialEq, Eq)]
pub enum WalkError {
    /// The file ends inside a header.
    TruncatedHeader,
    /// The file ends before the payload that the last header announces does.
    TruncatedPayload,
    /// The header at `offset` was rejected for the reason `kind`.
    MalformedHeader { kind: DecodeError, offset: u64 },
    /// A header could not be read.
    Io,
}

impl WalkError {
    /// The short name of the error, for logs.
    pub open spec fn reason_spec(self) -> Seq<char> {
        match self {
            WalkError::TruncatedHeader => "truncated header"@,
            WalkError::TruncatedPayload => "truncated payload"@,
            WalkError::MalformedHeader { kind, .. } => kind.reason_spec(),
            WalkError::Io => "unable to read file"@,
        }
    }

    /// The short name of the error, for logs: the same for every error of a kind.
    pub fn reason(&self) -> (r: &'static str)
        ensures
            r@ == self.reason_spec(),
    {
        match self {
            WalkError::TruncatedHeader => "truncated header",
            WalkError::TruncatedPayload => "truncated payload",
            WalkError::MalformedHeader { kind, .. } => kind.reason(),
            WalkError::Io => "unable to read file",
        }
    }
}

/// What one step of the walk decides.
#[derive(Clone, Copy, Debug, PartialEq, Eq)]
pub enum StepOutcome {
    /// The record is accepted; this is its entry.
    Accepted(TranslationEntry),
    /// The dump ends at this record boundary.
    Finished,
    /// The walk fails.
    Failed(WalkError),
}

/// The decision at the record boundary `cursor` of a file of `file_len` bytes, given what the
/// read of up to 32 bytes at `cursor` returned (`None`: the read failed).
pub open spec fn step_spec(file_len: int, cursor: int, read: Option<Seq<u8>>) -> StepOutcome {
    match read {
        None => StepOutcome::Failed(WalkError::Io),
        Some(bytes) => if bytes.len() == 0 {
            StepOutcome::Finished
        } else if bytes.len() < HEADER_SIZE {
            StepOutcome::Failed(WalkError::TruncatedHeader)
        } else {
            match decode_spec(bytes.subrange(0, 32)) {
                Err(kind) => StepOutcome::Failed(
                    WalkError::MalformedHeader { kind, offset: cursor as u64 },
                ),
                Ok(header) => if cursor + 32 + header.payload_size() > file_len {
                    StepOutcome::Failed(WalkError::TruncatedPayload)
                } else {
                    StepOutcome::Accepted(
                        TranslationEntry {
                            phys_start: header.s_addr,
                            length: header.payload_size() as u64,
                            file_offset: (cursor + 32) as u64,
                        },
                    )
                },
            }
        },
    }
}

/// The up to 32 bytes that a read at `cursor` returns from a dump held in memory.
pub open spec fn header_read(dump: Seq<u8>, cursor: int) -> Seq<u8>
    recommends
        0 <= cursor <= dump.len(),
{
    dump.subrange(cursor, if cursor + 32 <= dump.len() {
        cursor + 32
    } else {
        dump.len() as int
    })
}

/// The rest of a walk of `dump` that has reached the record boundary `cursor` with `entries`.
pub open spec fn walk_from(dump: Seq<u8>, cursor: int, entries: Seq<TranslationEntry>) -> Result<
    Seq<TranslationEntry>,
    WalkError,
>
    recommends
        0 <= cursor <= dump.len(),
    decreases dump.len() - cursor,
{
    if 0 <= cursor <= dump.len() {
        match step_spec(dump.len() as int, cursor, Some(header_read(dump, cursor))) {
            StepOutcome::Finished => Ok(entries),
            StepOutcome::Failed(e) => Err(e),
            StepOutcome::Accepted(entry) => walk_from(
                dump,
                cursor + 32 + entry.length,
                entries.push(entry),
            ),
        }
    } else {
        Ok(entries)
    }
}

/// The table that walking `dump` from its start builds, or the error that ends the walk.
pub open spec fn walk_spec(dump: Seq<u8>) -> Result<Seq<TranslationEntry>, WalkError> {
    walk_from(dump, 0, Seq::empty())
}

/// The state of a walk, as contracts see it.
pub struct WalkState {
    /// Length of the file that is walked.
    pub file_len: u64,
    /// The entries of the records accepted so far.
    pub entries: Seq<TranslationEntry>,
}

/// A walk in progress: the records accepted so far, at a record boundary of the file.
pub struct Walker {
    file_len: u64,
    table: TranslationTable,
}

/// What a walk does next.
pub enum WalkStep {
    /// Read up to 32 bytes at the new [`cursor`](Walker::cursor) and step again.
    Continue(Walker),
    /// The walk is complete; this is the table.
    Done(TranslationTable),
    /// The walk failed; the entries gathered so far are dropped.
    Failed(WalkError),
}

impl View for Walker {
    type V = WalkState;

    closed spec fn view(&self) -> WalkState {
        WalkState { file_len: self.file_len, entries: self.table@ }
    }
}

impl Walker {
    /// The record boundary that the walk has reached.
    pub open spec fn cursor_spec(&self) -> int {
        records_end(self@.entries)
    }

    /// Starts a walk of a file of `file_len` bytes: at offset 0, with no entry.
    pub fn new(file_len: u64) -> (walker: Walker)
        ensures
            walker@.file_len == file_len,
            walker@.entries == Seq::<TranslationEntry>::empty(),
            walker.cursor_spec() == 0,
    {
        Walker { file_len, table: TranslationTable::new() }
    }

    /// Length of the file that is walked.
    pub fn file_len(&self) -> (len: u64)
        ensures
            len == self@.file_len,
    {
        self.file_len
    }

    /// The offset at which the next header is to be read.
    pub fn cursor(&self) -> (cursor: u64)
        ensures
            cursor == self.cursor_spec(),
            well_formed(self@.entries),
    {
        self.table.end_offset()
    }

    /// The table of the records accepted so far.
    pub fn table(&self) -> (table: &TranslationTable)
        ensures
            table@ == self@.entries,
    {
        &self.table
    }

    /// Decides the next step from what the read of up to 32 bytes at
    /// [`cursor`](Self::cursor) returned; `None` stands for a read that failed.
    pub fn step(self, read: Option<&[u8]>) -> (next: WalkStep)
        ensures
            match step_spec(
                self@.file_len as int,
                self.cursor_spec(),
                match read {
                    Some(bytes) => Some(bytes@),
                    None => None,
                },
            ) {
                StepOutcome::Accepted(entry) => next matches WalkStep::Continue(walker)
                    && walker@.file_len == self@.file_len && walker@.entries
                    == self@.entries.push(entry),
                StepOutcome::Finished => next matches WalkStep::Done(table) && table@
                    == self@.entries,
                StepOutcome::Failed(e) => next matches WalkStep::Failed(failure) && failure == e,
            },
    {
        let Walker { file_len, mut table } = self;
        let bytes = match read {
            Some(bytes) => bytes,
            None => {
                return WalkStep::Failed(WalkError::Io);
            },
        };
        if bytes.len() == 0 {
            return WalkStep::Done(table);
        }
        if bytes.len() < HEADER_SIZE {
            return WalkStep::Failed(WalkError::TruncatedHeader);
        }
        let cursor = table.end_offset();
        let header = match decode_block(slice_subrange(bytes, 0, HEADER_SIZE)) {
            Ok(header) => header,
            Err(kind) => {
                return WalkStep::Failed(WalkError::MalformedHeader { kind, offset: cursor });
            },
        };
        let span = header.e_addr - header.s_addr;
        if cursor > file_len || file_len - cursor < 32 || file_len - cursor - 32 <= span {
            return WalkStep::Failed(WalkError::TruncatedPayload);
        }
        let pushed = table.push(header.s_addr, span + 1);
        assert(pushed);
        WalkStep::Continue(Walker { file_len, table })
    }
}

/// Walks a dump held in memory and builds its translation table.
pub fn walk(dump: &[u8]) -> (r: Result<TranslationTable, WalkError>)
    ensures
        match r {
            Ok(table) => walk_spec(dump@) == Ok::<Seq<TranslationEntry>, WalkError>(table@),
            Err(e) => walk_spec(dump@) == Err::<Seq<TranslationEntry>, WalkError>(e),
        },
{
    let mut walker = Walker::new(dump.len() as u64);
    loop
        invariant
            walker@.file_len == dump@.len(),
            0 <= walker.cursor_spec() <= dump@.len(),
            walk_from(dump@, walker.cursor_spec(), walker@.entries) == walk_spec(dump@),
        decreases dump@.len() - walker.cursor_spec(),
    {
        let cursor = walker.cursor() as usize;
        let stop = if dump.len() - cursor < HEADER_SIZE {
            dump.len()
        } else {
            cursor + HEADER_SIZE
        };
        let ghost before = walker;
        match walker.step(Some(slice_subrange(dump, cursor, stop))) {
            WalkStep::Continue(next) => {
                proof {
                    let entry = next@.entries.last();
                    lemma_well_formed_push(before@.entries, entry);
                }
                walker = next;
            },
            WalkStep::Done(table) => {
                return Ok(table);
            },
            WalkStep::Failed(e) => {
                return Err(e);
            },
        }
    }
}

/// A walk that succeeds keeps the entries it started with and adds to them, and its result is
/// well formed and accounts for every byte of the dump.
pub proof fn lemma_walk_from_extends(dump: Seq<u8>, cursor: int, entries: Seq<TranslationEntry>)
    requires
        dump.len() <= u64::MAX,
        well_formed(entries),
        cursor == records_end(entries),
        0 <= cursor <= dump.len(),
        walk_from(dump, cursor, entries) is Ok,
    ensures
        well_formed(walk_from(dump, cursor, entries)->Ok_0),
        records_end(walk_from(dump, cursor, entries)->Ok_0) == dump.len(),
        entries.len() <= walk_from(dump, cursor, entries)->Ok_0.len(),
        walk_from(dump, cursor, entries)->Ok_0.take(entries.len() as int) == entries,
    decreases dump.len() - cursor,
{
    let read = header_read(dump, cursor);
    match step_spec(dump.len() as int, cursor, Some(read)) {
        StepOutcome::Finished => {
            assert(entries.take(entries.len() as int) == entries);
        },
        StepOutcome::Failed(_) => {},
        StepOutcome::Accepted(entry) => {
            let next = entries.push(entry);
            lemma_well_formed_push(entries, entry);
            lemma_walk_from_extends(dump, cursor + 32 + entry.length, next);
            let all = walk_from(dump, cursor, entries)->Ok_0;
            assert(all.take(entries.len() as int) == all.take(next.len() as int).take(
                entries.len() as int,
            ));
            assert(next.take(entries.len() as int) == entries);
        },
    }
}

/// The table of a dump that walks to the end is well formed, and its records fill the dump.
pub proof fn lemma_walk_accounts_for_dump(dump: Seq<u8>)
    requires
        dump.len() <= u64::MAX,
        walk_spec(dump) is Ok,
    ensures
        well_formed(walk_spec(dump)->Ok_0),
        records_end(walk_spec(dump)->Ok_0) == dump.len(),
{
    lemma_well_formed_empty();
    lemma_walk_from_extends(dump, 0, Seq::empty());
}

/// The record that a walk accepts at a boundary: its header decodes, and its entry holds the
/// header's start address, its payload size, and the offset behind the header.
pub open spec fn is_record_at(dump: Seq<u8>, start: int, entry: TranslationEntry) -> bool {
    &&& 0 <= start
    &&& start + 32 + entry.length <= dump.len()
    &&& decode_spec(dump.subrange(start, start + 32)) matches Ok(header)
    &&& entry.phys_start == header.s_addr
    &&& entry.length == header.payload_size()
    &&& entry.file_offset == start + 32
}

/// One step of a walk that succeeds, at a boundary where the walk is not done.
proof fn lemma_walk_step(dump: Seq<u8>, start: int, before: Seq<TranslationEntry>)
    requires
        dump.len() <= u64::MAX,
        well_formed(before),
        start == records_end(before),
        0 <= start <= dump.len(),
        walk_from(dump, start, before) is Ok,
        before.len() < walk_from(dump, start, before)->Ok_0.len(),
    ensures
        ({
            let all = walk_from(dump, start, before)->Ok_0;
            let k = before.len() as int;
            &&& is_record_at(dump, start, all[k])
            &&& all.take(k + 1) == before.push(all[k])
            &&& well_formed(all.take(k + 1))
            &&& records_end(all.take(k + 1)) == start + 32 + all[k].length
            &&& walk_from(dump, records_end(all.take(k + 1)), all.take(k + 1)) == walk_from(
                dump,
                start,
                before,
            )
        }),
{
    let all = walk_from(dump, start, before)->Ok_0;
    let k = before.len() as int;
    let read = header_read(dump, start);
    match step_spec(dump.len() as int, start, Some(read)) {
        StepOutcome::Finished => {},
        StepOutcome::Failed(_) => {},
        StepOutcome::Accepted(entry) => {
            assert(read.subrange(0, 32) == dump.subrange(start, start + 32));
            let next = before.push(entry);
            lemma_well_formed_push(before, entry);
            lemma_walk_from_extends(dump, start + 32 + entry.length, next);
            assert(all.take(k + 1) == next);
            assert(all[k] == next[k]);
        },
    }
}

/// A walk that succeeds comes by every record boundary with the entries of the records before.
pub proof fn lemma_walk_reaches_boundary(dump: Seq<u8>, k: int)
    requires
        dump.len() <= u64::MAX,
        walk_spec(dump) is Ok,
        0 <= k <= walk_spec(dump)->Ok_0.len(),
    ensures
        0 <= records_end(walk_spec(dump)->Ok_0.take(k)) <= dump.len(),
        well_formed(walk_spec(dump)->Ok_0.take(k)),
        walk_from(dump, records_end(walk_spec(dump)->Ok_0.take(k)), walk_spec(dump)->Ok_0.take(k))
            == walk_spec(dump),
    decreases k,
{
    let all = walk_spec(dump)->Ok_0;
    lemma_walk_accounts_for_dump(dump);
    crate::table::lemma_well_formed_prefix(all, k);
    if k == 0 {
        assert(all.take(0) == Seq::<TranslationEntry>::empty());
    } else {
        lemma_walk_reaches_boundary(dump, k - 1);
        lemma_walk_step(dump, records_end(all.take(k - 1)), all.take(k - 1));
    }
}

/// Every entry of the table of a dump is the header that stands at its record's start: the
/// header decodes, the entry holds its start address and its payload size, and the payload
/// follows the header and ends within the dump.
pub proof fn lemma_record_of_walk(dump: Seq<u8>, k: int)
    requires
        dump.len() <= u64::MAX,
        walk_spec(dump) is Ok,
        0 <= k < walk_spec(dump)->Ok_0.len(),
    ensures
        is_record_at(
            dump,
            records_end(walk_spec(dump)->Ok_0.take(k)),
            walk_spec(dump)->Ok_0[k],
        ),
        records_end(walk_spec(dump)->Ok_0.take(k + 1)) == records_end(
            walk_spec(dump)->Ok_0.take(k),
        ) + 32 + walk_spec(dump)->Ok_0[k].length,
{
    let all = walk_spec(dump)->Ok_0;
    lemma_walk_reaches_boundary(dump, k);
    lemma_walk_step(dump, records_end(all.take(k)), all.take(k));
}

/// A walk of the first `n` bytes of a dump that walks to the end comes by every record
/// boundary at or before `n`, with the entries of the records before.
pub proof fn lemma_truncated_walk_reaches_boundary(dump: Seq<u8>, n: int, k: int)
    requires
        dump.len() <= u64::MAX,
        walk_spec(dump) is Ok,
        0 <= k <= walk_spec(dump)->Ok_0.len(),
        records_end(walk_spec(dump)->Ok_0.take(k)) <= n <= dump.len(),
    ensures
        walk_from(
            dump.take(n),
            records_end(walk_spec(dump)->Ok_0.take(k)),
            walk_spec(dump)->Ok_0.take(k),
        ) == walk_spec(dump.take(n)),
    decreases k,
{
    let all = walk_spec(dump)->Ok_0;
    let cut = dump.take(n);
    if k == 0 {
        assert(all.take(0) == Seq::<TranslationEntry>::empty());
    } else {
        let start = records_end(all.take(k - 1));
        lemma_record_of_walk(dump, k - 1);
        lemma_truncated_walk_reaches_boundary(dump, n, k - 1);
        assert(header_read(cut, start).subrange(0, 32) == dump.subrange(start, start + 32));
        assert(all.take(k - 1).push(all[k - 1]) == all.take(k));
    }
}

/// Walker totality: of a dump that walks to the end, the first `n` bytes walk to the end too
/// where `n` is a record boundary, and the walk gives the records before it; the walk stops
/// with `TruncatedHeader` where `n` lies inside a header, and with `TruncatedPayload` where `n`
/// lies behind a header and before the end of its payload. Record `k` is the one that holds
/// byte `n`, or the number of records where `n` is the length of the dump.
pub proof fn lemma_walk_truncated(dump: Seq<u8>, n: int, k: int)
    requires
        dump.len() <= u64::MAX,
        walk_spec(dump) is Ok,
        0 <= k <= walk_spec(dump)->Ok_0.len(),
        records_end(walk_spec(dump)->Ok_0.take(k)) <= n <= dump.len(),
        k < walk_spec(dump)->Ok_0.len() ==> n < records_end(walk_spec(dump)->Ok_0.take(k + 1)),
    ensures
        ({
            let all = walk_spec(dump)->Ok_0;
            let start = records_end(all.take(k));
            let cut = walk_spec(dump.take(n));
            &&& n == start ==> cut == Ok::<Seq<TranslationEntry>, WalkError>(all.take(k))
            &&& start < n < start + 32 ==> cut == Err::<Seq<TranslationEntry>, WalkError>(
                WalkError::TruncatedHeader,
            )
            &&& start + 32 <= n && k < all.len() ==> cut == Err::<
                Seq<TranslationEntry>,
                WalkError,
            >(WalkError::TruncatedPayload)
        }),
{
    let all = walk_spec(dump)->Ok_0;
    let start = records_end(all.take(k));
    let cut = dump.take(n);
    lemma_truncated_walk_reaches_boundary(dump, n, k);
    lemma_walk_reaches_boundary(dump, k);
    if k < all.len() {
        lemma_record_of_walk(dump, k);
        if start + 32 <= n {
            assert(header_read(cut, start).subrange(0, 32) == dump.subrange(start, start + 32));
        }
    } else {
        lemma_walk_accounts_for_dump(dump);
        assert(all.take(k) == all);
    }
}

} // verus!
