//! Opening a dump and reading physical memory from it.
//!
//! [`create_connector`] walks a dump held in memory and returns a [`PhysicalReader`] over it.
//! A caller that keeps the dump in a file drives a [`Walker`](crate::walker::Walker) instead,
//! reads the pieces that [`plan_read`](crate::reader::plan_read) lists, and uses [`OpenError`]
//! to say what went wrong.

use crate::reader::{lemma_read_finds_bytes, read_physical, read_spec, ReadError};
use crate::table::{records_end, well_formed, TranslationEntry, TranslationTable};
use crate::walker::{lemma_walk_accounts_for_dump, walk, walk_spec, WalkError};
use vstd::prelude::*;

verus! {

/// Why a dump could not be opened.
#[derive(Clone, Copy, Debug, PartialEq, Eq)]
pub enum OpenError {
    /// No dump was named.
    MissingTarget,
    /// The file could not be opened.
    UnableToOpenFile,
    /// A header could not be read from the file.
    UnableToReadFile,
    /// The file could not be positioned.
    UnableToSeekFile,
    /// The walk of the dump failed for this reason.
    MalformedDump(WalkError),
}

/// The error that opening reports when the walk of the dump fails with `e`: a failed read is
/// reported as such, everything else as a malformed dump.
pub open spec fn open_error_of(e: WalkError) -> OpenError {
    match e {
        WalkError::Io => OpenError::UnableToReadFile,
        _ => OpenError::MalformedDump(e),
    }
}

impl OpenError {
    /// The short name of the error, for logs.
    pub open spec fn reason_spec(self) -> Seq<char> {
        match self {
            OpenError::MissingTarget => "missing target"@,
            OpenError::UnableToOpenFile => "unable to open file"@,
            OpenError::UnableToReadFile => "unable to read file"@,
            OpenError::UnableToSeekFile => "unable to seek file"@,
            OpenError::MalformedDump(e) => e.reason_spec(),
        }
    }

    /// The short name of the error, for logs: the same for every error of a kind.
    pub fn reason(&self) -> (r: &'static str)
        ensures
            r@ == self.reason_spec(),
    {
        match self {
            OpenError::MissingTarget => "missing target",
            OpenError::UnableToOpenFile => "unable to open file",
            OpenError::UnableToReadFile => "unable to read file",
            OpenError::UnableToSeekFile => "unable to seek file",
            OpenError::MalformedDump(e) => e.reason(),
        }
    }

    /// The error that opening reports when the walk of the dump fails with `e`.
    pub fn from_walk_error(e: WalkError) -> (r: OpenError)
        ensures
            r == open_error_of(e),
    {
        match e {
            WalkError::Io => OpenError::UnableToReadFile,
            _ => OpenError::MalformedDump(e),
        }
    }
}

/// The text that [`help`] returns.
pub open spec fn help_text() -> Seq<char> {
    "The `lime` connector implements the LiME file format parser.\n\nThe `target` argument specifies the filename of the file to be opened.\n"@
}

/// Retrieve the help text for the `LiME` connector: what the `target` option means.
pub fn help() -> (text: String)
    ensures
        text@ == help_text(),
        text@.len() > 0,
{
    proof {
        reveal_strlit(
            "The `lime` connector implements the LiME file format parser.\n\nThe `target` argument specifies the filename of the file to be opened.\n",
        );
    }
    "The `lime` connector implements the LiME file format parser.\n\nThe `target` argument specifies the filename of the file to be opened.\n".to_owned()
}

/// A dump held in memory, with its translation table.
pub struct PhysicalReader {
    image: Vec<u8>,
    table: TranslationTable,
}

impl PhysicalReader {
    #[verifier::type_invariant]
    spec fn inv(&self) -> bool {
        walk_spec(self.image@) == Ok::<Seq<TranslationEntry>, WalkError>(self.table@)
    }

    /// The bytes of the dump.
    pub closed spec fn image(&self) -> Seq<u8> {
        self.image@
    }

    /// The entries of the translation table.
    pub closed spec fn entries(&self) -> Seq<TranslationEntry> {
        self.table@
    }

    /// The translation table of the dump.
    pub fn table(&self) -> (table: &TranslationTable)
        ensures
            table@ == self.entries(),
            walk_spec(self.image()) == Ok::<Seq<TranslationEntry>, WalkError>(self.entries()),
    {
        proof {
            use_type_invariant(self);
        }
        &self.table
    }

    /// Reads `out.len()` bytes of physical memory at `phys_addr`.
    ///
    /// The range must lie in the 64-bit address space. The read fails only where an address
    /// is met that no entry contains; the buffer then keeps its length and holds nothing of use.
    pub fn phys_read_into(&self, phys_addr: u64, out: &mut [u8]) -> (r: Result<(), ReadError>)
        requires
            phys_addr + old(out)@.len() <= 0x1_0000_0000_0000_0000,
        ensures
            final(out)@.len() == old(out)@.len(),
            match r {
                Ok(()) => read_spec(
                    self.entries(),
                    self.image(),
                    phys_addr as int,
                    old(out)@.len() as int,
                ) == Ok::<Seq<u8>, ReadError>(final(out)@),
                Err(e) => read_spec(
                    self.entries(),
                    self.image(),
                    phys_addr as int,
                    old(out)@.len() as int,
                ) == Err::<Seq<u8>, ReadError>(e) && e != ReadError::Io,
            },
    {
        proof {
            use_type_invariant(self);
            assert(self.image@.len() == self.image.len());
            lemma_walk_accounts_for_dump(self.image@);
            lemma_read_finds_bytes(self.table@, self.image@, phys_addr as int, out@.len() as int);
        }
        read_physical(&self.table, self.image.as_slice(), phys_addr, out)
    }
}

/// Opens a dump held in memory: `target` is the dump that the connector is pointed at, `None`
/// where none was given.
pub fn create_connector(target: Option<Vec<u8>>) -> (r: Result<PhysicalReader, OpenError>)
    ensures
        match target {
            None => r matches Err(e) && e == OpenError::MissingTarget,
            Some(image) => match walk_spec(image@) {
                Ok(entries) => r matches Ok(reader) && reader.image() == image@
                    && reader.entries() == entries,
                Err(e) => r matches Err(failure) && failure == open_error_of(e),
            },
        },
{
    let image = match target {
        Some(image) => image,
        None => {
            return Err(OpenError::MissingTarget);
        },
    };
    match walk(image.as_slice()) {
        Ok(table) => Ok(PhysicalReader { image, table }),
        Err(e) => Err(OpenError::from_walk_error(e)),
    }
}

} // verus!
