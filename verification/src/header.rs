//! The fixed 32-byte header that opens every record of a LiME dump.
//!
//! | offset | size | field    |                                         |
//! |-------:|-----:|----------|-----------------------------------------|
//! |      0 |    4 | magic    | the bytes `L`, `i`, `M`, `E`            |
//! |      4 |    4 | version  | 1                                       |
//! |      8 |    8 | s_addr   | first physical address of the range     |
//! |     16 |    8 | e_addr   | last physical address of the range      |
//! |     24 |    8 | reserved | zero                                    |
//!
//! Every integer is little-endian.

use vstd::arithmetic::div_mod::{
    lemma_div_denominator, lemma_fundamental_div_mod, lemma_fundamental_div_mod_converse,
};
use vstd::prelude::*;

verus! {

/// Size in bytes of a header.
pub const HEADER_SIZE: usize = 32;

/// The magic, read as a little-endian integer: the bytes `4C 69 4D 45` in file order.
pub const LIME_MAGIC: u32 = 0x454D_694C;

/// The only version of the format that is understood.
pub const LIME_VERSION: u32 = 1;

/// The number that four bytes denote, least significant byte first.
pub open spec fn le_u32(b: Seq<u8>) -> int
    recommends
        b.len() == 4,
{
    b[0] as int + 0x100 * (b[1] as int) + 0x1_0000 * (b[2] as int) + 0x100_0000 * (b[3] as int)
}

/// The number that eight bytes denote, least significant byte first.
pub open spec fn le_u64(b: Seq<u8>) -> int
    recommends
        b.len() == 8,
{
    le_u32(b.subrange(0, 4)) + 0x1_0000_0000 * le_u32(b.subrange(4, 8))
}

/// The four bytes that denote `x`, least significant byte first.
pub open spec fn le_bytes_u32(x: u32) -> Seq<u8> {
    seq![
        (x % 0x100) as u8,
        (x / 0x100 % 0x100) as u8,
        (x / 0x1_0000 % 0x100) as u8,
        (x / 0x100_0000 % 0x100) as u8,
    ]
}

/// The eight bytes that denote `x`, least significant byte first.
pub open spec fn le_bytes_u64(x: u64) -> Seq<u8> {
    le_bytes_u32((x % 0x1_0000_0000) as u32) + le_bytes_u32((x / 0x1_0000_0000) as u32)
}

/// The magic field of a header block.
pub open spec fn magic_of(b: Seq<u8>) -> int
    recommends
        b.len() == HEADER_SIZE,
{
    le_u32(b.subrange(0, 4))
}

/// The version field of a header block.
pub open spec fn version_of(b: Seq<u8>) -> int
    recommends
        b.len() == HEADER_SIZE,
{
    le_u32(b.subrange(4, 8))
}

/// The start address field of a header block.
pub open spec fn s_addr_of(b: Seq<u8>) -> int
    recommends
        b.len() == HEADER_SIZE,
{
    le_u64(b.subrange(8, 16))
}

/// The end address field of a header block.
pub open spec fn e_addr_of(b: Seq<u8>) -> int
    recommends
        b.len() == HEADER_SIZE,
{
    le_u64(b.subrange(16, 24))
}

/// The reserved field of a header block.
pub open spec fn reserved_of(b: Seq<u8>) -> Seq<u8>
    recommends
        b.len() == HEADER_SIZE,
{
    b.subrange(24, 32)
}

/// Eight zero bytes.
pub open spec fn zero_reserved() -> Seq<u8> {
    seq![0u8, 0u8, 0u8, 0u8, 0u8, 0u8, 0u8, 0u8]
}

/// Why a header block was rejected.
#[derive(Clone, Copy, Debug, PartialEq, Eq)]
pub enum DecodeError {
    /// The block does not open with `LiME`.
    BadMagic,
    /// The version field holds this value, which is not 1.
    UnsupportedVersion(u32),
    /// The end address lies below the start address.
    BadRange,
    /// A reserved byte is not zero.
    BadReserved,
}

impl DecodeError {
    /// The short name of the error, for logs.
    pub open spec fn reason_spec(self) -> Seq<char> {
        match self {
            DecodeError::BadMagic => "bad magic"@,
            DecodeError::UnsupportedVersion(_) => "unsupported version"@,
            DecodeError::BadRange => "bad range"@,
            DecodeError::BadReserved => "bad reserved"@,
        }
    }

    /// The short name of the error, for logs: the same for every error of a kind.
    pub fn reason(&self) -> (r: &'static str)
        ensures
            r@ == self.reason_spec(),
    {
        match self {
            DecodeError::BadMagic => "bad magic",
            DecodeError::UnsupportedVersion(_) => "unsupported version",
            DecodeError::BadRange => "bad range",
            DecodeError::BadReserved => "bad reserved",
        }
    }
}

/// A decoded header.
///
/// A header that [`LimeHeader::decode`] returns is [`well_formed`](LimeHeader::well_formed).
#[derive(Clone, Copy, Debug, PartialEq, Eq)]
pub struct LimeHeader {
    /// Header version number.
    pub version: u32,
    /// Starting address of the physical RAM range.
    pub s_addr: u64,
    /// Ending address of the physical RAM range, inclusive.
    pub e_addr: u64,
    /// Currently all zeros.
    pub reserved: [u8; 8],
}

/// What decoding a 32-byte block yields: the checks run in the order magic, version, range,
/// reserved, and the first that fails names the error.
pub open spec fn decode_spec(b: Seq<u8>) -> Result<LimeHeader, DecodeError>
    recommends
        b.len() == HEADER_SIZE,
{
    if magic_of(b) != LIME_MAGIC {
        Err(DecodeError::BadMagic)
    } else if version_of(b) != LIME_VERSION {
        Err(DecodeError::UnsupportedVersion(version_of(b) as u32))
    } else if e_addr_of(b) < s_addr_of(b) {
        Err(DecodeError::BadRange)
    } else if reserved_of(b) != zero_reserved() {
        Err(DecodeError::BadReserved)
    } else {
        Ok(
            LimeHeader {
                version: LIME_VERSION,
                s_addr: s_addr_of(b) as u64,
                e_addr: e_addr_of(b) as u64,
                reserved: [0u8, 0u8, 0u8, 0u8, 0u8, 0u8, 0u8, 0u8],
            },
        )
    }
}

impl LimeHeader {
    /// The header passes every check that decoding makes.
    pub open spec fn well_formed(self) -> bool {
        &&& self.version == LIME_VERSION
        &&& self.s_addr <= self.e_addr
        &&& self.reserved@ == zero_reserved()
    }

    /// Number of payload bytes that follow the header: `e_addr - s_addr + 1`.
    pub open spec fn payload_size(self) -> int {
        self.e_addr - self.s_addr + 1
    }

    /// The 32 bytes that encode the header.
    pub open spec fn bytes(self) -> Seq<u8> {
        le_bytes_u32(LIME_MAGIC) + le_bytes_u32(self.version) + le_bytes_u64(self.s_addr)
            + le_bytes_u64(self.e_addr) + self.reserved@
    }

    /// Decodes and validates one header.
    ///
    /// The magic, the version, the range and the reserved bytes are looked at in this order,
    /// and the first that is wrong names the error.
    pub fn decode(buf: &[u8; 32]) -> (r: Result<LimeHeader, DecodeError>)
        ensures
            r == decode_spec(buf@),
            r matches Ok(h) ==> h.well_formed(),
    {
        decode_block(buf.as_slice())
    }

    /// Encodes the header: the 32 bytes that decode to it, where it is well formed.
    pub fn encode(&self) -> (b: [u8; 32])
        ensures
            b@ == self.bytes(),
    {
        let mut b: [u8; 32] = [0u8; 32];
        write_le_u32(&mut b, 0, LIME_MAGIC);
        write_le_u32(&mut b, 4, self.version);
        write_le_u64(&mut b, 8, self.s_addr);
        write_le_u64(&mut b, 16, self.e_addr);
        let mut i: usize = 0;
        while i < 8
            invariant
                i <= 8,
                b@.subrange(0, 24) == le_bytes_u32(LIME_MAGIC) + le_bytes_u32(self.version)
                    + le_bytes_u64(self.s_addr) + le_bytes_u64(self.e_addr),
                forall|j: int| 0 <= j < i ==> b@[24 + j] == self.reserved@[j],
            decreases 8 - i,
        {
            let ghost before = b@;
            b[24 + i] = self.reserved[i];
            assert(b@.subrange(0, 24) == before.subrange(0, 24));
            i += 1;
        }
        assert(b@ == b@.subrange(0, 24) + self.reserved@);
        b
    }

    /// Size in bytes of the memory that this header describes.
    ///
    /// The range must not be the whole 64-bit address space, whose size no `u64` holds.
    pub fn mem_section_size(&self) -> (n: u64)
        requires
            self.s_addr <= self.e_addr,
            self.payload_size() <= u64::MAX,
        ensures
            n == self.payload_size(),
    {
        self.e_addr - self.s_addr + 1
    }
}

/// Decodes the header held in a slice of exactly 32 bytes.
pub(crate) fn decode_block(b: &[u8]) -> (r: Result<LimeHeader, DecodeError>)
    requires
        b.len() == HEADER_SIZE,
    ensures
        r == decode_spec(b@),
        r matches Ok(h) ==> h.well_formed(),
{
    let magic = read_le_u32(b, 0);
    if magic != LIME_MAGIC {
        return Err(DecodeError::BadMagic);
    }
    let version = read_le_u32(b, 4);
    if version != LIME_VERSION {
        return Err(DecodeError::UnsupportedVersion(version));
    }
    let s_addr = read_le_u64(b, 8);
    let e_addr = read_le_u64(b, 16);
    if e_addr < s_addr {
        return Err(DecodeError::BadRange);
    }
    if !reserved_is_zero(b) {
        return Err(DecodeError::BadReserved);
    }
    let header = LimeHeader {
        version,
        s_addr,
        e_addr,
        reserved: [0u8, 0u8, 0u8, 0u8, 0u8, 0u8, 0u8, 0u8],
    };
    assert(header.reserved@ == zero_reserved());
    Ok(header)
}

fn reserved_is_zero(b: &[u8]) -> (zero: bool)
    requires
        b.len() == HEADER_SIZE,
    ensures
        zero == (reserved_of(b@) == zero_reserved()),
{
    let mut i: usize = 24;
    while i < 32
        invariant
            24 <= i <= 32,
            b.len() == 32,
            forall|j: int| 24 <= j < i ==> b@[j] == 0,
        decreases 32 - i,
    {
        if b[i] != 0 {
            assert(reserved_of(b@)[i - 24] != zero_reserved()[i - 24]);
            return false;
        }
        i += 1;
    }
    assert(reserved_of(b@) == zero_reserved());
    true
}

fn read_le_u32(b: &[u8], at: usize) -> (v: u32)
    requires
        at + 4 <= b.len(),
    ensures
        v == le_u32(b@.subrange(at as int, at + 4)),
{
    let b0: u32 = b[at] as u32;
    let b1: u32 = b[at + 1] as u32;
    let b2: u32 = b[at + 2] as u32;
    let b3: u32 = b[at + 3] as u32;
    b0 + 0x100 * b1 + 0x1_0000 * b2 + 0x100_0000 * b3
}

fn read_le_u64(b: &[u8], at: usize) -> (v: u64)
    requires
        at + 8 <= b.len(),
    ensures
        v == le_u64(b@.subrange(at as int, at + 8)),
{
    let low: u64 = read_le_u32(b, at) as u64;
    let high: u64 = read_le_u32(b, at + 4) as u64;
    assert(b@.subrange(at as int, at + 8).subrange(0, 4) == b@.subrange(at as int, at + 4));
    assert(b@.subrange(at as int, at + 8).subrange(4, 8) == b@.subrange(at + 4, at + 8));
    low + 0x1_0000_0000 * high
}

fn write_le_u32(b: &mut [u8; 32], at: usize, x: u32)
    requires
        at + 4 <= 32,
    ensures
        final(b)@.subrange(at as int, at + 4) == le_bytes_u32(x),
        final(b)@.subrange(0, at as int) == old(b)@.subrange(0, at as int),
        final(b)@.subrange(at + 4, 32) == old(b)@.subrange(at + 4, 32),
{
    b[at] = (x % 0x100) as u8;
    b[at + 1] = (x / 0x100 % 0x100) as u8;
    b[at + 2] = (x / 0x1_0000 % 0x100) as u8;
    b[at + 3] = (x / 0x100_0000 % 0x100) as u8;
}

fn write_le_u64(b: &mut [u8; 32], at: usize, x: u64)
    requires
        at + 8 <= 32,
    ensures
        final(b)@.subrange(at as int, at + 8) == le_bytes_u64(x),
        final(b)@.subrange(0, at as int) == old(b)@.subrange(0, at as int),
        final(b)@.subrange(at + 8, 32) == old(b)@.subrange(at + 8, 32),
{
    write_le_u32(b, at, (x % 0x1_0000_0000) as u32);
    let ghost mid = b@;
    write_le_u32(b, at + 4, (x / 0x1_0000_0000) as u32);
    assert(b@.subrange(at as int, at + 4) == mid.subrange(0, at + 4).subrange(at as int, at + 4));
    assert(b@.subrange(at as int, at + 4) == b@.subrange(0, at + 4).subrange(at as int, at + 4));
    assert(b@.subrange(0, at as int) == b@.subrange(0, at + 4).subrange(0, at as int));
    assert(mid.subrange(0, at as int) == mid.subrange(0, at + 4).subrange(0, at as int));
    assert(b@.subrange(at + 8, 32) == mid.subrange(at + 4, 32).subrange(4, 28 - at));
    assert(old(b)@.subrange(at + 8, 32) == old(b)@.subrange(at + 4, 32).subrange(4, 28 - at));
}

/// Four little-endian bytes denote a number below 2^32, and are the only four that denote it.
pub proof fn lemma_le_u32_of_bytes(b: Seq<u8>)
    requires
        b.len() == 4,
    ensures
        0 <= le_u32(b) <= u32::MAX,
        le_bytes_u32(le_u32(b) as u32) == b,
{
    let x = le_u32(b);
    let (b0, b1, b2, b3) = (b[0] as int, b[1] as int, b[2] as int, b[3] as int);
    lemma_fundamental_div_mod_converse(x, 0x100, b1 + 0x100 * b2 + 0x1_0000 * b3, b0);
    lemma_fundamental_div_mod_converse(x, 0x1_0000, b2 + 0x100 * b3, b0 + 0x100 * b1);
    lemma_fundamental_div_mod_converse(x, 0x100_0000, b3, b0 + 0x100 * b1 + 0x1_0000 * b2);
    lemma_fundamental_div_mod_converse(x / 0x100, 0x100, b2 + 0x100 * b3, b1);
    lemma_fundamental_div_mod_converse(x / 0x1_0000, 0x100, b3, b2);
    lemma_fundamental_div_mod_converse(x / 0x100_0000, 0x100, 0, b3);
    assert(le_bytes_u32(x as u32) =~= b);
}

/// Encoding a 32-bit number and reading the bytes back gives the number.
pub proof fn lemma_le_u32_round_trip(x: u32)
    ensures
        le_bytes_u32(x).len() == 4,
        le_u32(le_bytes_u32(x)) == x,
{
    let x = x as int;
    lemma_fundamental_div_mod(x, 0x100);
    lemma_fundamental_div_mod(x / 0x100, 0x100);
    lemma_fundamental_div_mod(x / 0x1_0000, 0x100);
    lemma_div_denominator(x, 0x100, 0x100);
    lemma_div_denominator(x, 0x1_0000, 0x100);
    assert(x / 0x100_0000 < 0x100);
}

/// Eight little-endian bytes denote a number below 2^64, and are the only eight that denote it.
pub proof fn lemma_le_u64_of_bytes(b: Seq<u8>)
    requires
        b.len() == 8,
    ensures
        0 <= le_u64(b) <= u64::MAX,
        le_bytes_u64(le_u64(b) as u64) == b,
{
    let low = b.subrange(0, 4);
    let high = b.subrange(4, 8);
    lemma_le_u32_of_bytes(low);
    lemma_le_u32_of_bytes(high);
    let x = le_u64(b);
    lemma_fundamental_div_mod_converse(x, 0x1_0000_0000, le_u32(high), le_u32(low));
    assert(le_bytes_u64(x as u64) =~= low + high);
    assert(low + high =~= b);
}

/// Encoding a 64-bit number and reading the bytes back gives the number.
pub proof fn lemma_le_u64_round_trip(x: u64)
    ensures
        le_bytes_u64(x).len() == 8,
        le_u64(le_bytes_u64(x)) == x,
{
    let low = (x % 0x1_0000_0000) as u32;
    let high = (x / 0x1_0000_0000) as u32;
    lemma_le_u32_round_trip(low);
    lemma_le_u32_round_trip(high);
    lemma_fundamental_div_mod(x as int, 0x1_0000_0000);
    assert(le_bytes_u64(x).subrange(0, 4) =~= le_bytes_u32(low));
    assert(le_bytes_u64(x).subrange(4, 8) =~= le_bytes_u32(high));
}

/// The fields of an encoded header are the header's.
pub proof fn lemma_fields_of_encoding(h: LimeHeader)
    ensures
        h.bytes().len() == HEADER_SIZE,
        magic_of(h.bytes()) == LIME_MAGIC,
        version_of(h.bytes()) == h.version,
        s_addr_of(h.bytes()) == h.s_addr,
        e_addr_of(h.bytes()) == h.e_addr,
        reserved_of(h.bytes()) == h.reserved@,
{
    let b = h.bytes();
    lemma_le_u32_round_trip(LIME_MAGIC);
    lemma_le_u32_round_trip(h.version);
    lemma_le_u64_round_trip(h.s_addr);
    lemma_le_u64_round_trip(h.e_addr);
    assert(b.subrange(0, 4) =~= le_bytes_u32(LIME_MAGIC));
    assert(b.subrange(4, 8) =~= le_bytes_u32(h.version));
    assert(b.subrange(8, 16) =~= le_bytes_u64(h.s_addr));
    assert(b.subrange(16, 24) =~= le_bytes_u64(h.e_addr));
    assert(b.subrange(24, 32) =~= h.reserved@);
}

/// Round trip: encoding a well-formed header and decoding the bytes gives the header back.
pub proof fn lemma_decode_encode(h: LimeHeader)
    requires
        h.well_formed(),
    ensures
        h.bytes().len() == HEADER_SIZE,
        decode_spec(h.bytes()) == Ok::<LimeHeader, DecodeError>(h),
{
    lemma_fields_of_encoding(h);
    let d = decode_spec(h.bytes())->Ok_0;
    assert(d.reserved@ == zero_reserved());
    assert(d.reserved =~= h.reserved);
}

/// Round trip, the other way: a block that decodes is the encoding of the header it decodes to.
pub proof fn lemma_encode_decode(b: Seq<u8>)
    requires
        b.len() == HEADER_SIZE,
        decode_spec(b) is Ok,
    ensures
        decode_spec(b)->Ok_0.bytes() == b,
{
    let h = decode_spec(b)->Ok_0;
    lemma_le_u32_of_bytes(b.subrange(0, 4));
    lemma_le_u32_of_bytes(b.subrange(4, 8));
    lemma_le_u64_of_bytes(b.subrange(8, 16));
    lemma_le_u64_of_bytes(b.subrange(16, 24));
    assert(h.reserved@ == zero_reserved());
    assert(h.bytes() =~= b);
}

/// Validation is complete: each error comes on exactly the blocks that pass the earlier checks
/// and fail its own, and a block decodes exactly when it passes all four.
pub proof fn lemma_decode_cases(b: Seq<u8>)
    requires
        b.len() == HEADER_SIZE,
    ensures
        decode_spec(b) == Err::<LimeHeader, DecodeError>(DecodeError::BadMagic) <==> magic_of(b)
            != LIME_MAGIC,
        forall|v: u32|
            decode_spec(b) == Err::<LimeHeader, DecodeError>(DecodeError::UnsupportedVersion(v))
                <==> magic_of(b) == LIME_MAGIC && version_of(b) == v && v != LIME_VERSION,
        decode_spec(b) == Err::<LimeHeader, DecodeError>(DecodeError::BadRange) <==> magic_of(b)
            == LIME_MAGIC && version_of(b) == LIME_VERSION && e_addr_of(b) < s_addr_of(b),
        decode_spec(b) == Err::<LimeHeader, DecodeError>(DecodeError::BadReserved) <==> magic_of(b)
            == LIME_MAGIC && version_of(b) == LIME_VERSION && s_addr_of(b) <= e_addr_of(b)
            && reserved_of(b) != zero_reserved(),
        decode_spec(b) is Ok <==> magic_of(b) == LIME_MAGIC && version_of(b) == LIME_VERSION
            && s_addr_of(b) <= e_addr_of(b) && reserved_of(b) == zero_reserved(),
        decode_spec(b) matches Ok(h) ==> h.version == version_of(b) && h.s_addr == s_addr_of(b)
            && h.e_addr == e_addr_of(b) && h.reserved@ == reserved_of(b),
{
    lemma_le_u32_of_bytes(b.subrange(4, 8));
    lemma_le_u64_of_bytes(b.subrange(8, 16));
    lemma_le_u64_of_bytes(b.subrange(16, 24));
}

/// Changing one validated field of a block that decodes, and nothing before it, draws the error
/// of that field.
pub proof fn lemma_mutated_field_is_rejected(good: Seq<u8>, bad: Seq<u8>)
    requires
        good.len() == HEADER_SIZE,
        bad.len() == HEADER_SIZE,
        decode_spec(good) is Ok,
    ensures
        bad.subrange(0, 4) != good.subrange(0, 4) ==> decode_spec(bad) == Err::<
            LimeHeader,
            DecodeError,
        >(DecodeError::BadMagic),
        bad.subrange(0, 4) == good.subrange(0, 4) && bad.subrange(4, 8) != good.subrange(4, 8)
            ==> decode_spec(bad) == Err::<LimeHeader, DecodeError>(
            DecodeError::UnsupportedVersion(version_of(bad) as u32),
        ) && version_of(bad) != LIME_VERSION,
        bad.subrange(0, 8) == good.subrange(0, 8) && e_addr_of(bad) < s_addr_of(bad)
            ==> decode_spec(bad) == Err::<LimeHeader, DecodeError>(DecodeError::BadRange),
        bad.subrange(0, 24) == good.subrange(0, 24) && bad.subrange(24, 32) != good.subrange(
            24,
            32,
        ) ==> decode_spec(bad) == Err::<LimeHeader, DecodeError>(DecodeError::BadReserved),
{
    lemma_le_u32_of_bytes(good.subrange(0, 4));
    lemma_le_u32_of_bytes(good.subrange(4, 8));
    lemma_le_u32_of_bytes(bad.subrange(0, 4));
    lemma_le_u32_of_bytes(bad.subrange(4, 8));
    if bad.subrange(0, 8) == good.subrange(0, 8) {
        assert(bad.subrange(0, 4) == bad.subrange(0, 8).subrange(0, 4));
        assert(good.subrange(0, 4) == good.subrange(0, 8).subrange(0, 4));
        assert(bad.subrange(4, 8) == bad.subrange(0, 8).subrange(4, 8));
        assert(good.subrange(4, 8) == good.subrange(0, 8).subrange(4, 8));
    }
    if bad.subrange(0, 24) == good.subrange(0, 24) {
        assert(bad.subrange(0, 4) == bad.subrange(0, 24).subrange(0, 4));
        assert(good.subrange(0, 4) == good.subrange(0, 24).subrange(0, 4));
        assert(bad.subrange(4, 8) == bad.subrange(0, 24).subrange(4, 8));
        assert(good.subrange(4, 8) == good.subrange(0, 24).subrange(4, 8));
        assert(bad.subrange(8, 16) == bad.subrange(0, 24).subrange(8, 16));
        assert(good.subrange(8, 16) == good.subrange(0, 24).subrange(8, 16));
        assert(bad.subrange(16, 24) == bad.subrange(0, 24).subrange(16, 24));
        assert(good.subrange(16, 24) == good.subrange(0, 24).subrange(16, 24));
    }
}


} // verus!
