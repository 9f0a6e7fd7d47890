//! Handing a translation table to memflow.
//!
//! memflow keeps the ranges of a physical address space in a `MemoryMap`. Its map expects the
//! ranges in ascending order and without overlap, which a dump need not provide, so a table is
//! converted only where it is in that shape.

use crate::table::{lemma_payload_within_records, TranslationEntry, TranslationTable};
use vstd::prelude::*;

verus! {

/// memflow's map from address ranges to where they are found.
#[verifier::external_type_specification]
#[verifier::external_body]
#[verifier::reject_recursive_types(M)]
pub struct ExMemoryMap<M>(memflow::mem::MemoryMap<M>);

/// memflow's address: a number.
#[verifier::external_type_specification]
#[verifier::external_body]
pub struct ExAddress(memflow::types::Address);

/// The mappings that a memory map holds, in the order in which it keeps them: of each its base
/// address, its size, and the base that it is remapped to.
pub uninterp spec fn mappings_of(map: memflow::mem::MemoryMap<(memflow::types::Address, u64)>) -> Seq<
    (u64, u64, u64),
>;

/// `MemoryMap::new`: a map without mappings.
#[verifier::external_body]
fn new_memory_map() -> (map: memflow::mem::MemoryMap<(memflow::types::Address, u64)>)
    ensures
        mappings_of(map) == Seq::<(u64, u64, u64)>::empty(),
{
    memflow::mem::MemoryMap::new()
}

/// `MemoryMap::push_remap`, for a range that ends within the address space and begins where
/// every mapping already in the map has ended: the map then keeps the new mapping behind the
/// others. (On other ranges memflow may panic, or insert elsewhere.)
#[verifier::external_body]
fn push_remap(
    map: &mut memflow::mem::MemoryMap<(memflow::types::Address, u64)>,
    base: u64,
    size: u64,
    real_base: u64,
)
    requires
        base + size <= u64::MAX,
        forall|i: int|
            0 <= i < mappings_of(*old(map)).len() ==> (#[trigger] mappings_of(*old(map))[i]).0
                + mappings_of(*old(map))[i].1 <= base,
    ensures
        mappings_of(*final(map)) == mappings_of(*old(map)).push((base, size, real_base)),
{
    map.push_remap(base.into(), size, real_base.into());
}

/// Every range ends at or before the start of the ranges after it, and below the top of the
/// address space.
pub open spec fn ascending(entries: Seq<TranslationEntry>) -> bool {
    &&& forall|i: int| 0 <= i < entries.len() ==> (#[trigger] entries[i]).phys_end() <= u64::MAX
    &&& forall|i: int, j: int|
        0 <= i < j < entries.len() ==> (#[trigger] entries[i]).phys_end() <= (
        #[trigger] entries[j]).phys_start
}

/// The mapping that stands for an entry: its start, its length, its file offset.
pub open spec fn mapping_of(entry: TranslationEntry) -> (u64, u64, u64) {
    (entry.phys_start, entry.length, entry.file_offset)
}

/// Builds the memflow map that holds the entries of `table`, in their order; `None` where the
/// ranges are not ascending.
pub fn to_memory_map(table: &TranslationTable) -> (r: Option<
    memflow::mem::MemoryMap<(memflow::types::Address, u64)>,
>)
    ensures
        r is Some <==> ascending(table@),
        r matches Some(map) ==> mappings_of(map) == table@.map_values(
            |e: TranslationEntry| mapping_of(e),
        ),
{
    let entries = table.entries();
    let mut map = new_memory_map();
    let mut reached: u64 = 0;
    let mut k: usize = 0;
    while k < entries.len()
        invariant
            entries@ == table@,
            crate::table::well_formed(entries@),
            k <= entries@.len(),
            ascending(entries@.take(k as int)),
            forall|i: int| 0 <= i < k ==> (#[trigger] entries@[i]).phys_end() <= reached,
            k == 0 ==> reached == 0,
            k > 0 ==> reached == entries@[k - 1].phys_end(),
            mappings_of(map) == entries@.take(k as int).map_values(
                |e: TranslationEntry| mapping_of(e),
            ),
        decreases entries@.len() - k,
    {
        let entry = entries[k];
        proof {
            lemma_payload_within_records(entries@, k as int);
        }
        if entry.phys_start < reached || entry.length > u64::MAX - entry.phys_start {
            proof {
                if entry.phys_start < reached && ascending(entries@) {
                    assert(entries@[k - 1].phys_end() <= entries@[k as int].phys_start);
                }
            }
            return None;
        }
        push_remap(&mut map, entry.phys_start, entry.length, entry.file_offset);
        proof {
            let before = entries@.take(k as int);
            let after = entries@.take(k + 1);
            assert(after == before.push(entry));
            assert(after.map_values(|e: TranslationEntry| mapping_of(e)) == before.map_values(
                |e: TranslationEntry| mapping_of(e),
            ).push(mapping_of(entry)));
        }
        reached = entry.phys_start + entry.length;
        k += 1;
    }
    proof {
        assert(entries@.take(k as int) == entries@);
    }
    Some(map)
}

} // verus!
