//! The header and the slot table at the front of the buffer.
//!
//! Bytes `[0, 8)` hold the bucket count, `[8, 16)` the number of store bytes
//! in use, and then come the slots, eight bytes each, one per bucket. The store
//! of value nodes starts right after the last slot.
use vstd::prelude::*;

use crate::bytes::{be_bytes, read_u64, splice, u64_at, write_u64};
use crate::OutaBounds;

verus! {

pub const NUM_SLOTS_OFFSET: u64 = 0;

pub const STORE_LEN_OFFSET: u64 = 8;

pub const SLOTS_START: u64 = 16;

/// The bucket count held in the header.
pub open spec fn num_slots_of(d: Seq<u8>) -> u64 {
    u64_at(d, NUM_SLOTS_OFFSET as int)
}

/// The number of store bytes in use, held in the header.
pub open spec fn store_len_of(d: Seq<u8>) -> u64 {
    u64_at(d, STORE_LEN_OFFSET as int)
}

/// The byte offset of slot `i`.
pub open spec fn slot_pos(i: int) -> int {
    SLOTS_START + 8 * i
}

/// The head pointer held in slot `i`.
pub open spec fn slot_of(d: Seq<u8>, i: int) -> u64 {
    u64_at(d, slot_pos(i))
}

/// The byte offset at which the store begins, for `n` buckets.
pub open spec fn store_start_of(n: int) -> int {
    SLOTS_START + 8 * n
}

/// Reads the bucket count from the header.
pub fn read_num_slots(data: &[u8]) -> (r: Result<u64, OutaBounds>)
    ensures
        r is Ok <==> data@.len() >= 8,
        r is Ok ==> r->Ok_0 == num_slots_of(data@),
{
    read_u64(data, NUM_SLOTS_OFFSET)
}

/// Reads the number of store bytes in use from the header.
pub fn read_store_len(data: &[u8]) -> (r: Result<u64, OutaBounds>)
    ensures
        r is Ok <==> data@.len() >= 16,
        r is Ok ==> r->Ok_0 == store_len_of(data@),
{
    read_u64(data, STORE_LEN_OFFSET)
}

/// Writes the number of store bytes in use into the header.
pub fn write_store_len(data: &mut [u8], store_len: u64) -> (r: Result<(), OutaBounds>)
    ensures
        r is Ok <==> old(data)@.len() >= 16,
        r is Ok ==> final(data)@ == splice(
            old(data)@,
            STORE_LEN_OFFSET as int,
            be_bytes(store_len),
        ),
        r is Err ==> final(data)@ == old(data)@,
{
    write_u64(data, STORE_LEN_OFFSET, store_len)
}

/// Writes the bucket count into the header.
pub fn write_num_slots(data: &mut [u8], num_slots: u64) -> (r: Result<(), OutaBounds>)
    ensures
        r is Ok <==> old(data)@.len() >= 8,
        r is Ok ==> final(data)@ == splice(
            old(data)@,
            NUM_SLOTS_OFFSET as int,
            be_bytes(num_slots),
        ),
        r is Err ==> final(data)@ == old(data)@,
{
    write_u64(data, NUM_SLOTS_OFFSET, num_slots)
}

/// The byte offset of slot `slot_index`, unless it passes `u64::MAX`.
fn slot_offset(slot_index: u64) -> (r: Option<u64>)
    ensures
        r is Some <==> slot_pos(slot_index as int) <= u64::MAX,
        r is Some ==> r->0 == slot_pos(slot_index as int),
{
    match slot_index.checked_mul(8) {
        Some(b) => b.checked_add(SLOTS_START),
        None => None,
    }
}

/// Reads the head pointer of bucket `slot_index`.
pub fn read_slot(data: &[u8], slot_index: u64) -> (r: Result<u64, OutaBounds>)
    ensures
        r is Ok <==> slot_pos(slot_index as int) + 8 <= data@.len(),
        r is Ok ==> r->Ok_0 == slot_of(data@, slot_index as int),
{
    match slot_offset(slot_index) {
        Some(off) => read_u64(data, off),
        None => {
            assert(data@.len() == data.len());
            Err(OutaBounds)
        },
    }
}

/// Writes the head pointer of bucket `slot_index`.
pub fn write_slot(data: &mut [u8], slot_index: u64, value: u64) -> (r: Result<(), OutaBounds>)
    ensures
        r is Ok <==> slot_pos(slot_index as int) + 8 <= old(data)@.len(),
        r is Ok ==> final(data)@ == splice(
            old(data)@,
            slot_pos(slot_index as int),
            be_bytes(value),
        ),
        r is Err ==> final(data)@ == old(data)@,
{
    match slot_offset(slot_index) {
        Some(off) => write_u64(data, off, value),
        None => {
            assert(data@.len() == data.len());
            Err(OutaBounds)
        },
    }
}

/// The byte offset at which the store begins, for `num_slots` buckets.
pub fn store_start(num_slots: u64) -> (r: Result<u64, OutaBounds>)
    ensures
        r is Ok <==> store_start_of(num_slots as int) <= u64::MAX,
        r is Ok ==> r->Ok_0 == store_start_of(num_slots as int),
{
    match slot_offset(num_slots) {
        Some(s) => Ok(s),
        None => Err(OutaBounds),
    }
}

} // verus!
