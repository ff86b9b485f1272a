//! A memory-mappable multimap laid out in a single byte buffer: a header, a
//! table of bucket heads and a bump-allocated store of linked value nodes.
use vstd::prelude::*;

pub mod bytes;
pub mod stor;
pub mod val;
pub mod layout;
pub mod engine;
pub mod laws;

pub use engine::{Quack, Sequence};

use crate::stor::store_start_of;

verus! {

/// The one error of the library: an offset, a length or a sum of them leaves
/// the buffer or the range of `u64`, or the bucket count is zero.
#[derive(Debug, Clone, Copy, PartialEq, Eq, Structural)]
pub struct OutaBounds;

/// The store bytes that values of the given sizes take, sixteen bytes of
/// pointer and length for each besides its payload.
pub open spec fn values_bytes(sizes: Seq<u64>) -> int
    decreases sizes.len(),
{
    if sizes.len() == 0 {
        0
    } else {
        values_bytes(sizes.drop_last()) + 16 + sizes.last()
    }
}

/// The buffer size that `slot_count` buckets and values of the given sizes
/// need.
pub open spec fn required_size(slot_count: u64, sizes: Seq<u64>) -> int {
    store_start_of(slot_count as int) + values_bytes(sizes)
}

/// The first `j` values take no more bytes than all of them.
pub proof fn lemma_values_bytes_prefix(sizes: Seq<u64>, j: int)
    requires
        0 <= j <= sizes.len(),
    ensures
        values_bytes(sizes.take(j)) <= values_bytes(sizes),
        0 <= values_bytes(sizes.take(j)),
    decreases sizes.len(),
{
    if j == sizes.len() {
        assert(sizes.take(j) =~= sizes);
        if sizes.len() > 0 {
            lemma_values_bytes_prefix(sizes.drop_last(), j - 1);
        }
    } else {
        assert(sizes.take(j) =~= sizes.drop_last().take(j));
        lemma_values_bytes_prefix(sizes.drop_last(), j);
    }
}

/// The buffer size that `slot_count` buckets and values of the given sizes
/// need; an error when it passes `u64::MAX`.
pub fn calculate_store_size(slot_count: u64, value_sizes: &[u64]) -> (r: Result<u64, OutaBounds>)
    ensures
        r is Ok <==> required_size(slot_count, value_sizes@) <= u64::MAX,
        r is Ok ==> r->Ok_0 == required_size(slot_count, value_sizes@),
{
    proof {
        lemma_values_bytes_prefix(value_sizes@, value_sizes@.len() as int);
    }
    let mut acc = match stor::store_start(slot_count) {
        Ok(s) => s,
        Err(e) => {
            return Err(e);
        },
    };
    let mut j: usize = 0;
    while j < value_sizes.len()
        invariant
            j <= value_sizes@.len(),
            acc == store_start_of(slot_count as int) + values_bytes(value_sizes@.take(j as int)),
        decreases value_sizes@.len() - j,
    {
        proof {
            assert(value_sizes@.take(j + 1).drop_last() =~= value_sizes@.take(j as int));
            lemma_values_bytes_prefix(value_sizes@, j + 1);
        }
        let size = value_sizes[j];
        acc = match acc.checked_add(val::PAYLOAD_START) {
            Some(a) => match a.checked_add(size) {
                Some(b) => b,
                None => {
                    return Err(OutaBounds);
                },
            },
            None => {
                return Err(OutaBounds);
            },
        };
        j = j + 1;
    }
    assert(value_sizes@.take(j as int) =~= value_sizes@);
    Ok(acc)
}

} // verus!
