//! What holds of a multimap across calls.
use vstd::prelude::*;

use crate::layout::{empty_buckets, reversed, step};
use crate::stor::store_start_of;
use crate::val::PAYLOAD_START;
use crate::{lemma_values_bytes_prefix, required_size, values_bytes};

verus! {

/// The buckets after writing each `(key, value)` of `ws` in turn.
pub open spec fn apply_writes(bs: Seq<Seq<Seq<u8>>>, ws: Seq<(u64, Seq<u8>)>) -> Seq<
    Seq<Seq<u8>>,
>
    decreases ws.len(),
{
    if ws.len() == 0 {
        bs
    } else {
        step(apply_writes(bs, ws.drop_last()), ws.last().0, ws.last().1)
    }
}

/// The values of `ws` whose key falls in the same one of `n` buckets as `k`,
/// in the order they were written.
pub open spec fn values_under(ws: Seq<(u64, Seq<u8>)>, k: u64, n: int) -> Seq<Seq<u8>>
    decreases ws.len(),
{
    if ws.len() == 0 {
        seq![]
    } else {
        let earlier = values_under(ws.drop_last(), k, n);
        if ws.last().0 as int % n == k as int % n {
            earlier.push(ws.last().1)
        } else {
            earlier
        }
    }
}

/// After any writes to a fresh multimap with `n` buckets, the bucket of key
/// `k` holds exactly the values written under keys in that bucket, newest
/// first.
pub proof fn lemma_round_trip(n: int, ws: Seq<(u64, Seq<u8>)>, k: u64)
    requires
        n > 0,
    ensures
        apply_writes(empty_buckets(n), ws).len() == n,
        apply_writes(empty_buckets(n), ws)[k as int % n] == values_under(ws, k, n).reverse(),
    decreases ws.len(),
{
    if ws.len() > 0 {
        let prev = ws.drop_last();
        lemma_round_trip(n, prev, k);
        let (k2, v) = ws.last();
        let earlier = values_under(prev, k, n);
        if k2 as int % n == k as int % n {
            assert(earlier.push(v).reverse() =~= seq![v] + earlier.reverse());
        }
    }
}

/// A bucket that no write reached holds nothing.
pub proof fn lemma_empty_on_miss(n: int, ws: Seq<(u64, Seq<u8>)>, k: u64)
    requires
        n > 0,
        forall|i: int| 0 <= i < ws.len() ==> #[trigger] ws[i].0 as int % n != k as int % n,
    ensures
        apply_writes(empty_buckets(n), ws)[k as int % n].len() == 0,
{
    lemma_round_trip(n, ws, k);
    lemma_values_under_miss(n, ws, k);
}

proof fn lemma_values_under_miss(n: int, ws: Seq<(u64, Seq<u8>)>, k: u64)
    requires
        n > 0,
        forall|i: int| 0 <= i < ws.len() ==> #[trigger] ws[i].0 as int % n != k as int % n,
    ensures
        values_under(ws, k, n).len() == 0,
    decreases ws.len(),
{
    if ws.len() > 0 {
        let prev = ws.drop_last();
        assert forall|i: int| 0 <= i < prev.len() implies #[trigger] prev[i].0 as int % n != k as int % n by {
            assert(prev[i] == ws[i]);
        }
        lemma_values_under_miss(n, prev, k);
        assert(ws.last() == ws[ws.len() - 1]);
    }
}

/// Reversing every bucket, as `optimize` does, keeps the values of each
/// bucket and only changes their order.
pub proof fn lemma_reversed_keeps_values(bs: Seq<Seq<Seq<u8>>>, i: int)
    requires
        0 <= i < bs.len(),
    ensures
        reversed(bs).len() == bs.len(),
        reversed(bs)[i].to_multiset() == bs[i].to_multiset(),
        reversed(bs)[i].len() == bs[i].len(),
        forall|j: int| 0 <= j < bs[i].len() ==> #[trigger] reversed(bs)[i][j] == bs[i][bs[i].len() - 1 - j],
{
    bs[i].lemma_reverse_to_multiset();
}

/// A buffer at least as long as `calculate_store_size` gives for `n`
/// buckets and values of the given sizes has room for those values written in
/// turn: once the first `j` are in the store, a node for the next one fits.
pub proof fn lemma_sized_buffer_has_room(n: u64, sizes: Seq<u64>, len: int, j: int)
    requires
        required_size(n, sizes) <= len,
        0 <= j < sizes.len(),
    ensures
        store_start_of(n as int) + values_bytes(sizes.take(j)) + PAYLOAD_START + sizes[j] <= len,
{
    lemma_values_bytes_prefix(sizes, j + 1);
    assert(sizes.take(j + 1).drop_last() =~= sizes.take(j));
}

} // verus!
