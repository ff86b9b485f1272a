//! The meaning of a whole buffer: which lists of payloads its buckets hold,
//! and how a write changes its bytes.
use vstd::prelude::*;

use crate::bytes::{be_bytes, be_u64, lemma_be_round_trip, lemma_splice_range, splice};
use crate::stor::{num_slots_of, slot_of, slot_pos, store_len_of, store_start_of, STORE_LEN_OFFSET};
use crate::val::{
    chain_in, lemma_chain_frame, lemma_chain_walks, lemma_node_read_back, lemma_walks_unique,
    node_bytes, walks, PAYLOAD_START,
};

verus! {

/// The store bytes that the nodes of one bucket take.
pub open spec fn bucket_bytes(vals: Seq<Seq<u8>>) -> nat
    decreases vals.len(),
{
    if vals.len() == 0 {
        0
    } else {
        (PAYLOAD_START + vals[0].len() + bucket_bytes(vals.drop_first())) as nat
    }
}

/// The store bytes that the nodes of buckets `i..` take.
pub open spec fn total_from(bs: Seq<Seq<Seq<u8>>>, i: int) -> nat
    decreases bs.len() - i,
{
    if i < 0 || i >= bs.len() {
        0
    } else {
        bucket_bytes(bs[i]) + total_from(bs, i + 1)
    }
}

/// The store bytes that all nodes take.
pub open spec fn total(bs: Seq<Seq<Seq<u8>>>) -> nat {
    total_from(bs, 0)
}

/// `n` buckets, none holding anything.
pub open spec fn empty_buckets(n: int) -> Seq<Seq<Seq<u8>>> {
    Seq::new(n as nat, |i: int| Seq::<Seq<u8>>::empty())
}

/// The buckets after a write of `v` under `k`: `v` in front of the list of
/// bucket `k mod n`.
pub open spec fn step(bs: Seq<Seq<Seq<u8>>>, k: u64, v: Seq<u8>) -> Seq<Seq<Seq<u8>>> {
    let i = k as int % bs.len() as int;
    bs.update(i, seq![v] + bs[i])
}

/// Each bucket's list in the opposite order.
pub open spec fn reversed(bs: Seq<Seq<Seq<u8>>>) -> Seq<Seq<Seq<u8>>> {
    Seq::new(bs.len(), |i: int| bs[i].reverse())
}

/// Every byte is zero.
pub open spec fn zeroed(d: Seq<u8>) -> bool {
    forall|i: int| 0 <= i < d.len() ==> d[i] == 0
}

/// `d` is a well-formed buffer whose buckets hold `bs`: the header fits, the
/// bucket count is positive, the store lies inside the buffer and is used by
/// the nodes exactly, and each slot heads a list, inside the used store, that
/// yields that bucket's payloads, newest first.
pub open spec fn holds(d: Seq<u8>, bs: Seq<Seq<Seq<u8>>>) -> bool {
    let n = num_slots_of(d) as int;
    let start = store_start_of(n);
    let end = start + store_len_of(d);
    &&& d.len() >= 16
    &&& n > 0
    &&& bs.len() == n
    &&& end <= d.len()
    &&& store_len_of(d) == total(bs)
    &&& forall|i: int| 0 <= i < n ==> chain_in(d, #[trigger] slot_of(d, i), bs[i], start, end)
}

/// The buffer holds some buckets' lists, as `holds` says.
pub open spec fn well_formed(d: Seq<u8>) -> bool {
    exists|bs: Seq<Seq<Seq<u8>>>| holds(d, bs)
}

/// The payloads that the buckets of a well-formed buffer hold.
pub open spec fn model(d: Seq<u8>) -> Seq<Seq<Seq<u8>>> {
    choose|bs: Seq<Seq<Seq<u8>>>| holds(d, bs)
}

/// A write of `vlen` payload bytes fits: the header is there, there is a
/// bucket, and the store has room for the node.
pub open spec fn write_fits(d: Seq<u8>, vlen: int) -> bool {
    &&& d.len() >= 16
    &&& num_slots_of(d) != 0
    &&& store_start_of(num_slots_of(d) as int) + store_len_of(d) + PAYLOAD_START + vlen <= d.len()
}

/// The bucket that key `k` goes to.
pub open spec fn bucket_of(d: Seq<u8>, k: u64) -> int {
    (k % num_slots_of(d)) as int
}

/// The bytes after writing `v` under key `k`: a node at the end of the used
/// store that points to the bucket's old head, the bucket's slot pointing to
/// that node, and the used length grown by the node's size.
#[verifier::opaque]
pub open spec fn after_write(d: Seq<u8>, k: u64, v: Seq<u8>) -> Seq<u8> {
    let n = num_slots_of(d) as int;
    let s = store_len_of(d) as int;
    let i = bucket_of(d, k);
    let p = store_start_of(n) + s;
    let d1 = splice(d, p, node_bytes(slot_of(d, i), v));
    let d2 = splice(d1, slot_pos(i), be_bytes(p as u64));
    splice(d2, STORE_LEN_OFFSET as int, be_bytes((s + PAYLOAD_START + v.len()) as u64))
}

/// The three splices of a write, one by one.
pub proof fn lemma_after_write_steps(d: Seq<u8>, k: u64, v: Seq<u8>, head: u64, p: u64, len: u64)
    requires
        head == slot_of(d, bucket_of(d, k)),
        p == store_start_of(num_slots_of(d) as int) + store_len_of(d),
        len == store_len_of(d) + PAYLOAD_START + v.len(),
    ensures
        after_write(d, k, v) == splice(
            splice(splice(d, p as int, node_bytes(head, v)), slot_pos(bucket_of(d, k)), be_bytes(p)),
            STORE_LEN_OFFSET as int,
            be_bytes(len),
        ),
{
    reveal(after_write);
}

/// A buffer holds at most one set of lists.
pub proof fn lemma_holds_unique(d: Seq<u8>, a: Seq<Seq<Seq<u8>>>, b: Seq<Seq<Seq<u8>>>)
    requires
        holds(d, a),
        holds(d, b),
    ensures
        a == b,
{
    let n = num_slots_of(d) as int;
    let start = store_start_of(n);
    let end = start + store_len_of(d);
    assert forall|i: int| 0 <= i < a.len() implies a[i] == b[i] by {
        assert(chain_in(d, slot_of(d, i), a[i], start, end));
        assert(chain_in(d, slot_of(d, i), b[i], start, end));
        lemma_chain_walks(d, slot_of(d, i), a[i], start, end);
        lemma_chain_walks(d, slot_of(d, i), b[i], start, end);
        lemma_walks_unique(d, slot_of(d, i), a[i], b[i]);
    }
    assert(a =~= b);
}

/// A buffer that holds `bs` is well formed, and its model is `bs`.
pub proof fn lemma_model(d: Seq<u8>, bs: Seq<Seq<Seq<u8>>>)
    requires
        holds(d, bs),
    ensures
        well_formed(d),
        model(d) == bs,
{
    lemma_holds_unique(d, model(d), bs);
}

/// Each bucket of a well-formed buffer is a list that yields its payloads.
pub proof fn lemma_model_walks(d: Seq<u8>, i: int)
    requires
        well_formed(d),
        0 <= i < num_slots_of(d),
    ensures
        walks(d, slot_of(d, i), model(d)[i]),
        model(d).len() == num_slots_of(d),
        holds(d, model(d)),
{
    let bs = model(d);
    let n = num_slots_of(d) as int;
    assert(chain_in(d, slot_of(d, i), bs[i], store_start_of(n), store_start_of(n) + store_len_of(d)));
    lemma_chain_walks(d, slot_of(d, i), bs[i], store_start_of(n), store_start_of(n) + store_len_of(d));
}

/// Changing a bucket leaves the size of the buckets after it alone.
pub proof fn lemma_total_update_after(bs: Seq<Seq<Seq<u8>>>, i: int, x: Seq<Seq<u8>>, j: int)
    requires
        0 <= i < j,
        i < bs.len(),
    ensures
        total_from(bs.update(i, x), j) == total_from(bs, j),
    decreases bs.len() - j,
{
    if j < bs.len() {
        lemma_total_update_after(bs, i, x, j + 1);
    }
}

/// Changing a bucket changes the size of the buckets from `j` on by the
/// difference in that bucket's size.
pub proof fn lemma_total_update(bs: Seq<Seq<Seq<u8>>>, i: int, x: Seq<Seq<u8>>, j: int)
    requires
        0 <= j <= i < bs.len(),
    ensures
        total_from(bs.update(i, x), j) + bucket_bytes(bs[i]) == total_from(bs, j) + bucket_bytes(x),
    decreases i - j,
{
    if j < i {
        lemma_total_update(bs, i, x, j + 1);
    } else {
        lemma_total_update_after(bs, i, x, i + 1);
    }
}

/// Empty buckets take no store bytes.
pub proof fn lemma_total_empty(n: int, j: int)
    requires
        0 <= n,
    ensures
        total_from(empty_buckets(n), j) == 0,
    decreases n - j,
{
    if 0 <= j < n {
        lemma_total_empty(n, j + 1);
    }
}

/// What a write changes in the header and the slots.
pub proof fn lemma_after_write_header(d: Seq<u8>, k: u64, v: Seq<u8>)
    requires
        write_fits(d, v.len() as int),
        d.len() <= u64::MAX,
    ensures
        after_write(d, k, v).len() == d.len(),
        num_slots_of(after_write(d, k, v)) == num_slots_of(d),
        store_len_of(after_write(d, k, v)) == store_len_of(d) + PAYLOAD_START + v.len(),
        slot_of(after_write(d, k, v), bucket_of(d, k)) == store_start_of(num_slots_of(d) as int)
            + store_len_of(d),
        forall|j: int|
            0 <= j < num_slots_of(d) && j != bucket_of(d, k) ==> #[trigger] slot_of(
                after_write(d, k, v),
                j,
            ) == slot_of(d, j),
{
    reveal(after_write);
    let n = num_slots_of(d) as int;
    let s = store_len_of(d) as int;
    let i = bucket_of(d, k);
    let start = store_start_of(n);
    let p = start + s;
    let s2 = s + PAYLOAD_START + v.len();
    let nb = node_bytes(slot_of(d, i), v);
    let d1 = splice(d, p, nb);
    let d2 = splice(d1, slot_pos(i), be_bytes(p as u64));
    let d3 = splice(d2, 8, be_bytes(s2 as u64));
    lemma_be_round_trip(p as u64);
    lemma_be_round_trip(s2 as u64);
    lemma_splice_range(d, p, nb, 0, 8);
    lemma_splice_range(d1, slot_pos(i), be_bytes(p as u64), 0, 8);
    lemma_splice_range(d2, 8, be_bytes(s2 as u64), 0, 8);
    lemma_splice_range(d2, 8, be_bytes(s2 as u64), 8, 16);
    assert(be_bytes(s2 as u64).subrange(0, 8) =~= be_bytes(s2 as u64));
    lemma_splice_range(d1, slot_pos(i), be_bytes(p as u64), slot_pos(i), slot_pos(i) + 8);
    lemma_splice_range(d2, 8, be_bytes(s2 as u64), slot_pos(i), slot_pos(i) + 8);
    assert(be_bytes(p as u64).subrange(0, 8) =~= be_bytes(p as u64));
    assert forall|j: int| 0 <= j < n && j != i implies #[trigger] slot_of(d3, j) == slot_of(d, j) by {
        lemma_splice_range(d, p, nb, slot_pos(j), slot_pos(j) + 8);
        lemma_splice_range(d1, slot_pos(i), be_bytes(p as u64), slot_pos(j), slot_pos(j) + 8);
        lemma_splice_range(d2, 8, be_bytes(s2 as u64), slot_pos(j), slot_pos(j) + 8);
    }
}

/// A write leaves the used store as it was, and puts the new node after it.
pub proof fn lemma_after_write_store(d: Seq<u8>, k: u64, v: Seq<u8>)
    requires
        write_fits(d, v.len() as int),
        d.len() <= u64::MAX,
    ensures
        ({
            let start = store_start_of(num_slots_of(d) as int);
            let p = start + store_len_of(d);
            let d1 = splice(d, p, node_bytes(slot_of(d, bucket_of(d, k)), v));
            &&& after_write(d, k, v).subrange(start, p) == d.subrange(start, p)
            &&& after_write(d, k, v).subrange(start, p + PAYLOAD_START + v.len()) == d1.subrange(
                start,
                p + PAYLOAD_START + v.len(),
            )
            &&& d1.subrange(start, p) == d.subrange(start, p)
        }),
{
    reveal(after_write);
    let n = num_slots_of(d) as int;
    let s = store_len_of(d) as int;
    let i = bucket_of(d, k);
    let start = store_start_of(n);
    let p = start + s;
    let s2 = s + PAYLOAD_START + v.len();
    let end2 = p + PAYLOAD_START + v.len();
    let nb = node_bytes(slot_of(d, i), v);
    let d1 = splice(d, p, nb);
    let d2 = splice(d1, slot_pos(i), be_bytes(p as u64));
    lemma_splice_range(d, p, nb, start, p);
    lemma_splice_range(d1, slot_pos(i), be_bytes(p as u64), start, p);
    lemma_splice_range(d2, 8, be_bytes(s2 as u64), start, p);
    lemma_splice_range(d1, slot_pos(i), be_bytes(p as u64), start, end2);
    lemma_splice_range(d2, 8, be_bytes(s2 as u64), start, end2);
}

/// After a write, the written bucket is a list from the new node through the
/// bucket's old list.
pub proof fn lemma_after_write_bucket(d: Seq<u8>, bs: Seq<Seq<Seq<u8>>>, k: u64, v: Seq<u8>)
    requires
        holds(d, bs),
        write_fits(d, v.len() as int),
        d.len() <= u64::MAX,
    ensures
        chain_in(
            after_write(d, k, v),
            (store_start_of(num_slots_of(d) as int) + store_len_of(d)) as u64,
            seq![v] + bs[bucket_of(d, k)],
            store_start_of(num_slots_of(d) as int),
            store_start_of(num_slots_of(d) as int) + store_len_of(d) + PAYLOAD_START + v.len(),
        ),
{
    let n = num_slots_of(d) as int;
    let i = bucket_of(d, k);
    let start = store_start_of(n);
    let p = start + store_len_of(d);
    let end2 = p + PAYLOAD_START + v.len();
    let old_head = slot_of(d, i);
    let d1 = splice(d, p, node_bytes(old_head, v));
    lemma_after_write_store(d, k, v);
    lemma_after_write_header(d, k, v);
    lemma_node_read_back(d, p, old_head, v);
    assert(chain_in(d, old_head, bs[i], start, p));
    lemma_chain_frame(d, d1, old_head, bs[i], start, p, end2);
    let nv = seq![v] + bs[i];
    assert(nv[0] == v);
    assert(nv.drop_first() =~= bs[i]);
    assert(chain_in(d1, p as u64, nv, start, end2));
    lemma_chain_frame(d1, after_write(d, k, v), p as u64, nv, start, end2, end2);
}

/// After a write, a bucket other than the written one keeps its list.
pub proof fn lemma_after_write_other(d: Seq<u8>, bs: Seq<Seq<Seq<u8>>>, k: u64, v: Seq<u8>, j: int)
    requires
        holds(d, bs),
        write_fits(d, v.len() as int),
        d.len() <= u64::MAX,
        0 <= j < num_slots_of(d),
        j != bucket_of(d, k),
    ensures
        chain_in(
            after_write(d, k, v),
            slot_of(after_write(d, k, v), j),
            bs[j],
            store_start_of(num_slots_of(d) as int),
            store_start_of(num_slots_of(d) as int) + store_len_of(d) + PAYLOAD_START + v.len(),
        ),
{
    let start = store_start_of(num_slots_of(d) as int);
    let p = start + store_len_of(d);
    lemma_after_write_header(d, k, v);
    lemma_after_write_store(d, k, v);
    assert(chain_in(d, slot_of(d, j), bs[j], start, p));
    lemma_chain_frame(d, after_write(d, k, v), slot_of(d, j), bs[j], start, p, p + PAYLOAD_START + v.len());
}

/// A write to a buffer that holds `bs` gives one that holds `bs` with the new
/// payload in front of its bucket.
pub proof fn lemma_after_write_holds(d: Seq<u8>, bs: Seq<Seq<Seq<u8>>>, k: u64, v: Seq<u8>)
    requires
        holds(d, bs),
        write_fits(d, v.len() as int),
        d.len() <= u64::MAX,
    ensures
        holds(after_write(d, k, v), bs.update(bucket_of(d, k), seq![v] + bs[bucket_of(d, k)])),
{
    let n = num_slots_of(d) as int;
    let i = bucket_of(d, k);
    let start = store_start_of(n);
    let end2 = start + store_len_of(d) + PAYLOAD_START + v.len();
    let d3 = after_write(d, k, v);
    let nv = seq![v] + bs[i];
    let bs2 = bs.update(i, nv);
    lemma_after_write_header(d, k, v);
    lemma_after_write_bucket(d, bs, k, v);
    assert forall|j: int| 0 <= j < n implies chain_in(d3, #[trigger] slot_of(d3, j), bs2[j], start, end2) by {
        if j != i {
            lemma_after_write_other(d, bs, k, v, j);
        }
    }
    lemma_total_update(bs, i, nv, 0);
    assert(nv.drop_first() =~= bs[i]);
    assert(bucket_bytes(nv) == PAYLOAD_START + v.len() + bucket_bytes(bs[i]));
}

/// A write to a well-formed buffer keeps it well formed, with the new
/// payload in front of its bucket.
pub proof fn lemma_after_write_model(d: Seq<u8>, k: u64, v: Seq<u8>)
    requires
        well_formed(d),
        write_fits(d, v.len() as int),
        d.len() <= u64::MAX,
    ensures
        well_formed(after_write(d, k, v)),
        model(after_write(d, k, v)) == step(model(d), k, v),
{
    let bs = model(d);
    lemma_model_walks(d, 0);
    lemma_after_write_holds(d, bs, k, v);
    lemma_model(after_write(d, k, v), step(bs, k, v));
}

/// A zeroed buffer with its header written holds `n` empty buckets.
pub proof fn lemma_fresh_holds(d: Seq<u8>, n: u64)
    requires
        zeroed(d),
        n > 0,
        store_start_of(n as int) <= d.len(),
    ensures
        holds(splice(splice(d, 8, be_bytes(0)), 0, be_bytes(n)), empty_buckets(n as int)),
{
    let d1 = splice(d, 8, be_bytes(0));
    let d2 = splice(d1, 0, be_bytes(n));
    lemma_be_round_trip(0);
    lemma_be_round_trip(n);
    lemma_splice_range(d, 8, be_bytes(0), 8, 16);
    lemma_splice_range(d1, 0, be_bytes(n), 8, 16);
    lemma_splice_range(d1, 0, be_bytes(n), 0, 8);
    assert(be_bytes(0).subrange(0, 8) =~= be_bytes(0));
    assert(be_bytes(n).subrange(0, 8) =~= be_bytes(n));
    assert forall|j: int| 0 <= j < n implies #[trigger] slot_of(d2, j) == 0 by {
        lemma_splice_range(d, 8, be_bytes(0), slot_pos(j), slot_pos(j) + 8);
        lemma_splice_range(d1, 0, be_bytes(n), slot_pos(j), slot_pos(j) + 8);
        let z = d.subrange(slot_pos(j), slot_pos(j) + 8);
        assert(z =~= seq![0u8, 0u8, 0u8, 0u8, 0u8, 0u8, 0u8, 0u8]);
        assert(be_u64(z) == 0) by {
            assert(((0u8 as u64) << 56u64 | (0u8 as u64) << 48u64 | (0u8 as u64) << 40u64 | (0u8
                as u64) << 32u64 | (0u8 as u64) << 24u64 | (0u8 as u64) << 16u64 | (0u8 as u64)
                << 8u64 | (0u8 as u64)) == 0u64) by (bit_vector);
        }
    }
    lemma_total_empty(n as int, 0);
}

} // verus!
