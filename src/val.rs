//! Value nodes in the store, and the linked lists they form.
//!
//! A node is an eight-byte big-endian pointer to the next node (0 ends the
//! list), an eight-byte big-endian payload length, and the payload itself.
//! Pointers are byte offsets into the whole buffer.
use vstd::prelude::*;

use crate::bytes::{
    be_bytes, lemma_be_round_trip, lemma_splice_range, splice, u64_at, write_range, write_u64,
};
use crate::OutaBounds;

verus! {

pub const NEXT_POINTER_OFFSET: u64 = 0;

pub const PAYLOAD_LEN_OFFSET: u64 = 8;

pub const PAYLOAD_START: u64 = 16;

/// The bytes of a node that points to `next` and carries `payload`.
pub open spec fn node_bytes(next: u64, payload: Seq<u8>) -> Seq<u8> {
    be_bytes(next) + be_bytes(payload.len() as u64) + payload
}

/// The next pointer of the node at `p`.
pub open spec fn next_of(d: Seq<u8>, p: int) -> u64 {
    u64_at(d, p + NEXT_POINTER_OFFSET)
}

/// The payload length recorded in the node at `p`.
pub open spec fn payload_len_of(d: Seq<u8>, p: int) -> u64 {
    u64_at(d, p + PAYLOAD_LEN_OFFSET)
}

/// The node at `p`, payload included, lies inside `d`.
pub open spec fn node_fits(d: Seq<u8>, p: int) -> bool {
    p + PAYLOAD_START <= d.len() && p + PAYLOAD_START + payload_len_of(d, p) <= d.len()
}

/// The payload of the node at `p`.
pub open spec fn payload_of(d: Seq<u8>, p: int) -> Seq<u8> {
    d.subrange(p + PAYLOAD_START, p + PAYLOAD_START + payload_len_of(d, p))
}

/// Following the list in `d` from `p` yields exactly the payloads `vals`, in
/// order, and then reaches the end marker.
pub open spec fn walks(d: Seq<u8>, p: u64, vals: Seq<Seq<u8>>) -> bool
    decreases vals.len(),
{
    if vals.len() == 0 {
        p == 0
    } else {
        &&& p != 0
        &&& node_fits(d, p as int)
        &&& payload_of(d, p as int) == vals[0]
        &&& walks(d, next_of(d, p as int), vals.drop_first())
    }
}

/// Like `walks`, with every node of the list lying inside `[lo, hi)`.
pub open spec fn chain_in(d: Seq<u8>, p: u64, vals: Seq<Seq<u8>>, lo: int, hi: int) -> bool
    decreases vals.len(),
{
    if vals.len() == 0 {
        p == 0
    } else {
        &&& lo <= p
        &&& p + PAYLOAD_START + vals[0].len() <= hi
        &&& payload_len_of(d, p as int) == vals[0].len()
        &&& payload_of(d, p as int) == vals[0]
        &&& chain_in(d, next_of(d, p as int), vals.drop_first(), lo, hi)
    }
}

/// A list inside the buffer is one that a walk follows.
pub proof fn lemma_chain_walks(d: Seq<u8>, p: u64, vals: Seq<Seq<u8>>, lo: int, hi: int)
    requires
        chain_in(d, p, vals, lo, hi),
        0 < lo,
        hi <= d.len(),
    ensures
        walks(d, p, vals),
    decreases vals.len(),
{
    if vals.len() > 0 {
        lemma_chain_walks(d, next_of(d, p as int), vals.drop_first(), lo, hi);
    }
}

/// A list determines what it yields.
pub proof fn lemma_walks_unique(d: Seq<u8>, p: u64, a: Seq<Seq<u8>>, b: Seq<Seq<u8>>)
    requires
        walks(d, p, a),
        walks(d, p, b),
    ensures
        a == b,
    decreases a.len(),
{
    if a.len() > 0 {
        lemma_walks_unique(d, next_of(d, p as int), a.drop_first(), b.drop_first());
        assert(a =~= seq![a[0]] + a.drop_first());
        assert(b =~= seq![b[0]] + b.drop_first());
    } else if b.len() > 0 {
    }
}

/// A list stays as it is when the bytes that hold it do, and when its bound
/// is raised.
pub proof fn lemma_chain_frame(
    d1: Seq<u8>,
    d2: Seq<u8>,
    p: u64,
    vals: Seq<Seq<u8>>,
    lo: int,
    hi: int,
    hi2: int,
)
    requires
        chain_in(d1, p, vals, lo, hi),
        0 <= lo <= hi <= hi2,
        hi <= d1.len(),
        hi <= d2.len(),
        d1.subrange(lo, hi) == d2.subrange(lo, hi),
    ensures
        chain_in(d2, p, vals, lo, hi2),
    decreases vals.len(),
{
    if vals.len() > 0 {
        let q = p as int;
        let s1 = d1.subrange(lo, hi);
        let s2 = d2.subrange(lo, hi);
        assert(d1.subrange(q, q + 8) =~= s1.subrange(q - lo, q - lo + 8));
        assert(d2.subrange(q, q + 8) =~= s2.subrange(q - lo, q - lo + 8));
        assert(d1.subrange(q + 8, q + 16) =~= s1.subrange(q - lo + 8, q - lo + 16));
        assert(d2.subrange(q + 8, q + 16) =~= s2.subrange(q - lo + 8, q - lo + 16));
        let e = q + 16 + vals[0].len();
        assert(d1.subrange(q + 16, e) =~= s1.subrange(q - lo + 16, e - lo));
        assert(d2.subrange(q + 16, e) =~= s2.subrange(q - lo + 16, e - lo));
        lemma_chain_frame(d1, d2, next_of(d1, q), vals.drop_first(), lo, hi, hi2);
    }
}

/// What `splice` puts in place of a node reads back as that node.
pub proof fn lemma_node_read_back(d: Seq<u8>, p: int, next: u64, payload: Seq<u8>)
    requires
        0 <= p,
        p + 16 + payload.len() <= d.len(),
        payload.len() <= u64::MAX,
    ensures
        next_of(splice(d, p, node_bytes(next, payload)), p) == next,
        payload_len_of(splice(d, p, node_bytes(next, payload)), p) == payload.len(),
        payload_of(splice(d, p, node_bytes(next, payload)), p) == payload,
        node_fits(splice(d, p, node_bytes(next, payload)), p),
{
    let b = node_bytes(next, payload);
    lemma_be_round_trip(next);
    lemma_be_round_trip(payload.len() as u64);
    lemma_splice_range(d, p, b, p, p + 8);
    lemma_splice_range(d, p, b, p + 8, p + 16);
    lemma_splice_range(d, p, b, p + 16, p + 16 + payload.len());
    assert(b.subrange(0, 8) =~= be_bytes(next));
    assert(b.subrange(8, 16) =~= be_bytes(payload.len() as u64));
    assert(b.subrange(16, 16 + payload.len() as int) =~= payload);
}

/// Writes a node that points to `next` and carries `payload` at `start`.
/// Nothing is written unless the whole node fits.
pub fn write(data: &mut [u8], start: u64, next: u64, payload: &[u8]) -> (r: Result<
    (),
    OutaBounds,
>)
    ensures
        r is Ok <==> start + PAYLOAD_START + payload@.len() <= old(data)@.len(),
        r is Ok ==> final(data)@ == splice(old(data)@, start as int, node_bytes(next, payload@)),
        r is Err ==> final(data)@ == old(data)@,
{
    let n = data.len() as u64;
    let m = payload.len() as u64;
    if start > n || n - start < PAYLOAD_START || m > n - start - PAYLOAD_START {
        return Err(OutaBounds);
    }
    let ghost d0 = data@;
    let _ = write_u64(data, start + NEXT_POINTER_OFFSET, next);
    let _ = write_u64(data, start + PAYLOAD_LEN_OFFSET, m);
    let _ = write_range(data, start + PAYLOAD_START, payload);
    assert(data@ =~= splice(d0, start as int, node_bytes(next, payload@)));
    Ok(())
}

} // verus!
