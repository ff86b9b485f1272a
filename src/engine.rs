//! The multimap over one buffer, and the traversal of one bucket's list.
use vstd::prelude::*;

use crate::bytes::{
    be_bytes, get_range_dynamic, lemma_be_round_trip, lemma_splice_range, read_u64, splice,
};
use crate::layout::{
    after_write, bucket_bytes, bucket_of, empty_buckets, holds, lemma_after_write_header,
    lemma_after_write_model, lemma_after_write_steps, lemma_fresh_holds, lemma_model,
    lemma_model_walks, model, reversed, step, total_from, well_formed, write_fits, zeroed,
};
use crate::stor::{
    self, num_slots_of, slot_of, slot_pos, store_len_of, store_start_of, NUM_SLOTS_OFFSET,
    STORE_LEN_OFFSET,
};
use crate::val::{
    self, next_of, node_fits, payload_of, walks, NEXT_POINTER_OFFSET, PAYLOAD_LEN_OFFSET,
    PAYLOAD_START,
};
use crate::OutaBounds;
use vstd::arithmetic::div_mod::lemma_small_mod;

verus! {

/// A multimap from `u64` keys to byte strings, held in one buffer: the
/// header, one slot per bucket, then the store of value nodes.
pub struct Quack {
    data: Vec<u8>,
}

impl View for Quack {
    type V = Seq<u8>;

    closed spec fn view(&self) -> Seq<u8> {
        self.data@
    }
}

impl Quack {
    /// The buffer is well formed: see `holds`.
    pub open spec fn wf(&self) -> bool {
        well_formed(self@)
    }

    /// For each bucket, the payloads written to it, newest first.
    pub open spec fn model(&self) -> Seq<Seq<Seq<u8>>> {
        model(self@)
    }

    /// Wraps a buffer as it is, without looking at it.
    pub fn new(data: Vec<u8>) -> (r: Self)
        ensures
            r@ == data@,
    {
        Quack { data }
    }

    /// The buffer, as it stands.
    pub fn data(&self) -> (r: &[u8])
        ensures
            r@ == self@,
    {
        self.data.as_slice()
    }

    /// Gives the buffer back.
    pub fn into_data(self) -> (r: Vec<u8>)
        ensures
            r@ == self@,
    {
        self.data
    }

    /// The payloads stored under `k`'s bucket, newest first. With no buckets
    /// the sequence is empty; an error means the header or the slot lies
    /// outside the buffer.
    pub fn read(&self, k: u64) -> (r: Result<Sequence<'_>, OutaBounds>)
        ensures
            r is Ok <==> self@.len() >= 8 && (num_slots_of(self@) == 0 || slot_pos(
                bucket_of(self@, k),
            ) + 8 <= self@.len()),
            r is Ok && num_slots_of(self@) == 0 ==> r->Ok_0.cursor() == 0,
            r is Ok && num_slots_of(self@) != 0 ==> r->Ok_0.bytes() == self@ && r->Ok_0.cursor()
                == slot_of(self@, bucket_of(self@, k)),
            self.wf() ==> r is Ok && walks(
                r->Ok_0.bytes(),
                r->Ok_0.cursor(),
                self.model()[bucket_of(self@, k)],
            ),
    {
        let data = self.data.as_slice();
        let num_slots = stor::read_num_slots(data)?;
        let slot_index = match k.checked_rem(num_slots) {
            Some(i) => i,
            None => {
                return Ok(Sequence::empty());
            },
        };
        let head = stor::read_slot(data, slot_index)?;
        proof {
            if self.wf() {
                lemma_model_walks(self@, slot_index as int);
            }
        }
        Ok(Sequence { data, next: head })
    }

    /// Writes the header of a multimap with `num_slots` buckets into a
    /// buffer. Fails when the buffer cannot hold the header and the slot
    /// table. A zeroed buffer and at least one bucket give an empty multimap.
    pub fn initialize_assume_zeroed(data: Vec<u8>, num_slots: u64) -> (r: Result<
        Self,
        OutaBounds,
    >)
        ensures
            r is Ok <==> store_start_of(num_slots as int) <= data@.len(),
            r is Ok ==> r->Ok_0@ == splice(
                splice(data@, STORE_LEN_OFFSET as int, be_bytes(0)),
                NUM_SLOTS_OFFSET as int,
                be_bytes(num_slots),
            ),
            r is Ok ==> r->Ok_0@.len() == data@.len() && num_slots_of(r->Ok_0@) == num_slots
                && store_len_of(r->Ok_0@) == 0,
            r is Ok && num_slots > 0 && zeroed(data@) ==> r->Ok_0.wf() && r->Ok_0.model()
                == empty_buckets(num_slots as int),
    {
        let mut data = data;
        let len = data.len() as u64;
        let start = match stor::store_start(num_slots) {
            Ok(s) => s,
            Err(e) => {
                return Err(e);
            },
        };
        if len < start {
            return Err(OutaBounds);
        }
        let ghost d0 = data@;
        let dat = data.as_mut_slice();
        let _ = stor::write_store_len(dat, 0);
        let _ = stor::write_num_slots(dat, num_slots);
        proof {
            lemma_be_round_trip(0);
            lemma_be_round_trip(num_slots);
            lemma_splice_range(d0, 8, be_bytes(0), 8, 16);
            lemma_splice_range(splice(d0, 8, be_bytes(0)), 0, be_bytes(num_slots), 8, 16);
            lemma_splice_range(splice(d0, 8, be_bytes(0)), 0, be_bytes(num_slots), 0, 8);
            assert(be_bytes(0).subrange(0, 8) =~= be_bytes(0));
            assert(be_bytes(num_slots).subrange(0, 8) =~= be_bytes(num_slots));
            if num_slots > 0 && zeroed(d0) {
                lemma_fresh_holds(d0, num_slots);
                lemma_model(data@, empty_buckets(num_slots as int));
            }
        }
        Ok(Quack { data })
    }

    /// Writes `v` under `k`: a new node at the end of the used store, in
    /// front of the list of `k`'s bucket. Fails, and changes nothing, when
    /// there is no bucket or the store has no room for the node.
    pub fn write(&mut self, k: u64, v: &[u8]) -> (r: Result<(), OutaBounds>)
        ensures
            r is Ok <==> write_fits(old(self)@, v@.len() as int),
            r is Ok ==> final(self)@ == after_write(old(self)@, k, v@),
            r is Err ==> final(self)@ == old(self)@,
            r is Ok ==> final(self)@.len() == old(self)@.len() && num_slots_of(final(self)@)
                == num_slots_of(old(self)@) && store_len_of(final(self)@) == store_len_of(
                old(self)@,
            ) + PAYLOAD_START + v@.len(),
            old(self).wf() && r is Ok ==> final(self).wf() && final(self).model() == step(
                old(self).model(),
                k,
                v@,
            ),
    {
        let ghost d0 = self@;
        let data = self.data.as_mut_slice();
        let len = data.len() as u64;
        let num_slots = stor::read_num_slots(data)?;
        let store_len = stor::read_store_len(data)?;
        let slot_index = match k.checked_rem(num_slots) {
            Some(i) => i,
            None => {
                return Err(OutaBounds);
            },
        };
        let new_len = match PAYLOAD_START.checked_add(v.len() as u64) {
            Some(x) => match x.checked_add(store_len) {
                Some(y) => y,
                None => {
                    return Err(OutaBounds);
                },
            },
            None => {
                return Err(OutaBounds);
            },
        };
        let store_start = stor::store_start(num_slots)?;
        let required_data_size = match store_start.checked_add(new_len) {
            Some(x) => x,
            None => {
                return Err(OutaBounds);
            },
        };
        if required_data_size > len {
            return Err(OutaBounds);
        }
        let old_head = match stor::read_slot(data, slot_index) {
            Ok(h) => h,
            Err(e) => {
                return Err(e);
            },
        };
        let new_head = store_start + store_len;
        let _ = val::write(data, new_head, old_head, v);
        let _ = stor::write_slot(data, slot_index, new_head);
        let _ = stor::write_store_len(data, new_len);
        proof {
            lemma_after_write_steps(d0, k, v@, old_head, new_head, new_len);
            lemma_after_write_header(d0, k, v@);
            if well_formed(d0) {
                lemma_after_write_model(d0, k, v@);
            }
        }
        Ok(())
    }

    /// Copies the multimap into `dest`, each bucket's list in the opposite
    /// order, so that its values come out oldest first. For a well-formed
    /// multimap it fails exactly when `dest` is shorter than the header, the
    /// slots and the used store together, and given a zeroed `dest` the copy
    /// is well formed. Otherwise it fails on the first node that does not lie
    /// inside the buffer or does not fit into `dest`.
    pub fn optimize(&self, dest: Vec<u8>) -> (r: Result<Quack, OutaBounds>)
        ensures
            self.wf() ==> (r is Ok <==> store_start_of(num_slots_of(self@) as int) + store_len_of(
                self@,
            ) <= dest@.len()),
            r is Ok ==> r->Ok_0@.len() == dest@.len() && num_slots_of(r->Ok_0@) == num_slots_of(
                self@,
            ),
            self.wf() && r is Ok && zeroed(dest@) ==> r->Ok_0.wf() && r->Ok_0.model() == reversed(
                self.model(),
            ),
    {
        let ghost d = self@;
        let ghost src = self.model();
        let ghost good = self.wf();
        let ghost fresh = zeroed(dest@);
        proof {
            if good {
                lemma_model_walks(d, 0);
            }
        }
        let num_slots = match stor::read_num_slots(self.data.as_slice()) {
            Ok(n) => n,
            Err(e) => {
                return Err(e);
            },
        };
        let ghost start = store_start_of(num_slots as int);
        let ghost used = store_len_of(d) as int;
        let mut out = match Quack::initialize_assume_zeroed(dest, num_slots) {
            Ok(q) => q,
            Err(e) => {
                return Err(e);
            },
        };
        let mut i: u64 = 0;
        while i < num_slots
            invariant
                self@ == d,
                self.model() == src,
                good == well_formed(d),
                num_slots == num_slots_of(d),
                start == store_start_of(num_slots as int),
                used == store_len_of(d),
                i <= num_slots,
                out@.len() == dest@.len(),
                num_slots_of(out@) == num_slots,
                start + store_len_of(out@) <= out@.len(),
                good ==> holds(d, src) && store_len_of(out@) + total_from(src, i as int) == used,
                fresh == zeroed(dest@),
                good && fresh ==> out.wf() && out.model().len() == num_slots && (forall|j: int|
                    0 <= j < i ==> #[trigger] out.model()[j] == src[j].reverse()) && (forall|j: int|
                    i <= j < num_slots ==> #[trigger] out.model()[j] == Seq::<Seq<u8>>::empty()),
            decreases num_slots - i,
        {
            let mut seq = match self.read(i) {
                Ok(s) => s,
                Err(e) => {
                    return Err(e);
                },
            };
            proof {
                lemma_small_mod(i as nat, num_slots as nat);
            }
            let ghost rest = src[i as int];
            let ghost ii = i as int;
            let ghost c: int = 0;
            assert(src[ii].take(0).reverse() =~= Seq::<Seq<u8>>::empty());
            loop
                invariant
                    self@ == d,
                    self.model() == src,
                    good == well_formed(d),
                    num_slots == num_slots_of(d),
                    start == store_start_of(num_slots as int),
                    used == store_len_of(d),
                    ii == i,
                    i < num_slots,
                    out@.len() == dest@.len(),
                    num_slots_of(out@) == num_slots,
                    start + store_len_of(out@) <= out@.len(),
                    good ==> holds(d, src) && seq.bytes() == d && walks(d, seq.cursor(), rest) && 0
                        <= c <= src[ii].len() && rest == src[ii].skip(c) && store_len_of(out@)
                        + bucket_bytes(rest) + total_from(src, i + 1) == used,
                    fresh == zeroed(dest@),
                    good && fresh ==> out.wf() && out.model().len() == num_slots && (forall|j: int|
                        0 <= j < i ==> #[trigger] out.model()[j] == src[j].reverse())
                        && out.model()[ii] == src[ii].take(c).reverse() && (forall|j: int|
                        i < j < num_slots ==> #[trigger] out.model()[j] == Seq::<Seq<u8>>::empty()),
                ensures
                    good ==> rest.len() == 0,
                decreases out@.len() - store_len_of(out@),
            {
                let v = match seq.try_next() {
                    Ok(Some(v)) => v,
                    Ok(None) => {
                        break ;
                    },
                    Err(e) => {
                        return Err(e);
                    },
                };
                proof {
                    if good {
                        assert(v@ == rest[0]);
                        assert(rest[0] == src[ii][c]);
                    }
                }
                match out.write(i, v) {
                    Ok(()) => {},
                    Err(e) => {
                        return Err(e);
                    },
                }
                proof {
                    if good {
                        lemma_small_mod(i as nat, num_slots as nat);
                        assert(src[ii].take(c + 1).reverse() =~= seq![v@] + src[ii].take(
                            c,
                        ).reverse());
                        assert(src[ii].skip(c + 1) =~= rest.drop_first());
                        rest = rest.drop_first();
                        c = c + 1;
                    }
                }
            }
            proof {
                if good {
                    assert(src[ii].take(c) =~= src[ii]);
                }
            }
            i = i + 1;
        }
        proof {
            if good && fresh {
                assert(out.model() =~= reversed(src));
            }
        }
        Ok(out)
    }
}

/// A walk along one bucket's list, yielding payloads borrowed from the
/// buffer. It checks every node before it reads it.
pub struct Sequence<'a> {
    data: &'a [u8],
    next: u64,
}

impl<'a> Sequence<'a> {
    /// The bytes the walk reads.
    pub closed spec fn bytes(&self) -> Seq<u8> {
        self.data@
    }

    /// The node the walk stands at; 0 once it has ended.
    pub closed spec fn cursor(&self) -> u64 {
        self.next
    }

    fn empty() -> (r: Self)
        ensures
            r.cursor() == 0,
    {
        Sequence { data: &[], next: 0 }
    }

    /// The payload of the current node, moving on to the next one; `None`
    /// at the end of the list; an error, without moving, when the node does
    /// not lie inside the buffer.
    pub fn try_next(&mut self) -> (r: Result<Option<&'a [u8]>, OutaBounds>)
        ensures
            final(self).bytes() == old(self).bytes(),
            old(self).cursor() == 0 ==> r == Ok::<Option<&'a [u8]>, OutaBounds>(None)
                && final(self).cursor() == 0,
            old(self).cursor() != 0 ==> (r is Ok <==> node_fits(
                old(self).bytes(),
                old(self).cursor() as int,
            )),
            old(self).cursor() != 0 && r is Ok ==> r->Ok_0 is Some && r->Ok_0->0@ == payload_of(
                old(self).bytes(),
                old(self).cursor() as int,
            ) && final(self).cursor() == next_of(old(self).bytes(), old(self).cursor() as int),
            r is Err ==> final(self).cursor() == old(self).cursor(),
    {
        if self.next == 0 {
            return Ok(None);
        }
        proof {
            assert(self.data@.len() == self.data.len());
        }
        let next_start = match NEXT_POINTER_OFFSET.checked_add(self.next) {
            Some(p) => read_u64(self.data, p)?,
            None => {
                return Err(OutaBounds);
            },
        };
        let payload_len = match PAYLOAD_LEN_OFFSET.checked_add(self.next) {
            Some(p) => read_u64(self.data, p)?,
            None => {
                return Err(OutaBounds);
            },
        };
        let ret = match PAYLOAD_START.checked_add(self.next) {
            Some(p) => get_range_dynamic(self.data, p, payload_len)?,
            None => {
                return Err(OutaBounds);
            },
        };
        self.next = next_start;
        Ok(Some(ret))
    }

    /// Like `try_next`, with an error taken as the end of the list.
    pub fn next(&mut self) -> (r: Option<&'a [u8]>)
        ensures
            final(self).bytes() == old(self).bytes(),
            r is Some <==> old(self).cursor() != 0 && node_fits(
                old(self).bytes(),
                old(self).cursor() as int,
            ),
            r is Some ==> r->0@ == payload_of(old(self).bytes(), old(self).cursor() as int)
                && final(self).cursor() == next_of(old(self).bytes(), old(self).cursor() as int),
            r is None ==> final(self).cursor() == old(self).cursor(),
    {
        match self.try_next() {
            Ok(x) => x,
            Err(_) => None,
        }
    }
}

} // verus!
