//! Matched pairs, kept in chunks while memory lasts and then spilled.

use crate::pipeline::error;
use crate::pipeline::error::PipelineError;
use crate::pipeline::rescue_memory::RESCUE_CHUNK_BYTES;
use crate::resource;
use crate::resource::{BrokerModel, MemoryBroker, MemoryError, MemoryLease};
use crate::sorting::sorted_distinct;
use vstd::bytes::{u32_from_le_bytes, u32_to_le_bytes};
use vstd::prelude::*;
use vstd::slice::slice_subrange;

verus! {

/// Bytes of a stored pair.
pub const STORED_PAIR_BYTES: usize = 8;

/// A stored pair: both values, least significant byte first.
pub open spec fn stored_pair(pair: (u32, u32)) -> Seq<u8> {
    vstd::bytes::spec_u32_to_le_bytes(pair.0) + vstd::bytes::spec_u32_to_le_bytes(pair.1)
}

/// Stored pairs, one after the other.
pub open spec fn stored_pairs(pairs: Seq<(u32, u32)>) -> Seq<u8>
    decreases pairs.len(),
{
    if pairs.len() == 0 {
        Seq::empty()
    } else {
        stored_pairs(pairs.drop_last()) + stored_pair(pairs.last())
    }
}

/// The pair stored at position `k`.
pub open spec fn pair_at(bytes: Seq<u8>, k: int) -> (u32, u32) {
    (
        vstd::bytes::spec_u32_from_le_bytes(bytes.subrange(k * 8, k * 8 + 4)),
        vstd::bytes::spec_u32_from_le_bytes(bytes.subrange(k * 8 + 4, k * 8 + 8)),
    )
}

/// Stored pairs have eight bytes each, and are read as they were written.
pub proof fn lemma_stored_pairs(pairs: Seq<(u32, u32)>)
    ensures
        stored_pairs(pairs).len() == pairs.len() * 8,
        forall|k: int|
            0 <= k < pairs.len() ==> pair_at(stored_pairs(pairs), k) == #[trigger] pairs[k],
    decreases pairs.len(),
{
    vstd::bytes::lemma_auto_spec_u32_to_from_le_bytes();
    if pairs.len() > 0 {
        let rest = pairs.drop_last();
        let last = pairs.last();
        lemma_stored_pairs(rest);
        let before = stored_pairs(rest);
        let all = stored_pairs(pairs);
        assert forall|k: int| 0 <= k < pairs.len() implies pair_at(all, k) == #[trigger] pairs[k] by {
            if k < rest.len() {
                assert(all.subrange(k * 8, k * 8 + 4) =~= before.subrange(k * 8, k * 8 + 4));
                assert(all.subrange(k * 8 + 4, k * 8 + 8) =~= before.subrange(
                    k * 8 + 4,
                    k * 8 + 8,
                ));
                assert(rest[k] == pairs[k]);
            } else {
                assert(all.subrange(k * 8, k * 8 + 4) =~= vstd::bytes::spec_u32_to_le_bytes(last.0));
                assert(all.subrange(k * 8 + 4, k * 8 + 8)
                    =~= vstd::bytes::spec_u32_to_le_bytes(last.1));
            }
        }
    }
}

/// Stored pairs of two lists are those of the first and then those of the second.
pub proof fn lemma_stored_concat(a: Seq<(u32, u32)>, b: Seq<(u32, u32)>)
    ensures
        stored_pairs(a + b) == stored_pairs(a) + stored_pairs(b),
    decreases b.len(),
{
    let all = a + b;
    if b.len() == 0 {
        assert(all =~= a);
        assert(stored_pairs(a) + stored_pairs(b) =~= stored_pairs(a));
    } else {
        lemma_stored_concat(a, b.drop_last());
        assert(all.drop_last() =~= a + b.drop_last());
        assert(stored_pairs(all) =~= stored_pairs(a) + stored_pairs(b));
    }
}

/// Appends stored pairs.
pub fn encode_pairs(pairs: &Vec<(u32, u32)>, bytes: &mut Vec<u8>)
    ensures
        final(bytes)@ == old(bytes)@ + stored_pairs(pairs@),
{
    let ghost before = bytes@;
    let mut i: usize = 0;
    assert(pairs@.take(0) =~= Seq::<(u32, u32)>::empty());
    assert(bytes@ =~= before + stored_pairs(pairs@.take(0)));
    while i < pairs.len()
        invariant
            i <= pairs@.len(),
            bytes@ == before + stored_pairs(pairs@.take(i as int)),
        decreases pairs.len() - i,
    {
        let (left, right) = pairs[i];
        let mut first: Vec<u8> = u32_to_le_bytes(left);
        let mut second: Vec<u8> = u32_to_le_bytes(right);
        bytes.append(&mut first);
        bytes.append(&mut second);
        proof {
            assert(pairs@.take(i + 1).drop_last() =~= pairs@.take(i as int));
            assert(bytes@ =~= before + stored_pairs(pairs@.take(i + 1)));
        }
        i = i + 1;
    }
    assert(pairs@.take(i as int) =~= pairs@);
}

/// Reads stored pairs. Refuses a length that is not whole pairs, and returns it.
pub fn decode_pairs(bytes: &[u8]) -> (result: Result<Vec<(u32, u32)>, usize>)
    ensures
        if bytes@.len() % 8 == 0 {
            result matches Ok(pairs) && pairs@.len() == bytes@.len() / 8 && forall|k: int|
                0 <= k < pairs@.len() ==> #[trigger] pairs@[k] == pair_at(bytes@, k)
        } else {
            result matches Err(len) && len == bytes@.len()
        },
{
    if bytes.len() % STORED_PAIR_BYTES != 0 {
        return Err(bytes.len());
    }
    let len: usize = bytes.len();
    let count: usize = len / STORED_PAIR_BYTES;
    let mut pairs: Vec<(u32, u32)> = Vec::new();
    let mut i: usize = 0;
    while i < count
        invariant
            i <= count,
            len == bytes@.len(),
            len == count * 8,
            pairs@.len() == i,
            forall|k: int| 0 <= k < i ==> #[trigger] pairs@[k] == pair_at(bytes@, k),
        decreases count - i,
    {
        let at: usize = i * STORED_PAIR_BYTES;
        let left: u32 = u32_from_le_bytes(slice_subrange(bytes, at, at + 4));
        let right: u32 = u32_from_le_bytes(slice_subrange(bytes, at + 4, at + 8));
        pairs.push((left, right));
        i = i + 1;
    }
    Ok(pairs)
}

/// What was written is read back.
pub proof fn lemma_pairs_round_trip(written: Seq<(u32, u32)>, read: Seq<(u32, u32)>)
    requires
        read.len() == stored_pairs(written).len() / 8,
        forall|k: int|
            0 <= k < read.len() ==> #[trigger] read[k] == pair_at(stored_pairs(written), k),
    ensures
        read == written,
        stored_pairs(written).len() % 8 == 0,
{
    lemma_stored_pairs(written);
    assert forall|k: int| 0 <= k < read.len() implies read[k] == written[k] by {
        assert(pair_at(stored_pairs(written), k) == written[k]);
    }
    assert(read =~= written);
}

/// The pairs of chunks, one after the other.
pub open spec fn flat(chunks: Seq<Vec<(u32, u32)>>) -> Seq<(u32, u32)>
    decreases chunks.len(),
{
    if chunks.len() == 0 {
        Seq::empty()
    } else {
        flat(chunks.drop_last()) + chunks.last()@
    }
}

/// What is to be appended to the spilled atom pairs and shared edges.
#[derive(Debug, PartialEq, Eq)]
pub struct RescueSpillWrite {
    pub atom: Vec<u8>,
    pub shared: Vec<u8>,
}

/// Matched atom pairs and shared edges.
pub struct RescueStore {
    pub atom_chunks: Vec<Vec<(u32, u32)>>,
    pub shared_chunks: Vec<Vec<(u32, u32)>>,
    pub spilling: bool,
    pub leases: Vec<MemoryLease>,
    pub atom_pairs: Ghost<Seq<(u32, u32)>>,
    pub shared_pairs: Ghost<Seq<(u32, u32)>>,
}

proof fn lemma_one_more(
    before: BrokerModel,
    after: BrokerModel,
    held: Seq<MemoryLease>,
    leases: Seq<MemoryLease>,
)
    requires
        resource::hold_each(held, before, RESCUE_CHUNK_BYTES),
        after == before.make_room(RESCUE_CHUNK_BYTES, None).lease(RESCUE_CHUNK_BYTES, false),
        leases.len() == held.len() + 1,
        leases.drop_last() == held,
        leases.last().id() == before.slots.len(),
    ensures
        resource::hold_each(leases, after, RESCUE_CHUNK_BYTES),
{
    let n = held.len() as int;
    resource::lemma_reserve_keeps(held, before, RESCUE_CHUNK_BYTES, RESCUE_CHUNK_BYTES);
    assert(leases[n] == leases.last());
    assert forall|i: int| 0 <= i < leases.len() implies (#[trigger] leases[i]).is_of(after)
        && after.slots[leases[i].id() as int] == (resource::LeaseSlot {
        bytes: RESCUE_CHUNK_BYTES,
        reclaimable: false,
    }) by {
        if i < n {
            assert(held[i] == leases[i]);
        }
    }
    assert forall|i: int, j: int| 0 <= i < j < leases.len() implies (#[trigger] leases[i]).id()
        != (#[trigger] leases[j]).id() by {
        assert(held[i] == leases[i]);
        if j < n {
            assert(held[j] == leases[j]);
        }
    }
}

impl RescueStore {
    /// All matched atom pairs, in the order in which they were stored.
    pub open spec fn all_atom_pairs(self) -> Seq<(u32, u32)> {
        self.atom_pairs@
    }

    /// All matched shared edges, in the order in which they were stored.
    pub open spec fn all_shared_edges(self) -> Seq<(u32, u32)> {
        self.shared_pairs@
    }

    /// Every chunk has a lease of the broker.
    pub open spec fn holds_leases(self, memory: MemoryBroker) -> bool {
        &&& self.leases@.len() == self.atom_chunks@.len() + self.shared_chunks@.len()
        &&& resource::hold_each(self.leases@, memory@, RESCUE_CHUNK_BYTES)
    }

    /// Chunks hold all pairs until they are spilled.
    pub open spec fn wf(self) -> bool {
        if self.spilling {
            self.atom_chunks@.len() == 0 && self.shared_chunks@.len() == 0
        } else {
            flat(self.atom_chunks@) == self.all_atom_pairs() && flat(self.shared_chunks@)
                == self.all_shared_edges()
        }
    }

    /// No matches.
    pub fn new() -> (store: RescueStore)
        ensures
            store.wf(),
            !store.spilling,
            store.all_atom_pairs().len() == 0,
            store.all_shared_edges().len() == 0,
            store.leases@.len() == 0,
            forall|memory: MemoryBroker| #[trigger] store.holds_leases(memory),
    {
        RescueStore {
            atom_chunks: Vec::new(),
            shared_chunks: Vec::new(),
            spilling: false,
            leases: Vec::new(),
            atom_pairs: Ghost(Seq::empty()),
            shared_pairs: Ghost(Seq::empty()),
        }
    }

    /// Keeps a chunk where its bytes can be reserved. Else all chunks are to be spilled, and
    /// from then on every chunk.
    #[verifier::loop_isolation(false)]
    pub fn store(&mut self, chunk: Vec<(u32, u32)>, shared: bool, memory: &mut MemoryBroker) -> (result: Result<
        RescueSpillWrite,
        PipelineError,
    >)
        requires
            old(self).wf(),
            old(memory)@.wf(),
            old(self).holds_leases(*old(memory)),
        ensures
            final(memory)@.wf(),
            final(memory)@.hard_top == old(memory)@.hard_top,
            final(self).holds_leases(*final(memory)),
            final(memory)@.available(None) + final(self).leases@.len() * RESCUE_CHUNK_BYTES == old(memory)@.available(None) + old(self).leases@.len() * RESCUE_CHUNK_BYTES,
            ({
                let atom = if shared {
                    Seq::empty()
                } else {
                    chunk@
                };
                let edges = if shared {
                    chunk@
                } else {
                    Seq::empty()
                };
                if !old(self).spilling && old(memory)@.used + RESCUE_CHUNK_BYTES > u64::MAX {
                    result matches Err(e) && e@ == error::overflow_fault()
                } else {
                    &&& result is Ok
                    &&& final(self).wf()
                    &&& final(self).all_atom_pairs() == old(self).all_atom_pairs() + atom
                    &&& final(self).all_shared_edges() == old(self).all_shared_edges() + edges
                    &&& final(self).spilling == (old(self).spilling || RESCUE_CHUNK_BYTES
                        > old(memory)@.available(None))
                    &&& !final(self).spilling ==> final(self).leases@.len() == old(self).leases@.len() + 1
                    &&& (result matches Ok(write) ==> if old(self).spilling {
                        write.atom@ == stored_pairs(atom) && write.shared@ == stored_pairs(edges)
                    } else if final(self).spilling {
                        write.atom@ == stored_pairs(final(self).all_atom_pairs())
                            && write.shared@ == stored_pairs(final(self).all_shared_edges())
                    } else {
                        write.atom@.len() == 0 && write.shared@.len() == 0
                    })
                }
            }),
    {
        let ghost atoms = self.atom_pairs@;
        let ghost edges = self.shared_pairs@;
        let ghost empty = Seq::<(u32, u32)>::empty();
        let mut write = RescueSpillWrite { atom: Vec::new(), shared: Vec::new() };
        proof {
            assert(atoms + empty =~= atoms);
            assert(edges + empty =~= edges);
            assert(Seq::<u8>::empty() + stored_pairs(chunk@) =~= stored_pairs(chunk@));
        }
        if self.spilling {
            if shared {
                encode_pairs(&chunk, &mut write.shared);
            } else {
                encode_pairs(&chunk, &mut write.atom);
            }
            proof {
                if shared {
                    self.shared_pairs@ = edges + chunk@;
                } else {
                    self.atom_pairs@ = atoms + chunk@;
                }
            }
            return Ok(write);
        }
        let ghost before = memory@;
        match memory.reserve(RESCUE_CHUNK_BYTES) {
            Ok(lease) => {
                let ghost held = self.leases@;
                self.leases.push(lease);
                proof {
                    resource::lemma_lease_takes(before, RESCUE_CHUNK_BYTES);
                    assert(self.leases@.drop_last() =~= held);
                    lemma_one_more(before, memory@, held, self.leases@);
                }
                proof {
                    if shared {
                        self.shared_pairs@ = edges + chunk@;
                    } else {
                        self.atom_pairs@ = atoms + chunk@;
                    }
                }
                if shared {
                    self.shared_chunks.push(chunk);
                    assert(self.shared_chunks@.drop_last() =~= old(self).shared_chunks@);
                } else {
                    self.atom_chunks.push(chunk);
                    assert(self.atom_chunks@.drop_last() =~= old(self).atom_chunks@);
                }
                Ok(write)
            },
            Err(MemoryError::Budget { .. }) => {
                encode_chunks(&self.atom_chunks, &mut write.atom);
                encode_chunks(&self.shared_chunks, &mut write.shared);
                proof {
                    assert(Seq::<u8>::empty() + stored_pairs(atoms) =~= stored_pairs(atoms));
                    assert(Seq::<u8>::empty() + stored_pairs(edges) =~= stored_pairs(edges));
                    lemma_stored_concat(atoms, chunk@);
                    lemma_stored_concat(edges, chunk@);
                }
                if shared {
                    encode_pairs(&chunk, &mut write.shared);
                } else {
                    encode_pairs(&chunk, &mut write.atom);
                }
                proof {
                    if shared {
                        self.shared_pairs@ = edges + chunk@;
                    } else {
                        self.atom_pairs@ = atoms + chunk@;
                    }
                }
                let mut leases: Vec<MemoryLease> = Vec::new();
                std::mem::swap(&mut leases, &mut self.leases);
                proof {
                    resource::lemma_held_bytes(leases@, memory@, RESCUE_CHUNK_BYTES);
                }
                resource::release_all(leases, memory);
                self.atom_chunks = Vec::new();
                self.shared_chunks = Vec::new();
                self.spilling = true;
                Ok(write)
            },
            Err(error) => Err(PipelineError::Memory(error)),
        }
    }
}

/// Appends stored chunks.
fn encode_chunks(chunks: &Vec<Vec<(u32, u32)>>, bytes: &mut Vec<u8>)
    ensures
        final(bytes)@ == old(bytes)@ + stored_pairs(flat(chunks@)),
{
    let ghost before = bytes@;
    let mut i: usize = 0;
    assert(chunks@.take(0) =~= Seq::<Vec<(u32, u32)>>::empty());
    assert(bytes@ =~= before + stored_pairs(flat(chunks@.take(0))));
    while i < chunks.len()
        invariant
            i <= chunks@.len(),
            bytes@ == before + stored_pairs(flat(chunks@.take(i as int))),
        decreases chunks.len() - i,
    {
        encode_pairs(&chunks[i], bytes);
        proof {
            assert(chunks@.take(i + 1).drop_last() =~= chunks@.take(i as int));
            lemma_stored_concat(flat(chunks@.take(i as int)), chunks@[i as int]@);
            assert(bytes@ =~= before + stored_pairs(flat(chunks@.take(i + 1))));
        }
        i = i + 1;
    }
    assert(chunks@.take(i as int) =~= chunks@);
}

/// A pair as one number, left value first.
pub open spec fn pair_number(pair: (u32, u32)) -> u128 {
    (pair.0 * 4294967296 + pair.1) as u128
}

/// Left value first, then right value.
pub open spec fn pair_precedes(a: (u32, u32), b: (u32, u32)) -> bool {
    a.0 < b.0 || (a.0 == b.0 && a.1 < b.1)
}

/// `ordered` holds each of the pairs once, in order.
pub open spec fn is_ordered_set(pairs: Seq<(u32, u32)>, ordered: Seq<(u32, u32)>) -> bool {
    &&& forall|i: int, j: int|
        0 <= i < j < ordered.len() ==> pair_precedes(#[trigger] ordered[i], #[trigger] ordered[j])
    &&& forall|pair: (u32, u32)| #[trigger] ordered.contains(pair) <==> pairs.contains(pair)
}

/// The distinct pairs in order.
pub fn sort_pairs(pairs: &Vec<(u32, u32)>) -> (ordered: Vec<(u32, u32)>)
    ensures
        is_ordered_set(pairs@, ordered@),
        ordered@.len() <= pairs@.len(),
{
    let mut keys: Vec<u128> = Vec::new();
    let mut i: usize = 0;
    while i < pairs.len()
        invariant
            i <= pairs@.len(),
            keys@.len() == i,
            forall|k: int| 0 <= k < i ==> #[trigger] keys@[k] == pair_number(pairs@[k]),
        decreases pairs.len() - i,
    {
        let (left, right) = pairs[i];
        keys.push(left as u128 * 4294967296 + right as u128);
        i = i + 1;
    }
    let ghost all = keys@;
    let distinct = sorted_distinct(keys, true);
    let mut ordered: Vec<(u32, u32)> = Vec::new();
    let mut j: usize = 0;
    while j < distinct.len()
        invariant
            j <= distinct@.len(),
            ordered@.len() == j,
            all.len() == pairs@.len(),
            forall|k: int| 0 <= k < all.len() ==> #[trigger] all[k] == pair_number(pairs@[k]),
            forall|key: u128| distinct@.contains(key) <==> all.contains(key),
            forall|k: int| 0 <= k < j ==> pair_number(#[trigger] ordered@[k]) == distinct@[k],
        decreases distinct.len() - j,
    {
        let key: u128 = distinct[j];
        proof {
            assert(distinct@[j as int] == key);
            assert(distinct@.contains(key));
            assert(all.contains(key));
            let at = all.index_of(key);
            assert(all[at] == pair_number(pairs@[at]));
        }
        ordered.push(((key / 4294967296) as u32, (key % 4294967296) as u32));
        j = j + 1;
    }
    proof {
        assert forall|a: int, b: int| 0 <= a < b < ordered@.len() implies pair_precedes(
            #[trigger] ordered@[a],
            #[trigger] ordered@[b],
        ) by {
            assert(distinct@[a] < distinct@[b]);
        }
        assert forall|pair: (u32, u32)| #[trigger] ordered@.contains(pair) <==> pairs@.contains(
            pair,
        ) by {
            if ordered@.contains(pair) {
                let k = ordered@.index_of(pair);
                assert(distinct@.contains(distinct@[k]));
                let at = all.index_of(distinct@[k]);
                assert(all[at] == pair_number(pairs@[at]));
                assert(pairs@[at] == pair);
            }
            if pairs@.contains(pair) {
                let at = pairs@.index_of(pair);
                assert(all[at] == pair_number(pair));
                assert(all.contains(pair_number(pair)));
                let k = distinct@.index_of(pair_number(pair));
                assert(pair_number(ordered@[k]) == pair_number(pair));
                assert(ordered@[k] == pair);
            }
        }
    }
    ordered
}

} // verus!
