//! Ordered runs of summary entries, stored as bytes and merged two by two.

use crate::pipeline::summary;
use crate::pipeline::summary::SummaryEntry;
use crate::sorting::sorted;
use vstd::bytes::{u32_from_le_bytes, u32_to_le_bytes, u64_from_le_bytes, u64_to_le_bytes};
use vstd::prelude::*;
use vstd::slice::slice_subrange;

verus! {

/// Bytes of a stored entry.
pub const SUMMARY_ENTRY_ENCODED_BYTES: usize = 16;

/// Most bytes of a read or write buffer.
pub const SUMMARY_STREAM_MAX_IO_BUFFER_BYTES: usize = 262_144;

/// The entries are ordered by root and chain.
pub open spec fn are_ordered(entries: Seq<SummaryEntry>) -> bool {
    forall|i: int, j: int|
        0 <= i <= j < entries.len() ==> (#[trigger] entries[i]).precedes(#[trigger] entries[j])
}

/// No entry has a negative number of tokens.
pub open spec fn are_counted(entries: Seq<SummaryEntry>) -> bool {
    forall|i: int| 0 <= i < entries.len() ==> (#[trigger] entries[i]).nfts >= 0
}

/// The bits of a signed number.
pub open spec fn bits_of(value: i64) -> u64 {
    if value >= 0 {
        value as u64
    } else {
        (value + 18446744073709551616) as u64
    }
}

/// The signed number of the bits.
pub open spec fn number_of(bits: u64) -> i64 {
    if bits <= i64::MAX {
        bits as i64
    } else {
        (bits - 18446744073709551616) as i64
    }
}

/// A stored entry: root, chain and tokens, least significant byte first.
pub open spec fn stored_entry(entry: SummaryEntry) -> Seq<u8> {
    vstd::bytes::spec_u32_to_le_bytes(entry.root) + vstd::bytes::spec_u32_to_le_bytes(entry.chain)
        + vstd::bytes::spec_u64_to_le_bytes(bits_of(entry.nfts))
}

/// Stored entries, one after the other.
pub open spec fn stored_entries(entries: Seq<SummaryEntry>) -> Seq<u8>
    decreases entries.len(),
{
    if entries.len() == 0 {
        Seq::empty()
    } else {
        stored_entries(entries.drop_last()) + stored_entry(entries.last())
    }
}

/// The entry stored at position `k`.
pub open spec fn entry_at(bytes: Seq<u8>, k: int) -> SummaryEntry {
    SummaryEntry {
        root: vstd::bytes::spec_u32_from_le_bytes(bytes.subrange(k * 16, k * 16 + 4)),
        chain: vstd::bytes::spec_u32_from_le_bytes(bytes.subrange(k * 16 + 4, k * 16 + 8)),
        nfts: number_of(
            vstd::bytes::spec_u64_from_le_bytes(bytes.subrange(k * 16 + 8, k * 16 + 16)),
        ),
    }
}

/// Stored entries have sixteen bytes each, and are read as they were written.
pub proof fn lemma_entries_round_trip(entries: Seq<SummaryEntry>)
    ensures
        stored_entries(entries).len() == entries.len() * 16,
        forall|k: int|
            0 <= k < entries.len() ==> entry_at(stored_entries(entries), k)
                == #[trigger] entries[k],
    decreases entries.len(),
{
    vstd::bytes::lemma_auto_spec_u32_to_from_le_bytes();
    vstd::bytes::lemma_auto_spec_u64_to_from_le_bytes();
    if entries.len() > 0 {
        let rest = entries.drop_last();
        let last = entries.last();
        lemma_entries_round_trip(rest);
        let before = stored_entries(rest);
        let all = stored_entries(entries);
        let root = vstd::bytes::spec_u32_to_le_bytes(last.root);
        let chain = vstd::bytes::spec_u32_to_le_bytes(last.chain);
        let nfts = vstd::bytes::spec_u64_to_le_bytes(bits_of(last.nfts));
        assert forall|k: int| 0 <= k < entries.len() implies entry_at(all, k)
            == #[trigger] entries[k] by {
            if k < rest.len() {
                assert(all.subrange(k * 16, k * 16 + 4) =~= before.subrange(k * 16, k * 16 + 4));
                assert(all.subrange(k * 16 + 4, k * 16 + 8) =~= before.subrange(
                    k * 16 + 4,
                    k * 16 + 8,
                ));
                assert(all.subrange(k * 16 + 8, k * 16 + 16) =~= before.subrange(
                    k * 16 + 8,
                    k * 16 + 16,
                ));
                assert(rest[k] == entries[k]);
            } else {
                assert(all.subrange(k * 16, k * 16 + 4) =~= root);
                assert(all.subrange(k * 16 + 4, k * 16 + 8) =~= chain);
                assert(all.subrange(k * 16 + 8, k * 16 + 16) =~= nfts);
                assert(number_of(bits_of(last.nfts)) == last.nfts);
            }
        }
    }
}

/// Appends a stored entry.
pub fn write_summary_entry(bytes: &mut Vec<u8>, entry: SummaryEntry)
    ensures
        final(bytes)@ == old(bytes)@ + stored_entry(entry),
{
    let ghost before = bytes@;
    let bits: u64 = if entry.nfts >= 0 {
        entry.nfts as u64
    } else {
        u64::MAX - ((-(entry.nfts + 1)) as u64)
    };
    let mut root: Vec<u8> = u32_to_le_bytes(entry.root);
    let mut chain: Vec<u8> = u32_to_le_bytes(entry.chain);
    let mut nfts: Vec<u8> = u64_to_le_bytes(bits);
    bytes.append(&mut root);
    bytes.append(&mut chain);
    bytes.append(&mut nfts);
    assert(bytes@ =~= before + stored_entry(entry));
}

/// Reads the entry stored at position `k`, where sixteen bytes are left there.
pub fn read_summary_entry(bytes: &[u8], k: usize) -> (entry: Option<SummaryEntry>)
    ensures
        if k * 16 + 16 <= bytes@.len() {
            entry == Some(entry_at(bytes@, k as int))
        } else {
            entry is None
        },
{
    let len: usize = bytes.len();
    if k >= len / SUMMARY_ENTRY_ENCODED_BYTES {
        return None;
    }
    let at: usize = k * SUMMARY_ENTRY_ENCODED_BYTES;
    let root: u32 = u32_from_le_bytes(slice_subrange(bytes, at, at + 4));
    let chain: u32 = u32_from_le_bytes(slice_subrange(bytes, at + 4, at + 8));
    let bits: u64 = u64_from_le_bytes(slice_subrange(bytes, at + 8, at + 16));
    let nfts: i64 = if bits <= i64::MAX as u64 {
        bits as i64
    } else {
        -((u64::MAX - bits) as i64) - 1
    };
    Some(SummaryEntry { root, chain, nfts })
}

/// An entry as one number, root first.
pub open spec fn entry_number(entry: SummaryEntry) -> u128 {
    (entry.root * 79228162514264337593543950336 + entry.chain * 18446744073709551616
        + entry.nfts) as u128
}

/// The entry of a number.
pub open spec fn numbered(key: u128) -> SummaryEntry {
    SummaryEntry {
        root: (key / 79228162514264337593543950336) as u32,
        chain: ((key / 18446744073709551616) % 4294967296) as u32,
        nfts: (key % 18446744073709551616) as i64,
    }
}

proof fn lemma_numbered(entry: SummaryEntry)
    requires
        entry.nfts >= 0,
    ensures
        numbered(entry_number(entry)) == entry,
        entry_number(entry) == entry.root * 79228162514264337593543950336 + entry.chain
            * 18446744073709551616 + entry.nfts,
{
    let key = entry_number(entry);
    assert(key == entry.root * 79228162514264337593543950336 + entry.chain * 18446744073709551616
        + entry.nfts);
    assert(key / 79228162514264337593543950336 == entry.root);
    assert(key / 18446744073709551616 == entry.root * 4294967296 + entry.chain);
    assert((key / 18446744073709551616) % 4294967296 == entry.chain);
    assert(key % 18446744073709551616 == entry.nfts);
}

proof fn lemma_tally_numbered(
    entries: Seq<SummaryEntry>,
    keys: Seq<u128>,
    weight: spec_fn(SummaryEntry) -> nat,
)
    requires
        entries.len() == keys.len(),
        forall|i: int| 0 <= i < keys.len() ==> #[trigger] entries[i] == numbered(keys[i]),
    ensures
        summary::tally(entries, weight) == summary::tally(keys, |key: u128| weight(numbered(key))),
    decreases keys.len(),
{
    if keys.len() > 0 {
        lemma_tally_numbered(entries.drop_last(), keys.drop_last(), weight);
        assert(entries.last() == numbered(keys.last()));
    }
}

/// The entries in order.
pub fn sort_entries(entries: &Vec<SummaryEntry>) -> (ordered: Vec<SummaryEntry>)
    requires
        are_counted(entries@),
    ensures
        are_ordered(ordered@),
        are_counted(ordered@),
        summary::same_tallies(entries@, ordered@),
        ordered@.len() == entries@.len(),
{
    let mut keys: Vec<u128> = Vec::new();
    let mut i: usize = 0;
    while i < entries.len()
        invariant
            i <= entries@.len(),
            are_counted(entries@),
            keys@.len() == i,
            forall|k: int| 0 <= k < i ==> #[trigger] keys@[k] == entry_number(entries@[k]),
        decreases entries.len() - i,
    {
        let entry: SummaryEntry = entries[i];
        assert(entries@[i as int].nfts >= 0);
        keys.push(
            entry.root as u128 * 79228162514264337593543950336 + entry.chain as u128
                * 18446744073709551616 + entry.nfts as u128,
        );
        i = i + 1;
    }
    let ghost all = keys@;
    let arranged = sorted(keys, true);
    let mut ordered: Vec<SummaryEntry> = Vec::new();
    let mut j: usize = 0;
    while j < arranged.len()
        invariant
            j <= arranged@.len(),
            ordered@.len() == j,
            all.len() == entries@.len(),
            are_counted(entries@),
            forall|k: int| 0 <= k < all.len() ==> #[trigger] all[k] == entry_number(entries@[k]),
            forall|key: u128| arranged@.contains(key) <==> all.contains(key),
            forall|k: int|
                0 <= k < j ==> {
                    &&& #[trigger] ordered@[k] == numbered(arranged@[k])
                    &&& ordered@[k].nfts >= 0
                    &&& arranged@[k] == entry_number(ordered@[k])
                },
        decreases arranged.len() - j,
    {
        let key: u128 = arranged[j];
        proof {
            assert(arranged@[j as int] == key);
            assert(arranged@.contains(key));
            assert(all.contains(key));
            let at = all.index_of(key);
            assert(all[at] == entry_number(entries@[at]));
            assert(entries@[at].nfts >= 0);
            lemma_numbered(entries@[at]);
        }
        ordered.push(
            SummaryEntry {
                root: (key / 79228162514264337593543950336) as u32,
                chain: ((key / 18446744073709551616) % 4294967296) as u32,
                nfts: (key % 18446744073709551616) as i64,
            },
        );
        j = j + 1;
    }
    proof {
        assert forall|a: int, b: int| 0 <= a <= b < ordered@.len() implies (
        #[trigger] ordered@[a]).precedes(#[trigger] ordered@[b]) by {
            assert(arranged@[a] <= arranged@[b]);
            lemma_numbered(ordered@[a]);
            lemma_numbered(ordered@[b]);
        }
        assert forall|weight: spec_fn(SummaryEntry) -> nat| #[trigger]
            summary::tally(entries@, weight) == summary::tally(ordered@, weight) by {
            assert forall|k: int| 0 <= k < all.len() implies #[trigger] entries@[k] == numbered(
                all[k],
            ) by {
                assert(entries@[k].nfts >= 0);
                lemma_numbered(entries@[k]);
                assert(all[k] == entry_number(entries@[k]));
            }
            lemma_tally_numbered(entries@, all, weight);
            lemma_tally_numbered(ordered@, arranged@, weight);
            summary::lemma_tally_order(all, arranged@, |key: u128| weight(numbered(key)));
        }
    }
    ordered
}

/// Ordered entries, stored.
pub struct SummaryRun {
    pub bytes: Vec<u8>,
    pub entries: Ghost<Seq<SummaryEntry>>,
}

impl SummaryRun {
    /// The bytes store ordered entries.
    pub open spec fn wf(self) -> bool {
        &&& self.bytes@ == stored_entries(self.entries@)
        &&& are_ordered(self.entries@)
        &&& are_counted(self.entries@)
    }

    /// A run of nothing.
    pub fn new() -> (run: SummaryRun)
        ensures
            run.wf(),
            run.entries@.len() == 0,
    {
        SummaryRun { bytes: Vec::new(), entries: Ghost(Seq::empty()) }
    }

    /// The entry at position `k`.
    pub fn read(&self, k: usize) -> (entry: Option<SummaryEntry>)
        requires
            self.wf(),
        ensures
            if k < self.entries@.len() {
                entry == Some(self.entries@[k as int])
            } else {
                entry is None
            },
    {
        proof {
            lemma_entries_round_trip(self.entries@);
            if k < self.entries@.len() {
                assert(entry_at(self.bytes@, k as int) == self.entries@[k as int]);
            }
        }
        read_summary_entry(self.bytes.as_slice(), k)
    }

    /// Appends an entry.
    pub fn write(&mut self, entry: SummaryEntry)
        requires
            old(self).wf(),
            entry.nfts >= 0,
            old(self).entries@.len() > 0 ==> old(self).entries@.last().precedes(entry),
        ensures
            final(self).wf(),
            final(self).entries@ == old(self).entries@.push(entry),
    {
        let ghost before = self.entries@;
        write_summary_entry(&mut self.bytes, entry);
        self.entries = Ghost(before.push(entry));
        proof {
            assert(before.push(entry).drop_last() =~= before);
            assert forall|i: int, j: int| 0 <= i <= j < before.push(entry).len() implies (
            #[trigger] before.push(entry)[i]).precedes(#[trigger] before.push(entry)[j]) by {
                if j == before.len() && i < before.len() {
                    assert(before[i].precedes(before[before.len() - 1]));
                }
            }
        }
    }
}

/// Stores the entries in order, and takes them from the list.
pub fn flush_summary_run(entries: &mut Vec<SummaryEntry>) -> (run: SummaryRun)
    requires
        are_counted(old(entries)@),
    ensures
        run.wf(),
        summary::same_tallies(old(entries)@, run.entries@),
        run.entries@.len() == old(entries)@.len(),
        final(entries)@.len() == 0,
{
    let ordered = sort_entries(entries);
    let mut run = SummaryRun::new();
    let mut i: usize = 0;
    assert(run.entries@ =~= ordered@.take(0));
    while i < ordered.len()
        invariant
            i <= ordered@.len(),
            are_ordered(ordered@),
            are_counted(ordered@),
            run.wf(),
            run.entries@ == ordered@.take(i as int),
        decreases ordered.len() - i,
    {
        let entry: SummaryEntry = ordered[i];
        assert(ordered@[i as int].nfts >= 0);
        assert(i > 0 ==> ordered@[i - 1].precedes(ordered@[i as int]));
        run.write(entry);
        assert(run.entries@ =~= ordered@.take(i + 1));
        i = i + 1;
    }
    assert(run.entries@ =~= ordered@);
    *entries = Vec::new();
    run
}

/// The weights of both lists.
proof fn lemma_tally_concat<T>(a: Seq<T>, b: Seq<T>, weight: spec_fn(T) -> nat)
    ensures
        summary::tally(a + b, weight) == summary::tally(a, weight) + summary::tally(b, weight),
    decreases b.len(),
{
    if b.len() == 0 {
        assert(a + b =~= a);
    } else {
        assert((a + b).drop_last() =~= a + b.drop_last());
        lemma_tally_concat(a, b.drop_last(), weight);
    }
}

/// Merges two ordered runs.
#[verifier::loop_isolation(false)]
pub fn merge_summary_runs(left: &SummaryRun, right: &SummaryRun) -> (merged: SummaryRun)
    requires
        left.wf(),
        right.wf(),
    ensures
        merged.wf(),
        summary::same_tallies(left.entries@ + right.entries@, merged.entries@),
        merged.entries@.len() == left.entries@.len() + right.entries@.len(),
{
    let mut merged = SummaryRun::new();
    let mut i: usize = 0;
    let mut j: usize = 0;
    let ghost l = left.entries@;
    let ghost r = right.entries@;
    proof {
        lemma_entries_round_trip(l);
        lemma_entries_round_trip(r);
        assert(l.take(0) + r.take(0) =~= merged.entries@);
    }
    let left_len: usize = left.bytes.len();
    let right_len: usize = right.bytes.len();
    let mut left_entry: Option<SummaryEntry> = left.read(i);
    let mut right_entry: Option<SummaryEntry> = right.read(j);
    while left_entry.is_some() || right_entry.is_some()
        invariant
            i <= l.len(),
            j <= r.len(),
            merged.wf(),
            merged.entries@.len() == i + j,
            left_entry is Some <==> i < l.len(),
            right_entry is Some <==> j < r.len(),
            i < l.len() ==> left_entry == Some(l[i as int]),
            j < r.len() ==> right_entry == Some(r[j as int]),
            forall|weight: spec_fn(SummaryEntry) -> nat| #[trigger]
                summary::tally(merged.entries@, weight) == summary::tally(l.take(i as int), weight)
                    + summary::tally(r.take(j as int), weight),
            merged.entries@.len() > 0 ==> {
                &&& i < l.len() ==> merged.entries@.last().precedes(l[i as int])
                &&& j < r.len() ==> merged.entries@.last().precedes(r[j as int])
            },
        decreases l.len() - i + r.len() - j,
    {
        let take_left: bool = match (left_entry, right_entry) {
            (Some(a), Some(b)) => a.root < b.root || (a.root == b.root && a.chain <= b.chain),
            (Some(_), None) => true,
            (None, _) => false,
        };
        let ghost before = merged.entries@;
        if take_left {
            if let Some(entry) = left_entry {
                assert(l[i as int].nfts >= 0);
                merged.write(entry);
                proof {
                    assert(l.take(i + 1) =~= l.take(i as int).push(entry));
                    assert forall|weight: spec_fn(SummaryEntry) -> nat| #[trigger]
                        summary::tally(merged.entries@, weight) == summary::tally(
                            l.take(i + 1),
                            weight,
                        ) + summary::tally(r.take(j as int), weight) by {
                        summary::lemma_tally_push(before, entry, weight);
                        summary::lemma_tally_push(l.take(i as int), entry, weight);
                        assert(summary::tally(before, weight) == summary::tally(
                            l.take(i as int),
                            weight,
                        ) + summary::tally(r.take(j as int), weight));
                    }
                    if i + 1 < l.len() {
                        assert(l[i as int].precedes(l[i + 1]));
                    }
                }
                i = i + 1;
                left_entry = left.read(i);
            }
        } else {
            if let Some(entry) = right_entry {
                assert(r[j as int].nfts >= 0);
                merged.write(entry);
                proof {
                    assert(r.take(j + 1) =~= r.take(j as int).push(entry));
                    assert forall|weight: spec_fn(SummaryEntry) -> nat| #[trigger]
                        summary::tally(merged.entries@, weight) == summary::tally(
                            l.take(i as int),
                            weight,
                        ) + summary::tally(r.take(j + 1), weight) by {
                        summary::lemma_tally_push(before, entry, weight);
                        summary::lemma_tally_push(r.take(j as int), entry, weight);
                        assert(summary::tally(before, weight) == summary::tally(
                            l.take(i as int),
                            weight,
                        ) + summary::tally(r.take(j as int), weight));
                    }
                    if j + 1 < r.len() {
                        assert(r[j as int].precedes(r[j + 1]));
                    }
                }
                j = j + 1;
                right_entry = right.read(j);
            }
        }
    }
    proof {
        assert(l.take(i as int) =~= l);
        assert(r.take(j as int) =~= r);
        assert forall|weight: spec_fn(SummaryEntry) -> nat| #[trigger]
            summary::tally(l + r, weight) == summary::tally(merged.entries@, weight) by {
            lemma_tally_concat(l, r, weight);
            assert(summary::tally(merged.entries@, weight) == summary::tally(
                l.take(i as int),
                weight,
            ) + summary::tally(r.take(j as int), weight));
        }
    }
    merged
}

/// The entries of the runs, one after the other.
pub open spec fn all_entries(runs: Seq<SummaryRun>) -> Seq<SummaryEntry>
    decreases runs.len(),
{
    if runs.len() == 0 {
        Seq::empty()
    } else {
        all_entries(runs.drop_last()) + runs.last().entries@
    }
}

/// The runs are stored in order.
pub open spec fn are_runs(runs: Seq<SummaryRun>) -> bool {
    forall|k: int| 0 <= k < runs.len() ==> (#[trigger] runs[k]).wf()
}

/// Adding a run whose entries count like `more` counts like adding `more`.
pub proof fn lemma_add_run(
    runs: Seq<SummaryRun>,
    run: SummaryRun,
    counted: Seq<SummaryEntry>,
    more: Seq<SummaryEntry>,
)
    requires
        summary::same_tallies(counted, all_entries(runs)),
        summary::same_tallies(more, run.entries@),
    ensures
        summary::same_tallies(counted + more, all_entries(runs.push(run))),
{
    assert(runs.push(run).drop_last() =~= runs);
    assert forall|weight: spec_fn(SummaryEntry) -> nat| #[trigger]
        summary::tally(counted + more, weight) == summary::tally(
            all_entries(runs.push(run)),
            weight,
        ) by {
        lemma_tally_concat(counted, more, weight);
        lemma_tally_concat(all_entries(runs), run.entries@, weight);
        assert(summary::tally(counted, weight) == summary::tally(all_entries(runs), weight));
        assert(summary::tally(more, weight) == summary::tally(run.entries@, weight));
    }
}

/// Merges runs two by two until one is left.
#[verifier::loop_isolation(false)]
pub fn merge_all_runs(runs: Vec<SummaryRun>) -> (merged: SummaryRun)
    requires
        are_runs(runs@),
        runs@.len() > 0,
    ensures
        merged.wf(),
        summary::same_tallies(all_entries(runs@), merged.entries@),
{
    let ghost start = all_entries(runs@);
    let mut runs = runs;
    while runs.len() > 1
        invariant
            are_runs(runs@),
            runs@.len() > 0,
            summary::same_tallies(start, all_entries(runs@)),
        decreases runs.len(),
    {
        let mut next: Vec<SummaryRun> = Vec::new();
        let ghost count = runs@.len();
        proof {
            assert(all_entries(runs@) + all_entries(next@) =~= all_entries(runs@));
        }
        while runs.len() > 0
            invariant
                are_runs(runs@),
                are_runs(next@),
                runs@.len() + next@.len() * 2 <= count + 1,
                next@.len() == 0 ==> runs@.len() == count,
                runs@.len() > 0 ==> runs@.len() + next@.len() * 2 == count,
                summary::same_tallies(start, all_entries(runs@) + all_entries(next@)),
            decreases runs.len(),
        {
            let ghost first = runs@;
            let ghost before = next@;
            let right = match runs.pop() {
                Some(run) => run,
                None => {
                    assert(false);
                    return SummaryRun::new();
                },
            };
            assert(first[first.len() - 1] == right);
            match runs.pop() {
                Some(left) => {
                    let merged = merge_summary_runs(&left, &right);
                    proof {
                        assert(first.drop_last()[first.len() - 2] == left);
                        let both = left.entries@ + right.entries@;
                        assert(first.drop_last().drop_last() =~= runs@);
                        let rest = all_entries(runs@);
                        assert(first.drop_last().last() == left);
                        assert(all_entries(first.drop_last()) == rest + left.entries@);
                        assert(all_entries(first) == all_entries(first.drop_last())
                            + right.entries@);
                        assert(rest + left.entries@ + right.entries@ =~= rest + both);
                        lemma_move_run(start, runs@, both, before, merged);
                    }
                    next.push(merged);
                },
                None => {
                    proof {
                        assert(first.drop_last() =~= runs@);
                        lemma_move_run(start, runs@, right.entries@, before, right);
                    }
                    next.push(right);
                },
            }
        }
        assert(all_entries(runs@) + all_entries(next@) =~= all_entries(next@));
        runs = next;
    }
    let ghost last = runs@;
    match runs.pop() {
        Some(run) => {
            proof {
                assert(last.drop_last() =~= Seq::<SummaryRun>::empty());
                assert(last.last() == run);
                assert(all_entries(last) == all_entries(last.drop_last()) + run.entries@);
                assert(Seq::<SummaryEntry>::empty() + run.entries@ =~= run.entries@);
            }
            run
        },
        None => {
            assert(false);
            SummaryRun::new()
        },
    }
}

/// Entries that leave the one list and enter the other, in any order, count as before.
proof fn lemma_move_run(
    start: Seq<SummaryEntry>,
    rest: Seq<SummaryRun>,
    moved: Seq<SummaryEntry>,
    next: Seq<SummaryRun>,
    run: SummaryRun,
)
    requires
        summary::same_tallies(start, all_entries(rest) + moved + all_entries(next)),
        summary::same_tallies(moved, run.entries@),
    ensures
        summary::same_tallies(start, all_entries(rest) + all_entries(next.push(run))),
{
    assert(next.push(run).drop_last() =~= next);
    assert forall|weight: spec_fn(SummaryEntry) -> nat| #[trigger]
        summary::tally(start, weight) == summary::tally(
            all_entries(rest) + all_entries(next.push(run)),
            weight,
        ) by {
        lemma_tally_concat(all_entries(rest) + moved, all_entries(next), weight);
        lemma_tally_concat(all_entries(rest), moved, weight);
        lemma_tally_concat(all_entries(rest), all_entries(next.push(run)), weight);
        lemma_tally_concat(all_entries(next), run.entries@, weight);
        assert(summary::tally(moved, weight) == summary::tally(run.entries@, weight));
    }
}

} // verus!
