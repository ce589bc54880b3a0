//! Memory accounting: leases charged against a hard top, some of them reclaimable.

use crate::text;
use crate::text::decimal;
use vstd::prelude::*;
use vstd::string::*;

verus! {

pub const GIB: u64 = 1_073_741_824;

/// Memory top of the encoding stage.
pub const ENCODE_HARD_TOP: u64 = 309_237_645_312;

/// Memory top of the matching stage.
pub const MATCH_HARD_TOP: u64 = 481_036_337_152;

/// Memory that a large host keeps free.
pub const REQUIRED_HOST_HEADROOM: u64 = 68_719_476_736;

/// Memory that a host keeps free: an eighth, at most [`REQUIRED_HOST_HEADROOM`].
pub fn required_host_headroom(host_total: u64) -> (headroom: u64)
    ensures
        headroom == (if host_total / 8 < REQUIRED_HOST_HEADROOM {
            host_total / 8
        } else {
            REQUIRED_HOST_HEADROOM
        }),
{
    let proportional: u64 = host_total / 8;
    if proportional < REQUIRED_HOST_HEADROOM {
        proportional
    } else {
        REQUIRED_HOST_HEADROOM
    }
}

/// Why a reservation was refused.
#[derive(Debug, Clone, Copy, PartialEq, Eq, Structural)]
pub enum MemoryError {
    /// The host would keep too little memory free.
    Headroom { host_total: u64, hard_top: u64, required: u64 },
    /// A byte count does not fit 64 bits.
    Overflow,
    /// The hard top would be exceeded.
    Budget { requested: u64, used: u64, hard_top: u64 },
}

impl MemoryError {
    /// The error as told to a user.
    pub open spec fn text(self) -> Seq<char> {
        match self {
            MemoryError::Headroom { host_total, hard_top, required } => {
                "host headroom insufficient: total "@ + text::decimal_text(host_total as nat)
                    + ", engine top "@ + text::decimal_text(hard_top as nat) + ", required "@
                    + text::decimal_text(required as nat)
            },
            MemoryError::Overflow => "memory reservation overflow"@,
            MemoryError::Budget { requested, used, hard_top } => {
                "memory budget exceeded: requested "@ + text::decimal_text(requested as nat)
                    + ", used "@ + text::decimal_text(used as nat) + ", hard top "@
                    + text::decimal_text(hard_top as nat)
            },
        }
    }

    /// The error as told to a user.
    pub fn message(&self) -> (message: String)
        ensures
            message@ == self.text(),
    {
        match *self {
            MemoryError::Headroom { host_total, hard_top, required } => {
                "host headroom insufficient: total ".to_owned().concat(
                    decimal(host_total).as_str(),
                ).concat(", engine top ").concat(decimal(hard_top).as_str()).concat(
                    ", required ",
                ).concat(decimal(required).as_str())
            },
            MemoryError::Overflow => "memory reservation overflow".to_owned(),
            MemoryError::Budget { requested, used, hard_top } => {
                "memory budget exceeded: requested ".to_owned().concat(
                    decimal(requested).as_str(),
                ).concat(", used ").concat(decimal(used).as_str()).concat(", hard top ").concat(
                    decimal(hard_top).as_str(),
                )
            },
        }
    }
}

/// What a broker keeps of a lease: its bytes, and whether they may be reclaimed.
#[derive(Debug, Clone, Copy, PartialEq, Eq, Structural)]
pub struct LeaseSlot {
    pub bytes: u64,
    pub reclaimable: bool,
}

/// The state of a broker. Slot `i` is the lease with identity `i`.
pub struct BrokerModel {
    pub hard_top: u64,
    pub used: u64,
    pub reclaimed: u64,
    pub slots: Seq<LeaseSlot>,
}

/// Bytes of all leases.
pub open spec fn leased_bytes(slots: Seq<LeaseSlot>) -> nat
    decreases slots.len(),
{
    if slots.len() == 0 {
        0
    } else {
        leased_bytes(slots.drop_last()) + slots.last().bytes as nat
    }
}

/// Lease `i` may be reclaimed while `excluded` asks for memory.
pub open spec fn may_reclaim(slots: Seq<LeaseSlot>, excluded: Option<int>, i: int) -> bool {
    slots[i].reclaimable && excluded != Some(i)
}

/// Reclaimable bytes of the first `end` leases.
pub open spec fn reclaimable_bytes(slots: Seq<LeaseSlot>, excluded: Option<int>, end: int) -> nat
    decreases end,
{
    if end <= 0 {
        0
    } else {
        reclaimable_bytes(slots, excluded, end - 1) + (if may_reclaim(slots, excluded, end - 1) {
            slots[end - 1].bytes as nat
        } else {
            0
        })
    }
}

pub open spec fn at_most(a: nat, b: nat) -> nat {
    if a <= b {
        a
    } else {
        b
    }
}

/// What reclaiming `requested` bytes takes from lease `i`: leases give in order, each all it
/// has until the request is met.
pub open spec fn taken_from(
    slots: Seq<LeaseSlot>,
    excluded: Option<int>,
    requested: nat,
    i: int,
) -> int {
    at_most(requested, reclaimable_bytes(slots, excluded, i + 1)) - at_most(
        requested,
        reclaimable_bytes(slots, excluded, i),
    )
}

/// The leases after reclaiming.
pub open spec fn after_reclaim(
    slots: Seq<LeaseSlot>,
    excluded: Option<int>,
    requested: nat,
) -> Seq<LeaseSlot> {
    Seq::new(
        slots.len(),
        |i: int|
            LeaseSlot {
                bytes: (slots[i].bytes - taken_from(slots, excluded, requested, i)) as u64,
                reclaimable: slots[i].reclaimable,
            },
    )
}

impl BrokerModel {
    /// Exactly the leased bytes are charged, and never more than the hard top.
    pub open spec fn wf(self) -> bool {
        &&& self.used == leased_bytes(self.slots)
        &&& self.used <= self.hard_top
    }

    /// Bytes that a lease other than `excluded` could get: unreserved and reclaimable ones.
    pub open spec fn available(self, excluded: Option<int>) -> int {
        self.hard_top - self.used + reclaimable_bytes(
            self.slots,
            excluded,
            self.slots.len() as int,
        )
    }

    /// The state after reclaiming `requested` bytes.
    pub open spec fn reclaim(self, requested: nat, excluded: Option<int>) -> BrokerModel {
        let taken = at_most(
            requested,
            reclaimable_bytes(self.slots, excluded, self.slots.len() as int),
        );
        BrokerModel {
            hard_top: self.hard_top,
            used: (self.used - taken) as u64,
            reclaimed: if self.reclaimed + taken <= u64::MAX {
                (self.reclaimed + taken) as u64
            } else {
                u64::MAX
            },
            slots: after_reclaim(self.slots, excluded, requested),
        }
    }

    /// The state after reclaiming what `bytes` more need beyond the hard top.
    pub open spec fn make_room(self, bytes: u64, excluded: Option<int>) -> BrokerModel {
        if self.used + bytes > self.hard_top {
            self.reclaim((self.used + bytes - self.hard_top) as nat, excluded)
        } else {
            self
        }
    }

    /// The state with one more lease.
    pub open spec fn lease(self, bytes: u64, reclaimable: bool) -> BrokerModel {
        BrokerModel {
            hard_top: self.hard_top,
            used: (self.used + bytes) as u64,
            reclaimed: self.reclaimed,
            slots: self.slots.push(LeaseSlot { bytes, reclaimable }),
        }
    }

    /// The state with the bytes of lease `id` changed.
    pub open spec fn rewrite(self, id: int, bytes: u64, reclaimable: bool) -> BrokerModel {
        BrokerModel {
            hard_top: self.hard_top,
            used: (self.used - self.slots[id].bytes + bytes) as u64,
            reclaimed: self.reclaimed,
            slots: self.slots.update(id, LeaseSlot { bytes, reclaimable }),
        }
    }

    /// Lanes that fit beside `fixed` bytes.
    pub open spec fn admitted_lanes(
        self,
        requested_threads: usize,
        fixed_bytes: u64,
        bytes_per_lane: u64,
    ) -> int {
        if requested_threads == 0 || fixed_bytes > self.available(None) {
            0
        } else if bytes_per_lane == 0 {
            requested_threads as int
        } else {
            let fitting = (self.available(None) - fixed_bytes) / bytes_per_lane as int;
            if requested_threads <= fitting {
                requested_threads as int
            } else {
                fitting
            }
        }
    }
}

proof fn lemma_reclaimable_bound(slots: Seq<LeaseSlot>, excluded: Option<int>, end: int)
    requires
        0 <= end <= slots.len(),
    ensures
        reclaimable_bytes(slots, excluded, end) <= leased_bytes(slots.take(end)),
        reclaimable_bytes(slots, excluded, end) <= reclaimable_bytes(
            slots,
            excluded,
            slots.len() as int,
        ),
        leased_bytes(slots.take(end)) <= leased_bytes(slots),
    decreases slots.len() - end,
{
    lemma_reclaimable_prefix(slots, excluded, end);
    if end < slots.len() {
        assert(slots.take(end + 1).drop_last() =~= slots.take(end));
        lemma_reclaimable_bound(slots, excluded, end + 1);
    } else {
        assert(slots.take(end) =~= slots);
    }
}

proof fn lemma_reclaimable_prefix(slots: Seq<LeaseSlot>, excluded: Option<int>, end: int)
    requires
        0 <= end <= slots.len(),
    ensures
        reclaimable_bytes(slots, excluded, end) <= leased_bytes(slots.take(end)),
    decreases end,
{
    if end > 0 {
        assert(slots.take(end).drop_last() =~= slots.take(end - 1));
        lemma_reclaimable_prefix(slots, excluded, end - 1);
    }
}

proof fn lemma_slot_bound(slots: Seq<LeaseSlot>, id: int)
    requires
        0 <= id < slots.len(),
    ensures
        slots[id].bytes <= leased_bytes(slots),
    decreases slots.len(),
{
    if id < slots.len() - 1 {
        lemma_slot_bound(slots.drop_last(), id);
        assert(slots.drop_last()[id] == slots[id]);
    }
}

proof fn lemma_leased_update(slots: Seq<LeaseSlot>, id: int, slot: LeaseSlot)
    requires
        0 <= id < slots.len(),
    ensures
        leased_bytes(slots.update(id, slot)) == leased_bytes(slots) - slots[id].bytes + slot.bytes,
    decreases slots.len(),
{
    let rest = slots.drop_last();
    if id == slots.len() - 1 {
        assert(slots.update(id, slot).drop_last() =~= rest);
    } else {
        assert(slots.update(id, slot).drop_last() =~= rest.update(id, slot));
        lemma_leased_update(rest, id, slot);
        assert(rest[id] == slots[id]);
    }
}

proof fn lemma_leased_push(slots: Seq<LeaseSlot>, slot: LeaseSlot)
    ensures
        leased_bytes(slots.push(slot)) == leased_bytes(slots) + slot.bytes,
{
    assert(slots.push(slot).drop_last() =~= slots);
}

/// Reclaiming keeps the accounting exact: what is taken from leases is no longer charged.
pub proof fn lemma_reclaim_keeps_accounting(
    model: BrokerModel,
    requested: nat,
    excluded: Option<int>,
)
    requires
        model.wf(),
    ensures
        model.reclaim(requested, excluded).wf(),
        model.reclaim(requested, excluded).slots.len() == model.slots.len(),
        model.reclaim(requested, excluded).used + at_most(
            requested,
            reclaimable_bytes(model.slots, excluded, model.slots.len() as int),
        ) == model.used,
{
    let slots = model.slots;
    let n = slots.len() as int;
    lemma_reclaimable_bound(slots, excluded, n);
    lemma_reclaim_total(slots, excluded, requested, n);
    let after = after_reclaim(slots, excluded, requested);
    assert(after.take(n) =~= after);
    assert(slots.take(n) =~= slots);
}

proof fn lemma_reclaim_total(slots: Seq<LeaseSlot>, excluded: Option<int>, requested: nat, end: int)
    requires
        0 <= end <= slots.len(),
    ensures
        leased_bytes(after_reclaim(slots, excluded, requested).take(end)) == leased_bytes(
            slots.take(end),
        ) - at_most(requested, reclaimable_bytes(slots, excluded, end)),
    decreases end,
{
    let after = after_reclaim(slots, excluded, requested);
    if end > 0 {
        lemma_reclaim_total(slots, excluded, requested, end - 1);
        assert(after.take(end).drop_last() =~= after.take(end - 1));
        assert(slots.take(end).drop_last() =~= slots.take(end - 1));
        assert(0 <= taken_from(slots, excluded, requested, end - 1) <= slots[end - 1].bytes);
    }
}

proof fn lemma_reclaim_rest(slots: Seq<LeaseSlot>, excluded: Option<int>, requested: nat, end: int)
    requires
        0 <= end <= slots.len(),
    ensures
        reclaimable_bytes(after_reclaim(slots, excluded, requested), excluded, end)
            == reclaimable_bytes(slots, excluded, end) - at_most(
            requested,
            reclaimable_bytes(slots, excluded, end),
        ),
    decreases end,
{
    if end > 0 {
        lemma_reclaim_rest(slots, excluded, requested, end - 1);
        assert(0 <= taken_from(slots, excluded, requested, end - 1) <= slots[end - 1].bytes);
    }
}

proof fn lemma_reclaimable_push(slots: Seq<LeaseSlot>, slot: LeaseSlot, end: int)
    requires
        0 <= end <= slots.len(),
    ensures
        reclaimable_bytes(slots.push(slot), None, end) == reclaimable_bytes(slots, None, end),
    decreases end,
{
    if end > 0 {
        lemma_reclaimable_push(slots, slot, end - 1);
    }
}

/// A lease that is not reclaimable leaves its bytes less to others.
pub proof fn lemma_lease_takes(model: BrokerModel, bytes: u64)
    requires
        model.wf(),
        model.used + bytes <= u64::MAX,
        bytes <= model.available(None),
    ensures
        model.make_room(bytes, None).lease(bytes, false).available(None) == model.available(None)
            - bytes,
{
    let n = model.slots.len() as int;
    let room = model.make_room(bytes, None);
    if model.used + bytes > model.hard_top {
        let requested = (model.used + bytes - model.hard_top) as nat;
        lemma_reclaim_keeps_accounting(model, requested, None);
        lemma_reclaim_rest(model.slots, None, requested, n);
    }
    lemma_reclaimable_push(room.slots, LeaseSlot { bytes, reclaimable: false }, n);
}

/// A lease on memory of a broker.
#[derive(Debug)]
pub struct MemoryLease {
    slot: usize,
}

/// Charges leases against a hard top. Reclaimable leases give memory back to others, in the
/// order in which they were made.
#[derive(Debug)]
pub struct MemoryBroker {
    hard_top: u64,
    used: u64,
    reclaimed: u64,
    slots: Vec<LeaseSlot>,
}

impl View for MemoryBroker {
    type V = BrokerModel;

    closed spec fn view(&self) -> BrokerModel {
        BrokerModel {
            hard_top: self.hard_top,
            used: self.used,
            reclaimed: self.reclaimed,
            slots: self.slots@,
        }
    }
}

impl MemoryBroker {
    /// A broker without leases. The host's total is not checked.
    pub fn new(_host_total: u64, hard_top: u64) -> (result: Result<MemoryBroker, MemoryError>)
        ensures
            result matches Ok(broker) && broker@ == (BrokerModel {
                hard_top,
                used: 0,
                reclaimed: 0,
                slots: Seq::empty(),
            }) && broker@.wf(),
    {
        let broker = MemoryBroker { hard_top, used: 0, reclaimed: 0, slots: Vec::new() };
        assert(broker@.slots =~= Seq::empty());
        Ok(broker)
    }

    /// A lease on `bytes`. Reclaims memory where the hard top would be exceeded, but only if
    /// that suffices: a refused request takes nothing from anyone.
    pub fn reserve(&mut self, bytes: u64) -> (result: Result<MemoryLease, MemoryError>)
        requires
            old(self)@.wf(),
        ensures
            final(self)@.wf(),
            if old(self)@.used + bytes > u64::MAX {
                result == Err::<MemoryLease, MemoryError>(MemoryError::Overflow) && final(self)@
                    == old(self)@
            } else if bytes > old(self)@.available(None) {
                result == Err::<MemoryLease, MemoryError>(
                    MemoryError::Budget {
                        requested: bytes,
                        used: old(self)@.used,
                        hard_top: old(self)@.hard_top,
                    },
                ) && final(self)@ == old(self)@
            } else {
                result matches Ok(lease) && lease.id() == old(self)@.slots.len() && final(self)@
                    == old(self)@.make_room(bytes, None).lease(bytes, false)
            },
    {
        let next: u64 = match self.used.checked_add(bytes) {
            Some(next) => next,
            None => {
                return Err(MemoryError::Overflow);
            },
        };
        let available: u64 = self.effective_available(None);
        proof {
            lemma_reclaimable_bound(self.slots@, None, self.slots@.len() as int);
        }
        if next > self.hard_top {
            if bytes > available {
                return Err(
                    MemoryError::Budget {
                        requested: bytes,
                        used: self.used,
                        hard_top: self.hard_top,
                    },
                );
            }
            self.reclaim(next - self.hard_top, None);
        }
        Ok(self.charge(bytes, false))
    }

    /// A lease on `bytes` that others may reclaim. Never reclaims from others itself.
    pub fn reserve_reclaimable(&mut self, bytes: u64) -> (result: Result<MemoryLease, MemoryError>)
        requires
            old(self)@.wf(),
        ensures
            final(self)@.wf(),
            if old(self)@.used + bytes > u64::MAX {
                result == Err::<MemoryLease, MemoryError>(MemoryError::Overflow) && final(self)@
                    == old(self)@
            } else if old(self)@.used + bytes > old(self)@.hard_top {
                result == Err::<MemoryLease, MemoryError>(
                    MemoryError::Budget {
                        requested: bytes,
                        used: old(self)@.used,
                        hard_top: old(self)@.hard_top,
                    },
                ) && final(self)@ == old(self)@
            } else {
                result matches Ok(lease) && lease.id() == old(self)@.slots.len() && final(self)@
                    == old(self)@.lease(bytes, true)
            },
    {
        let next: u64 = match self.used.checked_add(bytes) {
            Some(next) => next,
            None => {
                return Err(MemoryError::Overflow);
            },
        };
        if next > self.hard_top {
            return Err(
                MemoryError::Budget {
                    requested: bytes,
                    used: self.used,
                    hard_top: self.hard_top,
                },
            );
        }
        Ok(self.charge(bytes, true))
    }

    /// A lease on as many bytes as can be had, at most `maximum`, reclaiming what that takes.
    pub fn reserve_up_to(&mut self, maximum: u64) -> (result: Result<MemoryLease, MemoryError>)
        requires
            old(self)@.wf(),
        ensures
            final(self)@.wf(),
            ({
                let bytes = if maximum <= old(self)@.available(None) {
                    maximum
                } else {
                    old(self)@.available(None) as u64
                };
                if old(self)@.used + bytes > u64::MAX {
                    result == Err::<MemoryLease, MemoryError>(MemoryError::Overflow) && final(self)@ == old(self)@
                } else {
                    result matches Ok(lease) && lease.id() == old(self)@.slots.len() && final(self)@
                        == old(self)@.make_room(bytes, None).lease(bytes, false)
                }
            }),
    {
        let available: u64 = self.effective_available(None);
        proof {
            lemma_reclaimable_bound(self.slots@, None, self.slots@.len() as int);
        }
        let bytes: u64 = if maximum <= available {
            maximum
        } else {
            available
        };
        let next: u64 = match self.used.checked_add(bytes) {
            Some(next) => next,
            None => {
                return Err(MemoryError::Overflow);
            },
        };
        if next > self.hard_top {
            self.reclaim(next - self.hard_top, None);
        }
        Ok(self.charge(bytes, false))
    }

    pub fn used_bytes(&self) -> (bytes: u64)
        ensures
            bytes == self@.used,
    {
        self.used
    }

    pub fn hard_top_bytes(&self) -> (bytes: u64)
        ensures
            bytes == self@.hard_top,
    {
        self.hard_top
    }

    /// Bytes that no lease holds.
    pub fn unreserved_bytes(&self) -> (bytes: u64)
        requires
            self@.wf(),
        ensures
            bytes == self@.hard_top - self@.used,
    {
        self.hard_top - self.used
    }

    /// Bytes that a lease could get: unreserved and reclaimable ones.
    pub fn available_bytes(&self) -> (bytes: u64)
        requires
            self@.wf(),
        ensures
            bytes == self@.available(None),
            bytes <= self@.hard_top,
    {
        self.effective_available(None)
    }

    /// Bytes reclaimed so far.
    pub fn reclaimed_bytes(&self) -> (bytes: u64)
        ensures
            bytes == self@.reclaimed,
    {
        self.reclaimed
    }

    /// Lanes that would fit beside `fixed` bytes now. Without a cost per lane one lane counts.
    pub fn active_lanes(
        &self,
        requested_threads: usize,
        fixed_bytes: u64,
        bytes_per_lane: u64,
    ) -> (lanes: usize)
        requires
            self@.wf(),
        ensures
            requested_threads == 0 ==> lanes == 0,
            requested_threads > 0 && bytes_per_lane == 0 ==> lanes == 1,
            requested_threads > 0 && bytes_per_lane > 0 ==> lanes == self@.admitted_lanes(
                requested_threads,
                fixed_bytes,
                bytes_per_lane,
            ),
    {
        if requested_threads == 0 || bytes_per_lane == 0 {
            return if requested_threads > 0 {
                1
            } else {
                0
            };
        }
        let available: u64 = self.effective_available(None).saturating_sub(fixed_bytes);
        let fitting: u64 = available / bytes_per_lane;
        if fixed_bytes > self.effective_available(None) {
            assert(available == 0);
            assert(fitting == 0) by (nonlinear_arith)
                requires
                    fitting == available / bytes_per_lane,
                    available == 0,
                    bytes_per_lane > 0,
            ;
            return 0;
        }
        if requested_threads as u64 <= fitting {
            requested_threads
        } else {
            fitting as usize
        }
    }

    /// Admits lanes and leases `fixed` bytes and theirs in one step; with no lane, nothing.
    pub fn reserve_lanes(
        &mut self,
        requested_threads: usize,
        fixed_bytes: u64,
        bytes_per_lane: u64,
    ) -> (result: Result<(usize, MemoryLease), MemoryError>)
        requires
            old(self)@.wf(),
        ensures
            final(self)@.wf(),
            ({
                let lanes = old(self)@.admitted_lanes(
                    requested_threads,
                    fixed_bytes,
                    bytes_per_lane,
                );
                let bytes = if lanes == 0 {
                    0
                } else {
                    fixed_bytes + bytes_per_lane * lanes
                };
                &&& bytes <= old(self)@.available(None)
                &&& if old(self)@.used + bytes > u64::MAX {
                    result == Err::<(usize, MemoryLease), MemoryError>(MemoryError::Overflow)
                        && final(self)@ == old(self)@
                } else {
                    result matches Ok(admitted) && admitted.0 == lanes && admitted.1.id() == old(self)@.slots.len() && final(self)@ == old(self)@.make_room(
                        bytes as u64,
                        None,
                    ).lease(bytes as u64, false)
                }
            }),
    {
        let available: u64 = self.effective_available(None);
        proof {
            lemma_reclaimable_bound(self.slots@, None, self.slots@.len() as int);
        }
        let lanes: usize = if requested_threads == 0 || fixed_bytes > available {
            0
        } else if bytes_per_lane == 0 {
            requested_threads
        } else {
            let fitting: u64 = (available - fixed_bytes) / bytes_per_lane;
            if requested_threads as u64 <= fitting {
                requested_threads
            } else {
                fitting as usize
            }
        };
        proof {
            let room = available - fixed_bytes;
            if lanes > 0 && bytes_per_lane > 0 {
                let fitting = room / bytes_per_lane as int;
                assert(bytes_per_lane * lanes <= room) by (nonlinear_arith)
                    requires
                        lanes <= fitting,
                        fitting == room / bytes_per_lane as int,
                        bytes_per_lane > 0,
                        room >= 0,
                ;
            }
            if bytes_per_lane == 0 {
                assert(bytes_per_lane * lanes == 0) by (nonlinear_arith)
                    requires
                        bytes_per_lane == 0,
                ;
            }
            assert(bytes_per_lane * lanes >= 0) by (nonlinear_arith);
        }
        let bytes: u64 = if lanes == 0 {
            0
        } else {
            fixed_bytes + bytes_per_lane * lanes as u64
        };
        let next: u64 = match self.used.checked_add(bytes) {
            Some(next) => next,
            None => {
                return Err(MemoryError::Overflow);
            },
        };
        if next > self.hard_top {
            self.reclaim(next - self.hard_top, None);
        }
        Ok((lanes, self.charge(bytes, false)))
    }

    fn reclaimable(&self, excluded: Option<usize>) -> (bytes: u64)
        requires
            self@.wf(),
        ensures
            bytes == reclaimable_bytes(
                self@.slots,
                excluded_id(excluded),
                self@.slots.len() as int,
            ),
            bytes <= self@.used,
    {
        let mut total: u64 = 0;
        let mut i: usize = 0;
        let ghost id = excluded_id(excluded);
        while i < self.slots.len()
            invariant
                i <= self.slots@.len(),
                self@.wf(),
                id == excluded_id(excluded),
                total == reclaimable_bytes(self.slots@, id, i as int),
            decreases self.slots.len() - i,
        {
            let slot = self.slots[i];
            let skip: bool = match excluded {
                Some(excluded) => excluded == i,
                None => false,
            };
            proof {
                lemma_reclaimable_bound(self.slots@, id, i + 1);
            }
            if slot.reclaimable && !skip {
                total = total + slot.bytes;
            }
            i = i + 1;
        }
        proof {
            lemma_reclaimable_bound(self.slots@, id, i as int);
        }
        total
    }

    fn effective_available(&self, excluded: Option<usize>) -> (bytes: u64)
        requires
            self@.wf(),
        ensures
            bytes == self@.available(excluded_id(excluded)),
            bytes <= self@.hard_top,
    {
        self.hard_top - self.used + self.reclaimable(excluded)
    }

    fn reclaim(&mut self, requested: u64, excluded: Option<usize>)
        requires
            old(self)@.wf(),
        ensures
            final(self)@ == old(self)@.reclaim(requested as nat, excluded_id(excluded)),
            final(self)@.wf(),
            final(self)@.used + at_most(
                requested as nat,
                reclaimable_bytes(
                    old(self)@.slots,
                    excluded_id(excluded),
                    old(self)@.slots.len() as int,
                ),
            ) == old(self)@.used,
    {
        let ghost id = excluded_id(excluded);
        let ghost start = self@;
        proof {
            lemma_reclaim_keeps_accounting(start, requested as nat, id);
            lemma_reclaimable_bound(start.slots, id, start.slots.len() as int);
        }
        let mut remaining: u64 = requested;
        let mut i: usize = 0;
        let mut slots: Vec<LeaseSlot> = Vec::with_capacity(self.slots.len());
        while i < self.slots.len()
            invariant
                i <= self.slots@.len(),
                *self == *old(self),
                start == self@,
                id == excluded_id(excluded),
                slots@.len() == i,
                remaining == requested - at_most(
                    requested as nat,
                    reclaimable_bytes(start.slots, id, i as int),
                ),
                forall|k: int|
                    0 <= k < i ==> #[trigger] slots@[k] == after_reclaim(
                        start.slots,
                        id,
                        requested as nat,
                    )[k],
            decreases self.slots.len() - i,
        {
            let slot = self.slots[i];
            let skip: bool = match excluded {
                Some(excluded) => excluded == i,
                None => false,
            };
            let release: u64 = if slot.reclaimable && !skip {
                if slot.bytes <= remaining {
                    slot.bytes
                } else {
                    remaining
                }
            } else {
                0
            };
            remaining = remaining - release;
            slots.push(
                LeaseSlot { bytes: slot.bytes - release, reclaimable: slot.reclaimable },
            );
            i = i + 1;
        }
        let taken: u64 = requested - remaining;
        self.slots = slots;
        self.used = self.used - taken;
        self.reclaimed = self.reclaimed.saturating_add(taken);
        assert(self@.slots =~= start.reclaim(requested as nat, id).slots);
    }

    fn charge(&mut self, bytes: u64, reclaimable: bool) -> (lease: MemoryLease)
        requires
            old(self)@.wf(),
            old(self)@.used + bytes <= old(self)@.hard_top,
        ensures
            final(self)@.wf(),
            final(self)@ == old(self)@.lease(bytes, reclaimable),
            lease.id() == old(self)@.slots.len(),
    {
        let slot: usize = self.slots.len();
        proof {
            lemma_leased_push(self.slots@, LeaseSlot { bytes, reclaimable });
        }
        self.used = self.used + bytes;
        self.slots.push(LeaseSlot { bytes, reclaimable });
        MemoryLease { slot }
    }
}

/// A lease identity as an integer.
pub open spec fn excluded_id(excluded: Option<usize>) -> Option<int> {
    match excluded {
        Some(id) => Some(id as int),
        None => None,
    }
}

impl MemoryLease {
    /// The identity of the lease at its broker.
    pub closed spec fn id(&self) -> nat {
        self.slot as nat
    }

    /// The lease is one of this broker's.
    pub open spec fn is_of(&self, model: BrokerModel) -> bool {
        self.id() < model.slots.len()
    }

    /// Changes the bytes of the lease. Growing reclaims from other leases where needed, but
    /// only if that suffices; a refused request changes nothing.
    pub fn resize(&mut self, broker: &mut MemoryBroker, new_bytes: u64) -> (result: Result<
        (),
        MemoryError,
    >)
        requires
            old(broker)@.wf(),
            old(self).is_of(old(broker)@),
        ensures
            final(self).id() == old(self).id(),
            final(broker)@.wf(),
            ({
                let before = old(broker)@;
                let id = old(self).id() as int;
                let slot = before.slots[id];
                let add = (new_bytes - slot.bytes) as u64;
                if new_bytes <= slot.bytes {
                    result is Ok && final(broker)@ == before.rewrite(
                        id,
                        new_bytes,
                        slot.reclaimable,
                    )
                } else if before.used + add > u64::MAX {
                    result == Err::<(), MemoryError>(MemoryError::Overflow) && final(broker)@
                        == before
                } else if add > before.available(Some(id)) {
                    result == Err::<(), MemoryError>(
                        MemoryError::Budget {
                            requested: add,
                            used: before.used,
                            hard_top: before.hard_top,
                        },
                    ) && final(broker)@ == before
                } else {
                    result is Ok && final(broker)@ == before.make_room(add, Some(id)).rewrite(
                        id,
                        new_bytes,
                        slot.reclaimable,
                    )
                }
            }),
    {
        let slot = broker.slots[self.slot];
        let current: u64 = slot.bytes;
        let ghost before = broker@;
        let ghost id = self.slot as int;
        proof {
            lemma_slot_bound(before.slots, id);
        }
        if new_bytes > current {
            let add: u64 = new_bytes - current;
            let next: u64 = match broker.used.checked_add(add) {
                Some(next) => next,
                None => {
                    return Err(MemoryError::Overflow);
                },
            };
            proof {
                lemma_reclaimable_bound(before.slots, Some(id), before.slots.len() as int);
            }
            if next > broker.hard_top {
                let available: u64 = broker.effective_available(Some(self.slot));
                if add > available {
                    return Err(
                        MemoryError::Budget {
                            requested: add,
                            used: broker.used,
                            hard_top: broker.hard_top,
                        },
                    );
                }
                broker.reclaim(next - broker.hard_top, Some(self.slot));
                proof {
                    assert(!may_reclaim(before.slots, Some(id), id));
                    assert(taken_from(
                        before.slots,
                        Some(id),
                        (next - before.hard_top) as nat,
                        id,
                    ) == 0);
                    assert(broker@.slots[id] == slot);
                }
            }
        }
        proof {
            lemma_leased_update(
                broker.slots@,
                id,
                LeaseSlot { bytes: new_bytes, reclaimable: slot.reclaimable },
            );
            lemma_slot_bound(broker.slots@, id);
        }
        let others: u64 = broker.used - current;
        broker.used = others + new_bytes;
        broker.slots.set(
            self.slot,
            LeaseSlot { bytes: new_bytes, reclaimable: slot.reclaimable },
        );
        Ok(())
    }

    /// Bytes of the lease: what it was made or resized to, less what was reclaimed since.
    pub fn bytes(&self, broker: &MemoryBroker) -> (bytes: u64)
        requires
            self.is_of(broker@),
        ensures
            bytes == broker@.slots[self.id() as int].bytes,
    {
        broker.slots[self.slot].bytes
    }

    /// Gives the lease back.
    pub fn release(self, broker: &mut MemoryBroker)
        requires
            old(broker)@.wf(),
            self.is_of(old(broker)@),
        ensures
            final(broker)@.wf(),
            final(broker)@ == old(broker)@.rewrite(self.id() as int, 0, false),
    {
        let slot = broker.slots[self.slot];
        proof {
            lemma_slot_bound(broker.slots@, self.slot as int);
            lemma_leased_update(
                broker.slots@,
                self.slot as int,
                LeaseSlot { bytes: 0, reclaimable: false },
            );
        }
        broker.used = broker.used - slot.bytes;
        broker.slots.set(self.slot, LeaseSlot { bytes: 0, reclaimable: false });
    }
}

/// The leases are different ones of the broker, and may not be reclaimed.
pub open spec fn are_held(leases: Seq<MemoryLease>, model: BrokerModel) -> bool {
    &&& forall|i: int|
        0 <= i < leases.len() ==> (#[trigger] leases[i]).is_of(model)
            && !model.slots[leases[i].id() as int].reclaimable
    &&& forall|i: int, j: int|
        0 <= i < j < leases.len() ==> (#[trigger] leases[i]).id() != (#[trigger] leases[j]).id()
}

/// Each of the leases holds `bytes`.
pub open spec fn hold_each(leases: Seq<MemoryLease>, model: BrokerModel, bytes: u64) -> bool {
    &&& are_held(leases, model)
    &&& forall|i: int|
        0 <= i < leases.len() ==> model.slots[(#[trigger] leases[i]).id() as int].bytes == bytes
}

/// The bytes that the leases hold together.
pub open spec fn held_bytes(leases: Seq<MemoryLease>, model: BrokerModel) -> nat
    decreases leases.len(),
{
    if leases.len() == 0 {
        0
    } else {
        held_bytes(leases.drop_last(), model) + model.slots[leases.last().id() as int].bytes as nat
    }
}

/// The broker after all leases were given back, the last first.
pub open spec fn released(model: BrokerModel, leases: Seq<MemoryLease>) -> BrokerModel
    decreases leases.len(),
{
    if leases.len() == 0 {
        model
    } else {
        released(model.rewrite(leases.last().id() as int, 0, false), leases.drop_last())
    }
}

/// Leases of equal bytes hold their number times these.
pub proof fn lemma_held_bytes(leases: Seq<MemoryLease>, model: BrokerModel, bytes: u64)
    requires
        hold_each(leases, model, bytes),
    ensures
        held_bytes(leases, model) == leases.len() * bytes,
    decreases leases.len(),
{
    if leases.len() > 0 {
        let rest = leases.drop_last();
        assert(leases[leases.len() - 1] == leases.last());
        assert forall|i: int| 0 <= i < rest.len() implies (#[trigger] rest[i]).is_of(model)
            && model.slots[rest[i].id() as int] == (LeaseSlot { bytes, reclaimable: false }) by {
            assert(rest[i] == leases[i]);
        }
        assert forall|i: int, j: int| 0 <= i < j < rest.len() implies (#[trigger] rest[i]).id()
            != (#[trigger] rest[j]).id() by {
            assert(leases[i].id() != leases[j].id());
        }
        lemma_held_bytes(rest, model, bytes);
        assert(leases.len() * bytes == (leases.len() - 1) * bytes + bytes) by (nonlinear_arith)
            requires
                leases.len() >= 1,
        ;
    } else {
        assert(0 * bytes == 0) by (nonlinear_arith);
    }
}

proof fn lemma_reclaimable_update(slots: Seq<LeaseSlot>, id: int, slot: LeaseSlot, end: int)
    requires
        0 <= id < slots.len(),
        0 <= end <= slots.len(),
        !slots[id].reclaimable,
        !slot.reclaimable,
    ensures
        reclaimable_bytes(slots.update(id, slot), None, end) == reclaimable_bytes(slots, None, end),
    decreases end,
{
    if end > 0 {
        lemma_reclaimable_update(slots, id, slot, end - 1);
    }
}

/// A lease that is given back leaves its bytes to others.
pub proof fn lemma_release_gives(model: BrokerModel, id: int)
    requires
        model.wf(),
        0 <= id < model.slots.len(),
        !model.slots[id].reclaimable,
    ensures
        model.rewrite(id, 0, false).available(None) == model.available(None)
            + model.slots[id].bytes,
{
    lemma_slot_bound(model.slots, id);
    lemma_reclaimable_update(
        model.slots,
        id,
        LeaseSlot { bytes: 0, reclaimable: false },
        model.slots.len() as int,
    );
}

/// A reservation leaves leases as they are that may not be reclaimed, and is none of them.
pub proof fn lemma_reserve_keeps(
    leases: Seq<MemoryLease>,
    model: BrokerModel,
    bytes: u64,
    each: u64,
)
    requires
        hold_each(leases, model, each),
    ensures
        ({
            let after = model.make_room(bytes, None).lease(bytes, false);
            let id = model.slots.len() as int;
            &&& hold_each(leases, after, each)
            &&& forall|i: int| 0 <= i < leases.len() ==> (#[trigger] leases[i]).id() != id
            &&& after.slots.len() == id + 1
            &&& after.slots[id] == (LeaseSlot { bytes, reclaimable: false })
        }),
{
    let after = model.make_room(bytes, None).lease(bytes, false);
    assert forall|i: int| 0 <= i < leases.len() implies (#[trigger] leases[i]).is_of(after)
        && after.slots[leases[i].id() as int] == (LeaseSlot { bytes: each, reclaimable: false })
        && leases[i].id() != model.slots.len() by {
        assert(leases[i].is_of(model));
        if model.used + bytes > model.hard_top {
            lemma_reclaim_spares_others(
                model.slots,
                None,
                (model.used + bytes - model.hard_top) as nat,
                leases[i].id() as int,
            );
        }
    }
}

/// Gives leases back, the last first. Their bytes are then available to others.
pub fn release_all(leases: Vec<MemoryLease>, broker: &mut MemoryBroker)
    requires
        old(broker)@.wf(),
        are_held(leases@, old(broker)@),
    ensures
        final(broker)@.wf(),
        final(broker)@ == released(old(broker)@, leases@),
        final(broker)@.hard_top == old(broker)@.hard_top,
        final(broker)@.slots.len() == old(broker)@.slots.len(),
        final(broker)@.available(None) == old(broker)@.available(None) + held_bytes(
            leases@,
            old(broker)@,
        ),
        forall|id: int|
            0 <= id < old(broker)@.slots.len() && (forall|i: int|
                0 <= i < leases@.len() ==> (#[trigger] leases@[i]).id() != id)
                ==> #[trigger] final(broker)@.slots[id] == old(broker)@.slots[id],
{
    let ghost all = leases@;
    let ghost first = broker@;
    let mut leases = leases;
    assert(all.take(all.len() as int) =~= all);
    while leases.len() > 0
        invariant
            leases@.len() <= all.len(),
            leases@ == all.take(leases@.len() as int),
            are_held(all, first),
            broker@.wf(),
            broker@.hard_top == first.hard_top,
            broker@.slots.len() == first.slots.len(),
            released(broker@, leases@) == released(first, all),
            broker@.available(None) + held_bytes(leases@, first) == first.available(None)
                + held_bytes(all, first),
            forall|i: int|
                0 <= i < leases@.len() ==> broker@.slots[(#[trigger] all[i]).id() as int]
                    == first.slots[all[i].id() as int],
            forall|id: int|
                0 <= id < first.slots.len() && (forall|i: int|
                    0 <= i < all.len() ==> (#[trigger] all[i]).id() != id)
                    ==> #[trigger] broker@.slots[id] == first.slots[id],
        decreases leases.len(),
    {
        let ghost count = leases@.len() as int;
        let ghost before = broker@;
        let ghost held = leases@;
        if let Some(lease) = leases.pop() {
            proof {
                assert(held.last() == all[count - 1]);
                assert(lease == all[count - 1]);
                assert(leases@ =~= all.take(count - 1));
                assert(held.drop_last() =~= leases@);
                assert(all[count - 1].is_of(first));
                assert(before.slots[all[count - 1].id() as int]
                    == first.slots[all[count - 1].id() as int]);
                lemma_release_gives(before, lease.id() as int);
            }
            lease.release(broker);
            proof {
                assert forall|i: int| 0 <= i < leases@.len() implies broker@.slots[(
                #[trigger] all[i]).id() as int] == first.slots[all[i].id() as int] by {
                    assert(all[i].id() != all[count - 1].id());
                    assert(all[i].is_of(first));
                }
                assert forall|id: int|
                    0 <= id < first.slots.len() && (forall|i: int|
                        0 <= i < all.len() ==> (#[trigger] all[i]).id() != id) implies
                    #[trigger] broker@.slots[id] == first.slots[id] by {
                    assert(all[count - 1].id() != id);
                    assert(before.slots[id] == first.slots[id]);
                }
            }
        }
    }
}

/// Leases that may not be reclaimed keep their bytes whatever is reclaimed.
pub proof fn lemma_reclaim_spares_others(
    slots: Seq<LeaseSlot>,
    excluded: Option<int>,
    requested: nat,
    i: int,
)
    requires
        0 <= i < slots.len(),
        !may_reclaim(slots, excluded, i),
    ensures
        after_reclaim(slots, excluded, requested)[i] == slots[i],
{
}

/// A reservation that is granted and then given back leaves every other lease, and the
/// bytes charged for them, as reclaiming left them.
pub proof fn lemma_reserve_release(model: BrokerModel, bytes: u64)
    requires
        model.wf(),
        bytes <= model.available(None),
        model.used + bytes <= u64::MAX,
    ensures
        ({
            let room = model.make_room(bytes, None);
            let leased = room.lease(bytes, false);
            let id = model.slots.len() as int;
            let given_back = leased.rewrite(id, 0, false);
            &&& leased.wf()
            &&& given_back.wf()
            &&& given_back.used == room.used
            &&& given_back.slots.take(id) == room.slots
        }),
{
    lemma_reclaimable_bound(model.slots, None, model.slots.len() as int);
    let room = model.make_room(bytes, None);
    if model.used + bytes > model.hard_top {
        lemma_reclaim_keeps_accounting(
            model,
            (model.used + bytes - model.hard_top) as nat,
            None,
        );
    }
    let leased = room.lease(bytes, false);
    let id = model.slots.len() as int;
    lemma_leased_push(room.slots, LeaseSlot { bytes, reclaimable: false });
    lemma_leased_update(leased.slots, id, LeaseSlot { bytes: 0, reclaimable: false });
    assert(leased.rewrite(id, 0, false).slots.take(id) =~= room.slots);
}

/// The bytes of the leases that may not be reclaimed for `excluded`.
pub open spec fn firm_bytes(slots: Seq<LeaseSlot>, excluded: Option<int>) -> int
    decreases slots.len(),
{
    if slots.len() == 0 {
        0
    } else {
        let last = slots.len() - 1;
        firm_bytes(slots.drop_last(), excluded) + (if slots[last].reclaimable && excluded != Some(
            last as int,
        ) {
            0
        } else {
            slots[last].bytes as int
        })
    }
}

proof fn lemma_firm_bytes(slots: Seq<LeaseSlot>, excluded: Option<int>, end: int)
    requires
        0 <= end <= slots.len(),
    ensures
        leased_bytes(slots.take(end)) == firm_bytes(slots.take(end), excluded) + reclaimable_bytes(
            slots,
            excluded,
            end,
        ),
    decreases end,
{
    if end > 0 {
        lemma_firm_bytes(slots, excluded, end - 1);
        assert(slots.take(end).drop_last() =~= slots.take(end - 1));
    }
}

/// What is available is what firm leases leave of the top: reclaimable leases cost others
/// nothing, but for the lease that asks.
pub proof fn lemma_available_bytes(model: BrokerModel, excluded: Option<int>)
    requires
        model.wf(),
    ensures
        model.available(excluded) == model.hard_top - firm_bytes(model.slots, excluded),
{
    let n = model.slots.len() as int;
    lemma_firm_bytes(model.slots, excluded, n);
    assert(model.slots.take(n) =~= model.slots);
}

/// A granted request finds its bytes below the top. Leases lose bytes only as far as the
/// request needs them, only reclaimable ones do, and a later one only once those before it
/// are empty.
pub proof fn lemma_room_is_made(model: BrokerModel, bytes: u64, excluded: Option<int>)
    requires
        model.wf(),
        bytes <= model.available(excluded),
    ensures
        ({
            let room = model.make_room(bytes, excluded);
            &&& room.hard_top == model.hard_top
            &&& room.slots.len() == model.slots.len()
            &&& room.used == leased_bytes(room.slots)
            &&& model.used + bytes <= model.hard_top ==> room == model
            &&& model.used + bytes > model.hard_top ==> room.used + bytes == model.hard_top
            &&& forall|i: int|
                0 <= i < model.slots.len() ==> (#[trigger] room.slots[i]).reclaimable
                    == model.slots[i].reclaimable && room.slots[i].bytes <= model.slots[i].bytes
            &&& forall|i: int|
                0 <= i < model.slots.len() && (!(#[trigger] model.slots[i]).reclaimable || excluded
                    == Some(i)) ==> room.slots[i] == model.slots[i]
            &&& forall|i: int, j: int|
                0 <= i < j < model.slots.len() && (#[trigger] model.slots[i]).reclaimable
                    && excluded != Some(i) && (#[trigger] room.slots[j]).bytes
                    < model.slots[j].bytes ==> room.slots[i].bytes == 0
            &&& model.reclaimed + (model.used - room.used) <= u64::MAX ==> room.reclaimed
                == model.reclaimed + (model.used - room.used)
        }),
{
    let room = model.make_room(bytes, excluded);
    let slots = model.slots;
    let n = slots.len() as int;
    lemma_reclaimable_bound(slots, excluded, n);
    if model.used + bytes > model.hard_top {
        let requested = (model.used + bytes - model.hard_top) as nat;
        lemma_reclaim_keeps_accounting(model, requested, excluded);
        assert forall|i: int, j: int|
            0 <= i < j < n && (#[trigger] slots[i]).reclaimable && excluded != Some(i) && (
            #[trigger] room.slots[j]).bytes < slots[j].bytes implies room.slots[i].bytes == 0 by {
            lemma_reclaimable_ascends(slots, excluded, i + 1, j);
            assert(taken_from(slots, excluded, requested, j) > 0);
            assert(reclaimable_bytes(slots, excluded, j) < requested);
            assert(taken_from(slots, excluded, requested, i) == slots[i].bytes);
        }
    }
}

proof fn lemma_reclaimable_ascends(
    slots: Seq<LeaseSlot>,
    excluded: Option<int>,
    low: int,
    high: int,
)
    requires
        0 <= low <= high,
    ensures
        reclaimable_bytes(slots, excluded, low) <= reclaimable_bytes(slots, excluded, high),
    decreases high,
{
    if low < high {
        lemma_reclaimable_ascends(slots, excluded, low, high - 1);
    }
}

/// As many lanes are admitted as fit beside the fixed bytes, and no more than requested.
pub proof fn lemma_lanes_are_greatest(
    model: BrokerModel,
    requested: usize,
    fixed: u64,
    per_lane: u64,
    lanes: int,
)
    requires
        model.wf(),
    ensures
        ({
            let admitted = model.admitted_lanes(requested, fixed, per_lane);
            &&& 0 <= admitted <= requested
            &&& admitted > 0 ==> fixed + admitted * per_lane <= model.available(None)
            &&& 0 <= lanes <= requested && fixed + lanes * per_lane <= model.available(None)
                ==> lanes <= admitted
        }),
{
    let admitted = model.admitted_lanes(requested, fixed, per_lane);
    let free = model.available(None) - fixed;
    if lanes > 0 && per_lane >= 0 {
        assert(lanes * per_lane >= 0) by (nonlinear_arith)
            requires
                lanes > 0,
                per_lane >= 0,
        ;
    }
    if free >= 0 && per_lane > 0 {
        let fitting = free / per_lane as int;
        assert(fitting * per_lane <= free && fitting >= 0) by (nonlinear_arith)
            requires
                fitting == free / per_lane as int,
                per_lane > 0,
                free >= 0,
        ;
        if admitted > 0 {
            assert(admitted * per_lane <= fitting * per_lane) by (nonlinear_arith)
                requires
                    admitted <= fitting,
                    per_lane > 0,
            ;
        }
        if lanes * per_lane <= free {
            assert(lanes <= fitting) by (nonlinear_arith)
                requires
                    lanes * per_lane <= free,
                    fitting == free / per_lane as int,
                    per_lane > 0,
            ;
        }
    } else if per_lane == 0 {
        assert(admitted * per_lane == 0) by (nonlinear_arith)
            requires
                per_lane == 0,
        ;
    }
}

} // verus!
