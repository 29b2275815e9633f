//! The worker-pool dispatch protocol, as a state machine.
//!
//! One slot per worker.  The dispatcher hands an accepted connection to an
//! idle slot and must then wait for that worker's acknowledgment before it
//! hands off again; the worker acknowledges, processes, and returns to idle.
//! The pool state machine enforces the two load-bearing invariants of the
//! design: a connection is assigned to exactly one worker
//! ([`lemma_no_double_assignment`]), and no assignment is possible while no
//! worker is idle — the accept loop stalls instead of queueing
//! ([`Pool::first_idle`]).
//!
//! The caller performs the channel sends, acknowledgment waits and socket I/O
//! around these transitions; every decision is made here.

use vstd::prelude::*;

verus! {

/// One worker slot, as the dispatcher sees it.
#[derive(Clone, Copy, Debug, PartialEq, Eq, Structural)]
pub enum SlotState {
    /// The worker's readiness flag is up; it waits on its handoff channel.
    Idle,
    /// A connection was sent on the handoff channel and its acknowledgment
    /// is still outstanding.
    Handed { conn: u64 },
    /// The worker acknowledged and is processing the connection.
    Busy { conn: u64 },
    /// The handoff channel is closed; the worker has wound down.
    Stopped,
}

/// Does slot state `s` hold connection `c`, handed or busy?
pub open spec fn holds(s: SlotState, c: u64) -> bool {
    match s {
        SlotState::Handed { conn } => conn == c,
        SlotState::Busy { conn } => conn == c,
        _ => false,
    }
}

pub open spec fn occupied(s: SlotState) -> bool {
    s is Handed || s is Busy
}

pub open spec fn conn_of(s: SlotState) -> u64 {
    match s {
        SlotState::Handed { conn } => conn,
        SlotState::Busy { conn } => conn,
        _ => 0,
    }
}

/// The dispatcher's pool: one slot per worker, and a counter that issues
/// each accepted connection a fresh identity.
#[derive(Debug)]
pub struct Pool {
    slots: Vec<SlotState>,
    next_conn: u64,
}

impl Pool {
    /// Validity of a pool state: every held connection was issued, no two
    /// slots hold the same connection, and at most one handoff awaits its
    /// acknowledgment at a time.
    #[verifier::type_invariant]
    pub closed spec fn wf(&self) -> bool {
        &&& forall|j: int|
            0 <= j < self.slots@.len() && occupied(#[trigger] self.slots@[j]) ==> conn_of(
                self.slots@[j],
            ) < self.next_conn
        &&& forall|j: int, k: int|
            0 <= j < self.slots@.len() && 0 <= k < self.slots@.len() && j != k && occupied(
                #[trigger] self.slots@[j],
            ) && occupied(#[trigger] self.slots@[k]) ==> conn_of(self.slots@[j]) != conn_of(
                self.slots@[k],
            )
        &&& forall|j: int, k: int|
            0 <= j < self.slots@.len() && 0 <= k < self.slots@.len() && (#[trigger] self.slots@[j])
                is Handed && (#[trigger] self.slots@[k]) is Handed ==> j == k
    }

    /// The slot states, dispatcher's view.
    pub closed spec fn slots_model(&self) -> Seq<SlotState> {
        self.slots@
    }

    /// How many connection identities have been issued so far.
    pub closed spec fn issued(&self) -> u64 {
        self.next_conn
    }

    /// A pool of `n` idle workers that has served nothing yet.
    pub fn new(n: usize) -> (p: Pool)
        ensures
            p.slots_model().len() == n,
            forall|j: int| 0 <= j < n ==> p.slots_model()[j] is Idle,
            p.issued() == 0,
    {
        let mut slots: Vec<SlotState> = Vec::new();
        let mut i: usize = 0;
        while i < n
            invariant
                i <= n,
                slots@.len() == i,
                forall|j: int| 0 <= j < i ==> slots@[j] is Idle,
            decreases n - i,
        {
            slots.push(SlotState::Idle);
            i = i + 1;
        }
        Pool { slots, next_conn: 0 }
    }

    pub fn slot_count(&self) -> (n: usize)
        ensures
            n == self.slots_model().len(),
    {
        self.slots.len()
    }

    /// The state of slot `i`, when there is one.
    pub fn state_of(&self, i: usize) -> (s: Option<SlotState>)
        ensures
            s == (if i < self.slots_model().len() {
                Some(self.slots_model()[i as int])
            } else {
                None::<SlotState>
            }),
    {
        if i < self.slots.len() {
            Some(self.slots[i])
        } else {
            None
        }
    }

    /// The slot the dispatcher picks for the next handoff: the first idle
    /// one, scanned in fixed order.  Yields nothing exactly when no worker is
    /// idle — then the accept loop must stall, which is the designed
    /// backpressure: in-flight work stays bounded by the pool size.
    pub fn first_idle(&self) -> (r: Option<usize>)
        ensures
            match r {
                Some(i) => {
                    &&& i < self.slots_model().len()
                    &&& self.slots_model()[i as int] is Idle
                    &&& forall|j: int| 0 <= j < i ==> !((#[trigger] self.slots_model()[j]) is Idle)
                },
                None => forall|j: int|
                    0 <= j < self.slots_model().len() ==> !((#[trigger] self.slots_model()[j])
                        is Idle),
            },
    {
        let n = self.slots.len();
        let mut i: usize = 0;
        while i < n
            invariant
                i <= n,
                n == self.slots_model().len(),
                forall|j: int| 0 <= j < i ==> !((#[trigger] self.slots_model()[j]) is Idle),
            decreases n - i,
        {
            if matches!(self.slots[i], SlotState::Idle) {
                return Some(i);
            }
            i = i + 1;
        }
        None
    }

    /// Hand the next accepted connection to slot `i`.  Succeeds exactly when
    /// the slot exists and is idle, no other handoff is awaiting its
    /// acknowledgment, and an identity is still available; the connection
    /// then goes to slot `i` and to no other slot.
    pub fn hand_off(&mut self, i: usize) -> (r: Option<u64>)
        ensures
            match r {
                Some(c) => {
                    &&& i < old(self).slots_model().len()
                    &&& old(self).slots_model()[i as int] is Idle
                    &&& forall|j: int|
                        0 <= j < old(self).slots_model().len() ==> !((
                        #[trigger] old(self).slots_model()[j]) is Handed)
                    &&& old(self).issued() < u64::MAX
                    &&& c == old(self).issued()
                    &&& final(self).slots_model() == old(self).slots_model().update(
                        i as int,
                        SlotState::Handed { conn: c },
                    )
                    &&& final(self).issued() == c + 1
                    &&& holds(final(self).slots_model()[i as int], c)
                    &&& forall|j: int|
                        0 <= j < final(self).slots_model().len() && j != i ==> !holds(
                            #[trigger] final(self).slots_model()[j],
                            c,
                        )
                },
                None => {
                    &&& final(self).slots_model() == old(self).slots_model()
                    &&& final(self).issued() == old(self).issued()
                    &&& !({
                        &&& i < old(self).slots_model().len()
                        &&& old(self).slots_model()[i as int] is Idle
                        &&& forall|j: int|
                            0 <= j < old(self).slots_model().len() ==> !((
                            #[trigger] old(self).slots_model()[j]) is Handed)
                        &&& old(self).issued() < u64::MAX
                    })
                },
            },
    {
        proof {
            use_type_invariant(&*self);
        }
        let n = self.slots.len();
        if i >= n {
            return None;
        }
        if !matches!(self.slots[i], SlotState::Idle) {
            return None;
        }
        if self.next_conn == u64::MAX {
            return None;
        }
        let mut j: usize = 0;
        while j < n
            invariant
                j <= n,
                n == self.slots_model().len(),
                forall|k: int| 0 <= k < j ==> !((#[trigger] self.slots_model()[k]) is Handed),
            decreases n - j,
        {
            if matches!(self.slots[j], SlotState::Handed { .. }) {
                return None;
            }
            j = j + 1;
        }
        let c = self.next_conn;
        let ghost old_slots = self.slots@;
        let mut slots: Vec<SlotState> = Vec::new();
        core::mem::swap(&mut slots, &mut self.slots);
        let target = vstd::std_specs::vec::vec_index_mut(&mut slots, i);
        *target = SlotState::Handed { conn: c };
        proof {
            assert(slots@ =~= old_slots.update(i as int, SlotState::Handed { conn: c }));
        }
        *self = Pool { slots, next_conn: c + 1 };
        Some(c)
    }

    /// Record the acknowledgment of the handoff to slot `i`: the worker has
    /// dropped its readiness flag and owns the connection.  Succeeds exactly
    /// when that slot awaits an acknowledgment.
    pub fn acknowledge(&mut self, i: usize) -> (r: bool)
        ensures
            r == (i < old(self).slots_model().len() && old(self).slots_model()[i as int]
                is Handed),
            r ==> final(self).slots_model() == old(self).slots_model().update(
                i as int,
                SlotState::Busy { conn: conn_of(old(self).slots_model()[i as int]) },
            ),
            !r ==> final(self).slots_model() == old(self).slots_model(),
            final(self).issued() == old(self).issued(),
    {
        proof {
            use_type_invariant(&*self);
        }
        if i >= self.slots.len() {
            return false;
        }
        let si = self.slots[i];
        match si {
            SlotState::Handed { conn } => {
                let ghost old_slots = self.slots@;
                let mut slots: Vec<SlotState> = Vec::new();
                core::mem::swap(&mut slots, &mut self.slots);
                let target = vstd::std_specs::vec::vec_index_mut(&mut slots, i);
                *target = SlotState::Busy { conn };
                proof {
                    assert(slots@ =~= old_slots.update(i as int, SlotState::Busy { conn }));
                }
                let next = self.next_conn;
                *self = Pool { slots, next_conn: next };
                true
            },
            _ => false,
        }
    }

    /// The worker of slot `i` finished its connection and raised its
    /// readiness flag again.  Succeeds exactly when that slot was busy.
    pub fn finish(&mut self, i: usize) -> (r: bool)
        ensures
            r == (i < old(self).slots_model().len() && old(self).slots_model()[i as int] is Busy),
            r ==> final(self).slots_model() == old(self).slots_model().update(
                i as int,
                SlotState::Idle,
            ),
            !r ==> final(self).slots_model() == old(self).slots_model(),
            final(self).issued() == old(self).issued(),
    {
        proof {
            use_type_invariant(&*self);
        }
        if i >= self.slots.len() {
            return false;
        }
        if matches!(self.slots[i], SlotState::Busy { .. }) {
            let ghost old_slots = self.slots@;
            let mut slots: Vec<SlotState> = Vec::new();
            core::mem::swap(&mut slots, &mut self.slots);
            let target = vstd::std_specs::vec::vec_index_mut(&mut slots, i);
            *target = SlotState::Idle;
            proof {
                assert(slots@ =~= old_slots.update(i as int, SlotState::Idle));
            }
            let next = self.next_conn;
            *self = Pool { slots, next_conn: next };
            true
        } else {
            false
        }
    }

    /// Close the handoff channel of the idle worker in slot `i`: graceful
    /// shutdown.  Succeeds exactly when that slot was idle.
    pub fn close(&mut self, i: usize) -> (r: bool)
        ensures
            r == (i < old(self).slots_model().len() && old(self).slots_model()[i as int] is Idle),
            r ==> final(self).slots_model() == old(self).slots_model().update(
                i as int,
                SlotState::Stopped,
            ),
            !r ==> final(self).slots_model() == old(self).slots_model(),
            final(self).issued() == old(self).issued(),
    {
        proof {
            use_type_invariant(&*self);
        }
        if i >= self.slots.len() {
            return false;
        }
        if matches!(self.slots[i], SlotState::Idle) {
            let ghost old_slots = self.slots@;
            let mut slots: Vec<SlotState> = Vec::new();
            core::mem::swap(&mut slots, &mut self.slots);
            let target = vstd::std_specs::vec::vec_index_mut(&mut slots, i);
            *target = SlotState::Stopped;
            proof {
                assert(slots@ =~= old_slots.update(i as int, SlotState::Stopped));
            }
            let next = self.next_conn;
            *self = Pool { slots, next_conn: next };
            true
        } else {
            false
        }
    }
}

/// No double assignment: in every reachable pool state, a connection is held
/// by at most one slot, counting both unacknowledged handoffs and busy
/// workers.
pub proof fn lemma_no_double_assignment(p: &Pool, j: int, k: int, c: u64)
    requires
        p.wf(),
        0 <= j < p.slots_model().len(),
        0 <= k < p.slots_model().len(),
        holds(p.slots_model()[j], c),
        holds(p.slots_model()[k], c),
    ensures
        j == k,
{
}

/// Single handoff in flight: in every reachable pool state, at most one slot
/// awaits its acknowledgment — the dispatcher blocks on the acknowledgment
/// before it hands off again.
pub proof fn lemma_single_handoff(p: &Pool, j: int, k: int)
    requires
        p.wf(),
        0 <= j < p.slots_model().len(),
        0 <= k < p.slots_model().len(),
        p.slots_model()[j] is Handed,
        p.slots_model()[k] is Handed,
    ensures
        j == k,
{
}

} // verus!
