//! The shared signals of a running search: the cancellation flag and the
//! pool of hit slots left. Other threads may change either at any time, so
//! nothing is known of a value read from them but that the flag or the pool
//! gave it; what a search does is stated for the case where every such
//! answer is the quiet one.

use std::sync::atomic::{AtomicBool, AtomicUsize, Ordering};
use vstd::prelude::*;

verus! {

/// Whether cancellation has been requested.
pub(crate) fn cancellation_requested(flag: &AtomicBool) -> bool {
    flag.load(Ordering::Relaxed)
}

/// Requests cancellation.
pub(crate) fn request_cancellation(flag: &AtomicBool) {
    flag.store(true, Ordering::Relaxed);
}

/// Number of hit slots still free.
pub(crate) fn slots_left(remaining: &AtomicUsize) -> usize {
    remaining.load(Ordering::Relaxed)
}

/// A pool of `slots` hit slots.
pub(crate) fn new_slot_pool(slots: usize) -> AtomicUsize {
    AtomicUsize::new(slots)
}

/// One slot fewer, or `None` when no slot is left.
pub fn decrement_slot(slots: usize) -> (next: Option<usize>)
    ensures
        slots > 0 ==> next == Some((slots - 1) as usize),
        slots == 0 ==> next is None,
{
    if slots > 0 {
        Some(slots - 1)
    } else {
        None
    }
}

/// Atomically takes one hit slot from the pool, through
/// `AtomicUsize::fetch_update` with [`decrement_slot`] as the update.
///
/// Nothing is claimed of the answer: other threads share the pool.
#[verifier::external_body]
pub(crate) fn try_take_hit_slot(remaining: &AtomicUsize) -> bool {
    remaining.fetch_update(Ordering::Relaxed, Ordering::Relaxed, decrement_slot).is_ok()
}

/// What a scan asks of the signals it shares with the rest of the search:
/// whether cancellation was requested, to take one hit slot from the shared
/// pool, whether the pool has no slot left, and to ask the others to stop.
#[derive(Clone, Copy, Debug, PartialEq, Eq, Structural)]
pub enum Signal {
    Cancelled,
    TakeSlot,
    NoSlotLeft,
    /// Ask the other scans to stop (the answer means nothing).
    RequestCancel,
}

/// The answer a signal gives when nobody cancels the search and its pool
/// never runs dry.
pub open spec fn quiet_answer(sig: Signal) -> bool {
    match sig {
        Signal::Cancelled => false,
        Signal::TakeSlot => true,
        Signal::NoSlotLeft => false,
        Signal::RequestCancel => true,
    }
}

/// The signals can be asked anything.
pub open spec fn signals_ready<S: Fn(Signal) -> bool>(s: S) -> bool {
    forall|sig: Signal| call_requires(s, (sig,))
}

/// The signals never interrupt a scan: no cancellation, and the pool
/// grants every slot asked for.
pub open spec fn signals_quiet<S: Fn(Signal) -> bool>(s: S) -> bool {
    forall|sig: Signal, r: bool| #[trigger] call_ensures(s, (sig,), r) ==> r == quiet_answer(sig)
}

/// Cancellation is seen at the first look.
pub open spec fn signals_cancelled<S: Fn(Signal) -> bool>(s: S) -> bool {
    forall|r: bool| #[trigger] call_ensures(s, (Signal::Cancelled,), r) ==> r
}

/// What the signal `sig` of a running search answers: a look at the flag
/// `cancelled` for `Cancelled`, an attempt to take a slot of `pool` for
/// `TakeSlot`, a look at `pool` for `NoSlotLeft`; a request to cancel is
/// always answered `true`.
pub closed spec fn shared_answer(cancelled: &AtomicBool, pool: &AtomicUsize, sig: Signal, r: bool) -> bool {
    match sig {
        Signal::Cancelled => call_ensures(cancellation_requested, (cancelled,), r),
        Signal::TakeSlot => call_ensures(try_take_hit_slot, (pool,), r),
        Signal::NoSlotLeft => exists|n: usize|
            #[trigger] call_ensures(slots_left, (pool,), n) && r == (n == 0),
        Signal::RequestCancel => r,
    }
}

/// Every look at the flag finds it unset.
pub closed spec fn flag_never_set(cancelled: &AtomicBool) -> bool {
    forall|r: bool| #[trigger] call_ensures(cancellation_requested, (cancelled,), r) ==> !r
}

/// Every look at the flag finds it set: the search was cancelled before it
/// began.
pub closed spec fn flag_always_set(cancelled: &AtomicBool) -> bool {
    forall|r: bool| #[trigger] call_ensures(cancellation_requested, (cancelled,), r) ==> r
}

/// No pool made with `slots` slots ever runs dry: every attempt to take a
/// slot of it succeeds and every look at it finds a slot left.
pub closed spec fn pools_never_dry(slots: usize) -> bool {
    forall|p: AtomicUsize| #[trigger] call_ensures(new_slot_pool, (slots,), p) ==> {
        &&& forall|r: bool| #[trigger] call_ensures(try_take_hit_slot, (&p,), r) ==> r
        &&& forall|n: usize| #[trigger] call_ensures(slots_left, (&p,), n) ==> n > 0
    }
}

/// While the flag stays unset and the pools made with `slots` slots never
/// run dry, a pool made with `slots` slots answers every signal quietly.
pub(crate) proof fn lemma_shared_answers_quiet(cancelled: &AtomicBool, pool: &AtomicUsize, slots: usize)
    requires
        flag_never_set(cancelled),
        pools_never_dry(slots),
        call_ensures(new_slot_pool, (slots,), *pool),
    ensures
        forall|sig: Signal, r: bool| #[trigger] shared_answer(cancelled, pool, sig, r) ==> r == quiet_answer(sig),
{
    assert forall|sig: Signal, r: bool| #[trigger] shared_answer(cancelled, pool, sig, r) implies r == quiet_answer(sig) by {
        match sig {
            Signal::Cancelled => {},
            Signal::TakeSlot => {},
            Signal::NoSlotLeft => {
                let n = choose|n: usize| #[trigger] call_ensures(slots_left, (pool,), n) && r == (n == 0);
            },
            Signal::RequestCancel => {},
        }
    }
}

/// When every look at the flag finds it set, the signals answer that the
/// search is cancelled.
pub proof fn lemma_shared_answers_cancelled(cancelled: &AtomicBool, pool: &AtomicUsize)
    requires
        flag_always_set(cancelled),
    ensures
        forall|r: bool| #[trigger] shared_answer(cancelled, pool, Signal::Cancelled, r) ==> r,
{
}

/// The signals of a running search: the cancellation flag and the pool of
/// hit slots left, both shared with other threads.
pub fn ask_shared(cancelled: &AtomicBool, pool: &AtomicUsize, sig: Signal) -> (r: bool)
    ensures
        shared_answer(cancelled, pool, sig, r),
{
    match sig {
        Signal::Cancelled => {
            let look = cancellation_requested;
            look(cancelled)
        },
        Signal::TakeSlot => {
            let take = try_take_hit_slot;
            take(pool)
        },
        Signal::NoSlotLeft => {
            let count = slots_left;
            let n = count(pool);
            n == 0
        },
        Signal::RequestCancel => {
            request_cancellation(cancelled);
            true
        },
    }
}

/// Where the hit slots of a scan come from: a budget owned by the scan
/// (each slot also taken from the shared pool), or the shared pool alone.
#[derive(Clone, Copy, Debug, PartialEq, Eq)]
pub enum HitSlots {
    Budget(usize),
    Shared,
}

impl HitSlots {
    /// Whether no slot seems to be left: exact for a budget; for the shared
    /// pool, what the signals answer (never, when they are quiet).
    pub fn exhausted<S: Fn(Signal) -> bool>(&self, signals: &S) -> (b: bool)
        requires
            signals_ready(*signals),
        ensures
            *self matches HitSlots::Budget(n) ==> b == (n == 0),
            *self is Shared && signals_quiet(*signals) ==> !b,
    {
        match *self {
            HitSlots::Budget(n) => n == 0,
            HitSlots::Shared => signals(Signal::NoSlotLeft),
        }
    }

    /// Takes one slot from the pool: a budget gives one only while it is not
    /// spent, and then counts it; with quiet signals the pool always gives.
    pub fn take<S: Fn(Signal) -> bool>(&mut self, signals: &S) -> (taken: bool)
        requires
            signals_ready(*signals),
        ensures
            *old(self) is Budget <==> *final(self) is Budget,
            *old(self) matches HitSlots::Budget(n) ==> (*final(self) matches HitSlots::Budget(k) && (
            taken ==> n > 0) && k == (if taken {
                n - 1
            } else {
                n as int
            })),
            signals_quiet(*signals) ==> (*old(self) matches HitSlots::Budget(n) ==> (taken <==> n
                > 0)),
            signals_quiet(*signals) && *old(self) is Shared ==> taken,
    {
        match *self {
            HitSlots::Budget(n) => {
                if n > 0 && signals(Signal::TakeSlot) {
                    *self = HitSlots::Budget(n - 1);
                    true
                } else {
                    false
                }
            },
            HitSlots::Shared => signals(Signal::TakeSlot),
        }
    }
}

} // verus!
