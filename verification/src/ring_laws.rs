//! What holds of a ring over its whole life, whatever is done to it.

use vstd::prelude::*;

use crate::ring::{Pushed, RingView};

verus! {

/// One thing done to a ring.
pub enum RingOp<F> {
    Push(F),
    Pop,
    Close,
}

/// A ring together with what went in and what came out.
pub struct RingRun<F> {
    pub ring: RingView<F>,
    /// The frames that the ring took, in order.
    pub accepted: Seq<F>,
    /// The frames that were taken out, in order.
    pub popped: Seq<F>,
    /// For each frame that was taken out, its place among those that went in.
    pub places: Seq<int>,
}

impl<F> RingRun<F> {
    pub open spec fn step(self, op: RingOp<F>) -> RingRun<F> {
        match op {
            RingOp::Push(f) => RingRun {
                ring: self.ring.after_push(f),
                accepted: if self.ring.pushed(f) is Queued {
                    self.accepted.push(f)
                } else {
                    self.accepted
                },
                ..self
            },
            RingOp::Pop => if self.ring.q.len() == 0 {
                self
            } else {
                RingRun {
                    ring: self.ring.after_pop(),
                    popped: self.popped.push(self.ring.q[0]),
                    places: self.places.push(self.accepted.len() - self.ring.q.len()),
                    ..self
                }
            },
            RingOp::Close => RingRun { ring: self.ring.after_close(), ..self },
        }
    }
}

/// A new ring's life under `ops`.
pub open spec fn ring_run<F>(cap: nat, lossless: bool, ops: Seq<RingOp<F>>) -> RingRun<F>
    decreases ops.len(),
{
    if ops.len() == 0 {
        RingRun {
            ring: RingView::new(cap, lossless),
            accepted: Seq::empty(),
            popped: Seq::empty(),
            places: Seq::empty(),
        }
    } else {
        ring_run(cap, lossless, ops.drop_last()).step(ops.last())
    }
}

/// The frames that `ops` hand to the ring.
pub open spec fn offered<F>(ops: Seq<RingOp<F>>) -> Seq<F>
    decreases ops.len(),
{
    if ops.len() == 0 {
        Seq::empty()
    } else {
        match ops.last() {
            RingOp::Push(f) => offered(ops.drop_last()).push(f),
            _ => offered(ops.drop_last()),
        }
    }
}

/// The ring never holds more than it has room for.
pub proof fn law_ring_is_bounded<F>(cap: nat, lossless: bool, ops: Seq<RingOp<F>>)
    ensures
        ring_run(cap, lossless, ops).ring.q.len() <= if cap == 0 {
            1
        } else {
            cap
        },
        ring_run(cap, lossless, ops).ring.lossless == lossless,
        ring_run(cap, lossless, ops).ring.cap == RingView::<F>::new(cap, lossless).cap,
    decreases ops.len(),
{
    if ops.len() > 0 {
        law_ring_is_bounded(cap, lossless, ops.drop_last());
    }
}

/// A lossless ring is faithful: what came out, followed by what still waits, is
/// what went in, and nothing was dropped.
pub proof fn law_lossless_ring_is_faithful<F>(cap: nat, ops: Seq<RingOp<F>>)
    ensures
        ({
            let run = ring_run(cap, true, ops);
            &&& run.popped + run.ring.q == run.accepted
            &&& run.ring.dropped == 0
        }),
    decreases ops.len(),
{
    let run = ring_run(cap, true, ops);
    if ops.len() > 0 {
        law_lossless_ring_is_faithful(cap, ops.drop_last());
        law_ring_is_bounded(cap, true, ops.drop_last());
    }
    assert(run.popped + run.ring.q =~= run.accepted);
}

/// A live ring takes every frame that it is handed, at once.
pub proof fn law_live_ring_never_stalls<F>(cap: nat, ops: Seq<RingOp<F>>, f: F)
    ensures
        ring_run(cap, false, ops).accepted == offered(ops),
        ring_run(cap, false, ops).ring.pushed(f) is Queued,
    decreases ops.len(),
{
    law_ring_is_bounded(cap, false, ops);
    if ops.len() > 0 {
        law_live_ring_never_stalls(cap, ops.drop_last(), f);
        law_ring_is_bounded(cap, false, ops.drop_last());
    }
}

/// Every frame that a ring took is accounted for: it came out, was dropped, or
/// still waits.
pub proof fn law_ring_accounts_for_every_frame<F>(cap: nat, lossless: bool, ops: Seq<RingOp<F>>)
    ensures
        ({
            let run = ring_run(cap, lossless, ops);
            run.accepted.len() == run.popped.len() + run.ring.dropped + run.ring.q.len()
        }),
    decreases ops.len(),
{
    if ops.len() > 0 {
        law_ring_accounts_for_every_frame(cap, lossless, ops.drop_last());
        law_ring_is_bounded(cap, lossless, ops.drop_last());
    }
}

/// A ring keeps the order and repeats nothing: the frames that came out stand
/// among those that went in at growing places, all before those that wait; and
/// what waits is the newest of what went in, so what is dropped is the oldest.
pub proof fn law_ring_keeps_order<F>(cap: nat, lossless: bool, ops: Seq<RingOp<F>>)
    ensures
        ({
            let run = ring_run(cap, lossless, ops);
            let waiting_from = run.accepted.len() - run.ring.q.len();
            &&& 0 <= waiting_from
            &&& run.ring.q == run.accepted.skip(waiting_from)
            &&& run.places.len() == run.popped.len()
            &&& forall|i: int|
                0 <= i < run.popped.len() ==> 0 <= #[trigger] run.places[i] < waiting_from
                    && run.popped[i] == run.accepted[run.places[i]]
            &&& forall|i: int, j: int|
                0 <= i < j < run.popped.len() ==> run.places[i] < run.places[j]
        }),
    decreases ops.len(),
{
    let run = ring_run(cap, lossless, ops);
    let waiting_from = run.accepted.len() - run.ring.q.len();
    if ops.len() > 0 {
        let before = ring_run(cap, lossless, ops.drop_last());
        law_ring_keeps_order(cap, lossless, ops.drop_last());
        law_ring_is_bounded(cap, lossless, ops.drop_last());
        let from = before.accepted.len() - before.ring.q.len();
        if before.ring.q.len() > 0 {
            assert(before.ring.q[0] == before.accepted[from]);
        }
    }
    assert(run.ring.q =~= run.accepted.skip(waiting_from));
}

/// A ring drops a frame only once it has its fill of newer ones: every frame that
/// went in came out, still waits, or is older than the newest `cap` of them. So
/// those newest always come out in the end.
pub proof fn law_newest_frames_come_out<F>(cap: nat, lossless: bool, ops: Seq<RingOp<F>>)
    ensures
        ({
            let run = ring_run(cap, lossless, ops);
            let waiting_from = run.accepted.len() - run.ring.q.len();
            forall|k: int|
                0 <= k < waiting_from && k + run.ring.cap >= run.accepted.len()
                    ==> #[trigger] run.places.contains(k)
        }),
    decreases ops.len(),
{
    if ops.len() > 0 {
        let before = ring_run(cap, lossless, ops.drop_last());
        let run = ring_run(cap, lossless, ops);
        law_newest_frames_come_out(cap, lossless, ops.drop_last());
        law_ring_is_bounded(cap, lossless, ops.drop_last());
        law_ring_keeps_order(cap, lossless, ops.drop_last());
        let from = before.accepted.len() - before.ring.q.len();
        let waiting_from = run.accepted.len() - run.ring.q.len();
        assert forall|k: int|
            0 <= k < waiting_from && k + run.ring.cap >= run.accepted.len() implies #[trigger]
        run.places.contains(k) by {
            if k < from {
                assert(before.places.contains(k));
                let i = choose|i: int| 0 <= i < before.places.len() && before.places[i] == k;
                assert(run.places[i] == k);
            } else {
                assert(run.places.last() == k);
            }
        }
    }
}

/// Nothing that was done to a ring is undone by what is done later: a closed ring
/// stays closed, the count of dropped frames never falls, and what went in and
/// came out stays so.
pub proof fn law_ring_only_moves_on<F>(
    cap: nat,
    lossless: bool,
    ops: Seq<RingOp<F>>,
    more: Seq<RingOp<F>>,
)
    ensures
        ({
            let run = ring_run(cap, lossless, ops);
            let later = ring_run(cap, lossless, ops + more);
            &&& run.ring.closed ==> later.ring.closed
            &&& run.ring.dropped <= later.ring.dropped
            &&& run.accepted.is_prefix_of(later.accepted)
            &&& run.popped.is_prefix_of(later.popped)
        }),
    decreases more.len(),
{
    if more.len() == 0 {
        assert(ops + more =~= ops);
    } else {
        law_ring_only_moves_on(cap, lossless, ops, more.drop_last());
        assert((ops + more).drop_last() =~= ops + more.drop_last());
        assert((ops + more).last() == more.last());
    }
}

/// A new ring holds nothing, is open, and has room for as many frames as was said,
/// but for one at least.
pub proof fn law_new_ring_has_its_room<F>(cap: nat, lossless: bool)
    ensures
        ({
            let ring = RingView::<F>::new(cap, lossless);
            &&& ring.q.len() == 0
            &&& !ring.closed
            &&& ring.dropped == 0
            &&& ring.lossless == lossless
            &&& cap >= 1 ==> ring.cap == cap
            &&& cap == 0 ==> ring.cap == 1
        }),
{
}

/// What becomes of a frame. A ring with room takes it behind those that wait. A full
/// live one takes it too, and loses the oldest instead, and counts that; it is what
/// it must do just where it says so. A full lossless one hands it back and stays as
/// it was, and a closed lossless one takes none at all.
pub proof fn law_what_becomes_of_a_frame<F>(
    cap: nat,
    lossless: bool,
    ops: Seq<RingOp<F>>,
    f: F,
)
    ensures
        ({
            let ring = ring_run(cap, lossless, ops).ring;
            let next = ring.after_push(f);
            let room: nat = if cap == 0 {
                1
            } else {
                cap
            };
            &&& next.closed == ring.closed && next.cap == ring.cap && next.lossless == ring.lossless
            &&& lossless && ring.closed ==> ring.pushed(f) is Closed && next == ring
            &&& lossless && !ring.closed && ring.q.len() == room ==> ring.pushed(f) == Pushed::Full(
                f,
            ) && next == ring
            &&& ring.q.len() < room && !(lossless && ring.closed) ==> {
                &&& ring.pushed(f) is Queued
                &&& next.q == ring.q.push(f)
                &&& next.dropped == ring.dropped
            }
            &&& !lossless && ring.q.len() == room ==> {
                &&& ring.pushed(f) is Queued
                &&& next.q == ring.q.skip(1).push(f)
                &&& next.dropped == ring.dropped + 1
            }
            &&& ring.must_drop() <==> next.dropped != ring.dropped
        }),
{
    law_ring_is_bounded(cap, lossless, ops);
    let ring = ring_run(cap, lossless, ops).ring;
    if ring.q.len() > 0 {
        assert(ring.q.drop_first() =~= ring.q.skip(1));
    }
}

/// Taking a frame out takes the oldest and leaves the rest in order; closing leaves
/// what waits.
pub proof fn law_what_taking_and_closing_leave<F>(ring: RingView<F>)
    ensures
        ring.q.len() > 0 ==> ring.q == seq![ring.q[0]] + ring.after_pop().q,
        ring.q.len() == 0 ==> ring.after_pop() == ring,
        ring.after_pop().dropped == ring.dropped,
        ring.after_pop().closed == ring.closed,
        ring.after_close().closed,
        ring.after_close().q == ring.q,
        ring.after_close().dropped == ring.dropped,
{
    if ring.q.len() > 0 {
        assert(ring.q =~= seq![ring.q[0]] + ring.after_pop().q);
    }
}

} // verus!
