//! The bounded ring between the side that captures and the side that sends.
//!
//! The ring itself never waits: where its user has to, it says so. A live ring
//! drops its oldest frame to make room, so that capturing never stalls; a
//! lossless one takes nothing while it is full, so that a file is replayed
//! faithfully.

use std::collections::VecDeque;

use vstd::prelude::*;

use crate::frame::Frame;

verus! {

/// What a ring of frames `F` holds and how it behaves.
pub struct RingView<F> {
    /// The frames that wait, oldest first.
    pub q: Seq<F>,
    pub closed: bool,
    /// How many frames were dropped to make room.
    pub dropped: nat,
    /// How many frames can wait.
    pub cap: nat,
    pub lossless: bool,
}

/// What became of a frame handed to the ring.
pub enum Pushed<F> {
    /// It waits in the ring now.
    Queued,
    /// The ring is lossless and full: here is the frame again, for when a frame
    /// has been taken out or the ring has been closed.
    Full(F),
    /// The ring is lossless and closed: the frame is gone.
    Closed,
}

/// What there is to take out.
pub enum Popped {
    /// The oldest frame.
    Taken(Frame),
    /// Nothing now, but more may come.
    Empty,
    /// Nothing, and the ring is closed.
    Drained,
}

impl<F> RingView<F> {
    /// A new ring; it always has room for one frame.
    pub open spec fn new(cap: nat, lossless: bool) -> RingView<F> {
        RingView {
            q: Seq::empty(),
            closed: false,
            dropped: 0,
            cap: if cap == 0 {
                1
            } else {
                cap
            },
            lossless,
        }
    }

    pub open spec fn full(self) -> bool {
        self.q.len() >= self.cap
    }

    /// Whether the next frame costs the oldest one its place.
    pub open spec fn must_drop(self) -> bool {
        !self.lossless && self.full()
    }

    pub open spec fn pushed(self, f: F) -> Pushed<F> {
        if self.lossless && self.closed {
            Pushed::Closed
        } else if self.lossless && self.full() {
            Pushed::Full(f)
        } else {
            Pushed::Queued
        }
    }

    pub open spec fn after_push(self, f: F) -> RingView<F> {
        if self.lossless && (self.closed || self.full()) {
            self
        } else if self.full() {
            RingView { q: self.q.drop_first().push(f), dropped: self.dropped + 1, ..self }
        } else {
            RingView { q: self.q.push(f), ..self }
        }
    }

    pub open spec fn after_pop(self) -> RingView<F> {
        if self.q.len() == 0 {
            self
        } else {
            RingView { q: self.q.drop_first(), ..self }
        }
    }

    pub open spec fn after_close(self) -> RingView<F> {
        RingView { closed: true, ..self }
    }
}

/// A bounded queue of frames.
pub struct Ring {
    q: VecDeque<Frame>,
    closed: bool,
    dropped: u64,
    cap: usize,
    lossless: bool,
}

impl View for Ring {
    type V = RingView<Frame>;

    closed spec fn view(&self) -> RingView<Frame> {
        RingView {
            q: self.q@,
            closed: self.closed,
            dropped: self.dropped as nat,
            cap: self.cap as nat,
            lossless: self.lossless,
        }
    }
}

impl Ring {
    /// No more frames wait than there is room for, there is room for one, and a
    /// lossless ring has dropped none.
    pub open spec fn wf(&self) -> bool {
        &&& self@.q.len() <= self@.cap
        &&& 1 <= self@.cap <= usize::MAX
        &&& self@.dropped <= u64::MAX
        &&& self@.lossless ==> self@.dropped == 0
    }

    /// A ring for `cap` frames, but at least one.
    pub fn new(cap: usize, lossless: bool) -> (ring: Ring)
        ensures
            ring.wf(),
            ring@ == RingView::<Frame>::new(cap as nat, lossless),
    {
        let room: usize = if cap == 0 {
            1
        } else {
            cap
        };
        Ring { q: VecDeque::new(), closed: false, dropped: 0, cap: room, lossless }
    }

    /// Hands a frame to the ring.
    pub fn push(&mut self, f: Frame) -> (out: Pushed<Frame>)
        requires
            old(self).wf(),
            old(self)@.must_drop() ==> old(self)@.dropped < u64::MAX,
        ensures
            final(self).wf(),
            final(self)@ == old(self)@.after_push(f),
            out == old(self)@.pushed(f),
    {
        if self.lossless {
            if self.closed {
                return Pushed::Closed;
            }
            if self.q.len() >= self.cap {
                return Pushed::Full(f);
            }
        } else if self.q.len() >= self.cap {
            let _ = self.q.pop_front();
            self.dropped = self.dropped + 1;
            assert(self.q@ =~= old(self)@.q.drop_first());
        }
        self.q.push_back(f);
        Pushed::Queued
    }

    /// Whether the next frame costs the oldest one its place.
    pub fn must_drop(&self) -> (yes: bool)
        requires
            self.wf(),
        ensures
            yes == self@.must_drop(),
    {
        !self.lossless && self.q.len() >= self.cap
    }

    /// Takes the oldest frame, if there is one.
    pub fn try_pop(&mut self) -> (f: Option<Frame>)
        requires
            old(self).wf(),
        ensures
            final(self).wf(),
            final(self)@ == old(self)@.after_pop(),
            f == (if old(self)@.q.len() == 0 {
                None
            } else {
                Some(old(self)@.q[0])
            }),
    {
        let f: Option<Frame> = self.q.pop_front();
        if f.is_some() {
            assert(self.q@ =~= old(self)@.q.drop_first());
        }
        f
    }

    /// Takes the oldest frame, or says whether to wait for one.
    pub fn pop(&mut self) -> (out: Popped)
        requires
            old(self).wf(),
        ensures
            final(self).wf(),
            final(self)@ == old(self)@.after_pop(),
            out == (if old(self)@.q.len() > 0 {
                Popped::Taken(old(self)@.q[0])
            } else if old(self)@.closed {
                Popped::Drained
            } else {
                Popped::Empty
            }),
    {
        match self.try_pop() {
            Some(f) => Popped::Taken(f),
            None => if self.closed {
                Popped::Drained
            } else {
                Popped::Empty
            },
        }
    }

    /// Says that no more frames are wanted, or that none will come.
    pub fn close(&mut self)
        requires
            old(self).wf(),
        ensures
            final(self).wf(),
            final(self)@ == old(self)@.after_close(),
    {
        self.closed = true;
    }

    pub fn closed(&self) -> (yes: bool)
        ensures
            yes == self@.closed,
    {
        self.closed
    }

    /// How many frames were dropped to make room.
    pub fn dropped(&self) -> (n: u64)
        ensures
            n == self@.dropped,
    {
        self.dropped
    }
}

} // verus!
