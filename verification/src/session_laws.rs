//! What holds of a whole session: the side that captures, the side that sends,
//! and the ring between them, whichever of them runs when.

use vstd::prelude::*;

use crate::capture::{
    any_stops, capture_run, captured, law_capture_hands_on_what_it_captured, stops,
    CaptureEventView, CaptureRun,
};
use crate::frame::{frames_encoding, Frame, FrameView};
use crate::proto::{filter_fits, HelloView};
use crate::ring::{Pushed, RingView};
use crate::ring_laws::{
    law_newest_frames_come_out, law_ring_accounts_for_every_frame, law_ring_is_bounded,
    law_ring_keeps_order, ring_run, RingOp,
};
use crate::sender::{
    lemma_new_is_consistent, lemma_step_is_consistent, SendEnd, SendEventView, SendStage,
    SenderRun,
};
use crate::sink::SinkView;
use crate::stream_laws::{all_deliverable, law_stream_is_recovered, sink_run};

verus! {

/// A session under way.
pub struct SessionState {
    /// What the capturing side has been told.
    pub events: Seq<CaptureEventView>,
    pub capture: CaptureRun,
    /// Whether the capturing side has asked for the next event.
    pub asking: bool,
    /// The frame that the capturing side is about to hand to the ring.
    pub pending: Option<FrameView>,
    pub ring: RingView<FrameView>,
    pub sending: SenderRun,
}

/// What one of the sides does next.
pub enum SessionOp {
    /// The capturing side looks whether the ring is closed: it stops then, and
    /// else asks for the next event.
    Look,
    /// It learns of the event that it asked for.
    Event(CaptureEventView),
    /// It hands its frame to the ring.
    Push,
    /// It has stopped, and closes the ring.
    CaptureClose,
    /// The sending side learns that its last step is done.
    Sent,
    /// The sending side learns that its last step failed.
    SendFailed,
    /// It takes a frame off the ring, or finds that there is none.
    Pop,
    /// It is over, and closes the ring.
    SendClose,
}

impl SessionState {
    pub open spec fn new(cap: nat, lossless: bool, hello: HelloView) -> SessionState {
        SessionState {
            events: Seq::empty(),
            capture: CaptureRun::new(),
            asking: false,
            pending: None,
            ring: RingView::new(cap, lossless),
            sending: SenderRun::new(hello),
        }
    }

    /// Whether `op` can come next. Handing over a frame waits while a lossless ring
    /// is full, and the sending side, between batches, waits for a frame or the
    /// ring's closing.
    pub open spec fn allows(self, op: SessionOp) -> bool {
        match op {
            SessionOp::Look => {
                &&& !self.capture.stopped
                &&& !self.asking
                &&& self.pending is None
            },
            SessionOp::Event(e) => {
                &&& self.asking
                &&& !(e is RingClosed)
            },
            SessionOp::Push => {
                &&& self.pending matches Some(f)
                &&& !(self.ring.pushed(f) is Full)
            },
            SessionOp::CaptureClose => {
                &&& self.capture.stopped
                &&& self.pending is None
                &&& !self.ring.closed
            },
            SessionOp::Sent | SessionOp::SendFailed => {
                &&& !(self.sending.sender.stage is Taking)
                &&& !(self.sending.sender.stage is Over)
            },
            SessionOp::Pop => {
                &&& self.sending.sender.stage is Taking
                &&& self.ring.q.len() > 0 || self.sending.sender.batching || self.ring.closed
            },
            SessionOp::SendClose => {
                &&& self.sending.sender.stage is Over
                &&& !self.ring.closed
            },
        }
    }

    /// The session after `op`; one that cannot come next changes nothing.
    pub open spec fn after(self, op: SessionOp) -> SessionState {
        if !self.allows(op) {
            self
        } else {
            match op {
                SessionOp::Look => if self.ring.closed {
                    SessionState {
                        events: self.events.push(CaptureEventView::RingClosed),
                        capture: self.capture.step(CaptureEventView::RingClosed),
                        ..self
                    }
                } else {
                    SessionState { asking: true, ..self }
                },
                SessionOp::Event(e) => SessionState {
                    events: self.events.push(e),
                    capture: self.capture.step(e),
                    asking: false,
                    pending: match e {
                        CaptureEventView::Captured(p) => Some(p.frame()),
                        _ => None,
                    },
                    ..self
                },
                SessionOp::Push => SessionState {
                    pending: None,
                    ring: self.ring.after_push(self.pending->0),
                    ..self
                },
                SessionOp::CaptureClose | SessionOp::SendClose => SessionState {
                    ring: self.ring.after_close(),
                    ..self
                },
                SessionOp::Sent => SessionState {
                    sending: self.sending.step(SendEventView::Ready),
                    ..self
                },
                SessionOp::SendFailed => SessionState {
                    sending: self.sending.step(SendEventView::Failed),
                    ..self
                },
                SessionOp::Pop => SessionState {
                    ring: self.ring.after_pop(),
                    sending: self.sending.step(
                        SendEventView::Popped(
                            if self.ring.q.len() > 0 {
                                Some(self.ring.q[0])
                            } else {
                                None
                            },
                        ),
                    ),
                    ..self
                },
            }
        }
    }

    pub open spec fn delivered(self) -> bool {
        self.sending.sender.stage == SendStage::Over(SendEnd::Delivered)
    }

    /// What holds of a session at any time.
    pub open spec fn sound(self) -> bool {
        &&& self.sending.consistent()
        &&& self.ring.cap >= 1
        &&& self.capture == capture_run(self.events)
        &&& self.capture.stopped ==> self.pending is None && !self.asking
        &&& self.asking ==> self.pending is None
        &&& forall|i: int|
            0 <= i < self.events.len() - 1 ==> !stops(#[trigger] self.events[i])
        &&& match self.sending.sender.stage {
            SendStage::Over(end) => end is Delivered ==> {
                &&& self.capture.stopped
                &&& self.ring.closed
                &&& self.ring.q.len() == 0
            },
            stage => {
                &&& self.ring.closed ==> self.capture.stopped
                &&& stage is Finishing ==> self.ring.closed && self.ring.q.len() == 0
            },
        }
    }

    /// The frame about to be handed over, if there is one.
    pub open spec fn pending_frames(self) -> Seq<FrameView> {
        match self.pending {
            Some(f) => seq![f],
            None => Seq::empty(),
        }
    }

    /// What holds of a lossless session besides: every captured frame was given to
    /// the sending side, waits in the ring, or is about to, as long as that side
    /// has not given up.
    pub open spec fn faithful(self) -> bool {
        &&& self.sound()
        &&& self.ring.lossless
        &&& match self.sending.sender.stage {
            SendStage::Over(end) => end is Delivered ==> self.sending.given
                == self.capture.frames,
            _ => self.sending.given + self.ring.q + self.pending_frames() == self.capture.frames,
        }
    }
}

/// A session in which `ops` happen, one after the other.
pub open spec fn session_run(
    cap: nat,
    lossless: bool,
    hello: HelloView,
    ops: Seq<SessionOp>,
) -> SessionState
    decreases ops.len(),
{
    if ops.len() == 0 {
        SessionState::new(cap, lossless, hello)
    } else {
        session_run(cap, lossless, hello, ops.drop_last()).after(ops.last())
    }
}

proof fn lemma_one_more_event(s: SessionState, e: CaptureEventView)
    requires
        s.sound(),
        !s.capture.stopped,
    ensures
        capture_run(s.events.push(e)) == s.capture.step(e),
        forall|i: int|
            0 <= i < s.events.len() ==> !stops(#[trigger] s.events.push(e)[i]),
{
    let events = s.events.push(e);
    assert(events.drop_last() =~= s.events);
    law_capture_hands_on_what_it_captured(s.events);
    assert forall|i: int| 0 <= i < s.events.len() implies !stops(#[trigger] events[i]) by {
        assert(events[i] == s.events[i]);
        assert(!any_stops(s.events));
    }
}

proof fn lemma_stays_sound(s: SessionState, op: SessionOp)
    requires
        s.sound(),
    ensures
        s.after(op).sound(),
        s.after(op).sending.sender.hello == s.sending.sender.hello,
{
    let next = s.after(op);
    if s.allows(op) {
        match op {
            SessionOp::Look => {
                lemma_one_more_event(s, CaptureEventView::RingClosed);
            },
            SessionOp::Event(e) => {
                lemma_one_more_event(s, e);
            },
            SessionOp::Sent => {
                lemma_step_is_consistent(s.sending, SendEventView::Ready);
            },
            SessionOp::SendFailed => {
                lemma_step_is_consistent(s.sending, SendEventView::Failed);
            },
            SessionOp::Pop => {
                let popped = if s.ring.q.len() > 0 {
                    Some(s.ring.q[0])
                } else {
                    None
                };
                lemma_step_is_consistent(s.sending, SendEventView::Popped(popped));
            },
            _ => {},
        }
    }
}

proof fn lemma_stays_faithful(s: SessionState, op: SessionOp)
    requires
        s.faithful(),
    ensures
        s.after(op).faithful(),
{
    let next = s.after(op);
    lemma_stays_sound(s, op);
    if s.allows(op) {
        match op {
            SessionOp::Event(e) => {
                assert(s.sending.given + s.ring.q + Seq::<FrameView>::empty() =~= s.sending.given
                    + s.ring.q);
                if let CaptureEventView::Captured(p) = e {
                    assert(next.sending.given + next.ring.q + next.pending_frames() =~= (
                    s.sending.given + s.ring.q).push(p.frame()));
                }
            },
            SessionOp::Push => {
                if !(s.sending.sender.stage is Over) {
                    assert(next.sending.given + next.ring.q + next.pending_frames()
                        =~= s.sending.given + s.ring.q + s.pending_frames());
                }
            },
            SessionOp::Pop => {
                assert(next.sending.given + next.ring.q + next.pending_frames()
                    =~= s.sending.given + s.ring.q + s.pending_frames());
            },
            SessionOp::Sent => {
                if s.sending.sender.stage is Finishing {
                    assert(s.sending.given + s.ring.q + s.pending_frames() =~= s.sending.given);
                }
            },
            _ => {},
        }
    }
}

proof fn lemma_session_is_sound(
    cap: nat,
    lossless: bool,
    hello: HelloView,
    ops: Seq<SessionOp>,
)
    ensures
        ({
            let s = session_run(cap, lossless, hello, ops);
            &&& s.sound()
            &&& lossless ==> s.faithful()
            &&& s.sending.sender.hello == hello
        }),
    decreases ops.len(),
{
    if ops.len() == 0 {
        lemma_new_is_consistent(hello);
        let s = session_run(cap, lossless, hello, ops);
        assert(s.sending.given + s.ring.q + s.pending_frames() =~= Seq::<FrameView>::empty());
    } else {
        lemma_session_is_sound(cap, lossless, hello, ops.drop_last());
        let before = session_run(cap, lossless, hello, ops.drop_last());
        lemma_stays_sound(before, ops.last());
        if lossless {
            lemma_stays_faithful(before, ops.last());
        }
    }
}

/// Nothing more is asked of a capture once it has failed, reached its end, or seen
/// that the ring is closed.
pub proof fn law_nothing_is_asked_after_the_end(
    cap: nat,
    lossless: bool,
    hello: HelloView,
    ops: Seq<SessionOp>,
    i: int,
)
    requires
        0 <= i < session_run(cap, lossless, hello, ops).events.len(),
        stops(session_run(cap, lossless, hello, ops).events[i]),
    ensures
        i == session_run(cap, lossless, hello, ops).events.len() - 1,
        session_run(cap, lossless, hello, ops).capture.stopped,
{
    lemma_session_is_sound(cap, lossless, hello, ops);
    law_capture_hands_on_what_it_captured(session_run(cap, lossless, hello, ops).events);
}

/// A replay is faithful from end to end: when the frames are said to be delivered,
/// the capture has stopped, and what was sent is the `Hello` and a frame for every
/// packet captured before that, in order, with nothing left in a buffer. A sink
/// then has just these frames.
pub proof fn law_replay_is_faithful(cap: nat, hello: HelloView, ops: Seq<SessionOp>)
    requires
        session_run(cap, true, hello, ops).delivered(),
    ensures
        ({
            let s = session_run(cap, true, hello, ops);
            let frames = captured(s.events);
            let sent = s.sending.written;
            &&& any_stops(s.events)
            &&& sent == hello.encoding() + frames_encoding(frames)
            &&& s.sending.flushed == sent.len()
            &&& all_deliverable(frames) ==> {
                &&& sink_run(SinkView::new(), sent).hello == Some(hello)
                &&& sink_run(SinkView::new(), sent).frames == frames
                &&& sink_run(SinkView::new(), sent).end is Ok
            }
        }),
{
    let s = session_run(cap, true, hello, ops);
    lemma_session_is_sound(cap, true, hello, ops);
    law_capture_hands_on_what_it_captured(s.events);
    if all_deliverable(captured(s.events)) {
        law_stream_is_recovered(hello, captured(s.events));
    }
}

/// Whether no write and no flush failed.
pub open spec fn connection_holds(ops: Seq<SessionOp>) -> bool {
    forall|i: int| 0 <= i < ops.len() ==> #[trigger] ops[i] != SessionOp::SendFailed
}

proof fn lemma_no_other_end(cap: nat, lossless: bool, hello: HelloView, ops: Seq<SessionOp>)
    requires
        filter_fits(hello.filter),
        connection_holds(ops),
    ensures
        session_run(cap, lossless, hello, ops).sending.sender.stage is Over ==> session_run(
            cap,
            lossless,
            hello,
            ops,
        ).delivered(),
    decreases ops.len(),
{
    if ops.len() > 0 {
        let earlier = ops.drop_last();
        assert forall|i: int| 0 <= i < earlier.len() implies #[trigger] earlier[i]
            != SessionOp::SendFailed by {
            assert(earlier[i] == ops[i]);
        }
        lemma_no_other_end(cap, lossless, hello, earlier);
        lemma_session_is_sound(cap, lossless, hello, earlier);
        assert(ops[ops.len() - 1] != SessionOp::SendFailed);
    }
}

/// As long as no write fails, the sending side ends in no other way than with all
/// frames delivered.
pub proof fn law_session_over_is_delivered(
    cap: nat,
    lossless: bool,
    hello: HelloView,
    ops: Seq<SessionOp>,
)
    requires
        filter_fits(hello.filter),
        connection_holds(ops),
        session_run(cap, lossless, hello, ops).sending.sender.stage is Over,
    ensures
        session_run(cap, lossless, hello, ops).delivered(),
{
    lemma_no_other_end(cap, lossless, hello, ops);
}

/// A capture that fails ends its session as the end of the file does: of two
/// replays whose captures brought the same before one failed and the other ended,
/// neither asks for anything more, and both send the same bytes, which are those of
/// the `Hello` and of every frame captured before. Neither the size of the ring nor
/// which side ran when makes a difference.
pub proof fn law_failed_capture_delivers_as_an_ended_one(
    hello: HelloView,
    before: Seq<CaptureEventView>,
    failed_cap: nat,
    failed_ops: Seq<SessionOp>,
    ended_cap: nat,
    ended_ops: Seq<SessionOp>,
)
    requires
        filter_fits(hello.filter),
        connection_holds(failed_ops),
        connection_holds(ended_ops),
        session_run(failed_cap, true, hello, failed_ops).sending.sender.stage is Over,
        session_run(ended_cap, true, hello, ended_ops).sending.sender.stage is Over,
        before.push(CaptureEventView::Failed).is_prefix_of(
            session_run(failed_cap, true, hello, failed_ops).events,
        ),
        before.push(CaptureEventView::NoMorePackets).is_prefix_of(
            session_run(ended_cap, true, hello, ended_ops).events,
        ),
    ensures
        ({
            let failed = session_run(failed_cap, true, hello, failed_ops);
            let ended = session_run(ended_cap, true, hello, ended_ops);
            &&& failed.delivered()
            &&& ended.delivered()
            &&& failed.events == before.push(CaptureEventView::Failed)
            &&& ended.events == before.push(CaptureEventView::NoMorePackets)
            &&& failed.sending.written == hello.encoding() + frames_encoding(captured(before))
            &&& failed.sending.written == ended.sending.written
            &&& failed.sending.flushed == ended.sending.flushed == failed.sending.written.len()
        }),
{
    lemma_stopped_session(hello, before, CaptureEventView::Failed, failed_cap, failed_ops);
    lemma_stopped_session(hello, before, CaptureEventView::NoMorePackets, ended_cap, ended_ops);
}

proof fn lemma_stopped_session(
    hello: HelloView,
    before: Seq<CaptureEventView>,
    stop: CaptureEventView,
    cap: nat,
    ops: Seq<SessionOp>,
)
    requires
        filter_fits(hello.filter),
        connection_holds(ops),
        stops(stop),
        session_run(cap, true, hello, ops).sending.sender.stage is Over,
        before.push(stop).is_prefix_of(session_run(cap, true, hello, ops).events),
    ensures
        ({
            let s = session_run(cap, true, hello, ops);
            &&& s.delivered()
            &&& s.events == before.push(stop)
            &&& s.sending.written == hello.encoding() + frames_encoding(captured(before))
            &&& s.sending.flushed == s.sending.written.len()
        }),
{
    let s = session_run(cap, true, hello, ops);
    let at = before.len() as int;
    assert(before.push(stop)[at] == s.events[at]);
    law_session_over_is_delivered(cap, true, hello, ops);
    law_replay_is_faithful(cap, hello, ops);
    law_nothing_is_asked_after_the_end(cap, true, hello, ops, at);
    assert(s.events =~= before.push(stop));
    assert(s.events.drop_last() =~= before);
    law_capture_hands_on_what_it_captured(before);
    law_capture_hands_on_what_it_captured(s.events);
    lemma_session_is_sound(cap, true, hello, ops);
}

/// How much there is left to do at most, once the capture has stopped.
pub open spec fn work_left(s: SessionState) -> nat {
    let sending: nat = match s.sending.sender.stage {
        SendStage::Opening => 5,
        SendStage::HelloWritten => 4,
        SendStage::HelloRefused => 1,
        SendStage::Between => if s.sending.sender.batching {
            5
        } else {
            3
        },
        SendStage::Taking => if s.sending.sender.batching {
            4
        } else {
            2
        },
        SendStage::Finishing => 1,
        SendStage::Over(_) => 0,
    };
    let closing: nat = if s.ring.closed {
        0
    } else {
        1
    };
    sending + 4 * s.ring.q.len() + closing
}

/// A session whose capture has stopped comes to its end: whatever can happen next
/// leaves less to do, and until the sending is over and the ring closed something
/// can happen.
pub proof fn law_stopped_session_ends(
    cap: nat,
    lossless: bool,
    hello: HelloView,
    ops: Seq<SessionOp>,
)
    requires
        session_run(cap, lossless, hello, ops).capture.stopped,
    ensures
        ({
            let s = session_run(cap, lossless, hello, ops);
            &&& forall|op: SessionOp| #[trigger]
                s.allows(op) ==> work_left(s.after(op)) < work_left(s)
            &&& s.sending.sender.stage is Over && s.ring.closed || exists|op: SessionOp|
                op != SessionOp::SendFailed && #[trigger] s.allows(op)
        }),
{
    let s = session_run(cap, lossless, hello, ops);
    lemma_session_is_sound(cap, lossless, hello, ops);
    if !s.ring.closed {
        assert(s.allows(SessionOp::CaptureClose));
    } else if s.sending.sender.stage is Taking {
        assert(s.allows(SessionOp::Pop));
    } else if !(s.sending.sender.stage is Over) {
        assert(s.allows(SessionOp::Sent));
    }
}

/// A session never gets stuck before: as long as its capture has not stopped, the
/// capturing side can look, or learn whatever it asked for, or hand its frame over,
/// or the ring is full and the sending side has something to do that is not to
/// wait.
pub proof fn law_capturing_session_goes_on(
    cap: nat,
    lossless: bool,
    hello: HelloView,
    ops: Seq<SessionOp>,
)
    requires
        !session_run(cap, lossless, hello, ops).capture.stopped,
    ensures
        ({
            let s = session_run(cap, lossless, hello, ops);
            ||| s.allows(SessionOp::Look)
            ||| forall|e: CaptureEventView|
                !(e is RingClosed) ==> #[trigger] s.allows(SessionOp::Event(e))
            ||| s.allows(SessionOp::Push)
            ||| s.ring.full() && (s.allows(SessionOp::Sent) || s.allows(SessionOp::Pop)
                || s.allows(SessionOp::SendClose))
        }),
{
    let s = session_run(cap, lossless, hello, ops);
    lemma_session_is_sound(cap, lossless, hello, ops);
}

/// How much the capturing side still does at most, once the ring is closed.
pub open spec fn capture_left(s: SessionState) -> nat {
    if s.capture.stopped {
        0
    } else if s.asking {
        3
    } else if s.pending is Some {
        2
    } else {
        1
    }
}

/// A failed write ends the sending, and it stays ended.
pub proof fn law_failed_write_ends_the_sending(s: SessionState, op: SessionOp)
    ensures
        s.allows(SessionOp::SendFailed) ==> s.after(SessionOp::SendFailed).sending.sender.stage
            == SendStage::Over(SendEnd::Disconnected),
        s.sending.sender.stage is Over ==> s.after(op).sending == s.sending,
{
}

/// A session ends once its client is gone. When the sending is over, whatever it
/// ended with, the ring is closed or can be; and from then on whatever can happen
/// leaves the capturing side less to do, and something can until it has stopped. A
/// frame that it still holds is handed over even where a lossless ring is full, and
/// its next look at the ring makes it stop.
pub proof fn law_session_ends_without_its_client(
    cap: nat,
    lossless: bool,
    hello: HelloView,
    ops: Seq<SessionOp>,
)
    requires
        session_run(cap, lossless, hello, ops).sending.sender.stage is Over,
    ensures
        ({
            let s = session_run(cap, lossless, hello, ops);
            &&& s.ring.closed || s.allows(SessionOp::SendClose) && s.after(
                SessionOp::SendClose,
            ).ring.closed
            &&& s.ring.closed ==> {
                &&& s.pending is Some ==> s.allows(SessionOp::Push)
                &&& s.allows(SessionOp::Look) ==> s.after(SessionOp::Look).capture.stopped
                &&& forall|op: SessionOp| #[trigger]
                    s.allows(op) ==> {
                        &&& capture_left(s.after(op)) < capture_left(s)
                        &&& s.after(op).ring.closed
                    }
                &&& s.capture.stopped || exists|op: SessionOp| #[trigger] s.allows(op)
                &&& s.asking ==> forall|e: CaptureEventView|
                    !(e is RingClosed) ==> #[trigger] s.allows(SessionOp::Event(e))
            }
        }),
{
    let s = session_run(cap, lossless, hello, ops);
    lemma_session_is_sound(cap, lossless, hello, ops);
    if s.ring.closed && !s.capture.stopped {
        if s.asking {
            assert(s.allows(SessionOp::Event(CaptureEventView::TimeoutExpired)));
        } else if s.pending is Some {
            assert(s.allows(SessionOp::Push));
        } else {
            assert(s.allows(SessionOp::Look));
        }
    }
}

proof fn lemma_ring_stays_closed(
    cap: nat,
    lossless: bool,
    hello: HelloView,
    ops: Seq<SessionOp>,
    more: Seq<SessionOp>,
)
    requires
        session_run(cap, lossless, hello, ops).ring.closed,
    ensures
        ({
            let s = session_run(cap, lossless, hello, ops);
            let later = session_run(cap, lossless, hello, ops + more);
            let asked: nat = if s.asking {
                1
            } else {
                0
            };
            let still_asked: nat = if later.asking {
                1
            } else {
                0
            };
            &&& later.ring.closed
            &&& later.capture.frames.len() + still_asked <= s.capture.frames.len() + asked
        }),
    decreases more.len(),
{
    if more.len() == 0 {
        assert(ops + more =~= ops);
    } else {
        lemma_ring_stays_closed(cap, lossless, hello, ops, more.drop_last());
        assert((ops + more).drop_last() =~= ops + more.drop_last());
        assert((ops + more).last() == more.last());
    }
}

/// Once the ring is closed no packet is captured any more, but for the one that the
/// capturing side may be asking for just then.
pub proof fn law_closed_ring_stops_the_capture(
    cap: nat,
    lossless: bool,
    hello: HelloView,
    ops: Seq<SessionOp>,
    more: Seq<SessionOp>,
)
    requires
        session_run(cap, lossless, hello, ops).ring.closed,
    ensures
        ({
            let s = session_run(cap, lossless, hello, ops);
            let later = session_run(cap, lossless, hello, ops + more);
            let asked: nat = if s.asking {
                1
            } else {
                0
            };
            captured(later.events).len() <= captured(s.events).len() + asked
        }),
{
    lemma_ring_stays_closed(cap, lossless, hello, ops, more);
    lemma_session_is_sound(cap, lossless, hello, ops);
    lemma_session_is_sound(cap, lossless, hello, ops + more);
    law_capture_hands_on_what_it_captured(session_run(cap, lossless, hello, ops).events);
    law_capture_hands_on_what_it_captured(session_run(cap, lossless, hello, ops + more).events);
}

/// What a session does to its ring.
pub open spec fn ring_ops(
    cap: nat,
    lossless: bool,
    hello: HelloView,
    ops: Seq<SessionOp>,
) -> Seq<RingOp<FrameView>>
    decreases ops.len(),
{
    if ops.len() == 0 {
        Seq::empty()
    } else {
        let s = session_run(cap, lossless, hello, ops.drop_last());
        let before = ring_ops(cap, lossless, hello, ops.drop_last());
        if !s.allows(ops.last()) {
            before
        } else {
            match ops.last() {
                SessionOp::Push => before.push(RingOp::Push(s.pending->0)),
                SessionOp::Pop => before.push(RingOp::Pop),
                SessionOp::CaptureClose | SessionOp::SendClose => before.push(RingOp::Close),
                _ => before,
            }
        }
    }
}

/// The ring of a session is a ring: what holds of one over its whole life holds of
/// it. What the sending side was given is what came out, and what went into a live
/// one is all that was captured, but for the frame that is about to.
pub proof fn law_session_ring_is_a_ring(
    cap: nat,
    lossless: bool,
    hello: HelloView,
    ops: Seq<SessionOp>,
)
    ensures
        ({
            let s = session_run(cap, lossless, hello, ops);
            let run = ring_run(cap, lossless, ring_ops(cap, lossless, hello, ops));
            &&& run.ring == s.ring
            &&& run.popped == s.sending.given
            &&& !lossless ==> run.accepted + s.pending_frames() == captured(s.events)
        }),
    decreases ops.len(),
{
    let s = session_run(cap, lossless, hello, ops);
    let run = ring_run(cap, lossless, ring_ops(cap, lossless, hello, ops));
    lemma_session_is_sound(cap, lossless, hello, ops);
    law_capture_hands_on_what_it_captured(s.events);
    if ops.len() == 0 {
        assert(run.accepted + s.pending_frames() =~= captured(s.events));
    } else {
        let earlier = ops.drop_last();
        let before = session_run(cap, lossless, hello, earlier);
        let done = ring_ops(cap, lossless, hello, earlier);
        law_session_ring_is_a_ring(cap, lossless, hello, earlier);
        lemma_session_is_sound(cap, lossless, hello, earlier);
        law_capture_hands_on_what_it_captured(before.events);
        law_ring_is_bounded(cap, lossless, done);
        let op = ops.last();
        if before.allows(op) {
            match op {
                SessionOp::Push => {
                    assert(done.push(RingOp::Push(before.pending->0)).drop_last() =~= done);
                },
                SessionOp::Pop => {
                    assert(done.push(RingOp::Pop).drop_last() =~= done);
                },
                SessionOp::CaptureClose | SessionOp::SendClose => {
                    assert(done.push(RingOp::Close).drop_last() =~= done);
                },
                _ => {},
            }
            if !lossless {
                assert(run.accepted + s.pending_frames() =~= captured(s.events));
            }
        }
    }
}

/// Whether `some` are those of `all` that stand at `places`, one behind the other.
pub open spec fn stand_at(
    some: Seq<FrameView>,
    all: Seq<FrameView>,
    places: Seq<int>,
) -> bool {
    &&& places.len() == some.len()
    &&& forall|i: int|
        0 <= i < some.len() ==> 0 <= #[trigger] places[i] < all.len() && some[i] == all[places[i]]
    &&& forall|i: int, j: int| 0 <= i < j < some.len() ==> places[i] < places[j]
}

proof fn lemma_live_places(cap: nat, hello: HelloView, ops: Seq<SessionOp>)
    ensures
        ({
            let s = session_run(cap, false, hello, ops);
            let run = ring_run(cap, false, ring_ops(cap, false, hello, ops));
            &&& stand_at(s.sending.given, captured(s.events), run.places)
            &&& s.sending.given.len() + s.ring.dropped + s.ring.q.len() + s.pending_frames().len()
                == captured(s.events).len()
        }),
{
    let s = session_run(cap, false, hello, ops);
    let done = ring_ops(cap, false, hello, ops);
    let run = ring_run(cap, false, done);
    law_session_ring_is_a_ring(cap, false, hello, ops);
    law_ring_keeps_order(cap, false, done);
    law_ring_accounts_for_every_frame(cap, false, done);
    let all = captured(s.events);
    assert forall|i: int| 0 <= i < run.popped.len() implies 0 <= #[trigger] run.places[i]
        < all.len() && run.popped[i] == all[run.places[i]] by {
        assert(run.accepted[run.places[i]] == (run.accepted + s.pending_frames())[run.places[i]]);
    }
}

/// At any time of a live session the frames given to the sending side are some of
/// those captured, in order and none twice; and every frame captured was given,
/// dropped, waits in the ring, or is about to go in.
pub proof fn law_live_session_keeps_order(cap: nat, hello: HelloView, ops: Seq<SessionOp>)
    ensures
        ({
            let s = session_run(cap, false, hello, ops);
            let all = captured(s.events);
            &&& exists|places: Seq<int>| #[trigger] stand_at(s.sending.given, all, places)
            &&& s.sending.given.len() + s.ring.dropped + s.ring.q.len() + s.pending_frames().len()
                == all.len()
        }),
{
    lemma_live_places(cap, hello, ops);
}

/// What a live session has sent when it is delivered: the `Hello` and frames of
/// packets captured, in order and none twice, with nothing left in a buffer. The
/// newest of them, as many as the ring has room for, are all there, and those
/// that are not are the ones counted as dropped. A sink has just the frames sent.
pub proof fn law_live_session_sends_the_newest(cap: nat, hello: HelloView, ops: Seq<SessionOp>)
    requires
        session_run(cap, false, hello, ops).delivered(),
    ensures
        ({
            let s = session_run(cap, false, hello, ops);
            let all = captured(s.events);
            let given = s.sending.given;
            let sent = s.sending.written;
            let room: nat = if cap == 0 {
                1
            } else {
                cap
            };
            &&& any_stops(s.events)
            &&& sent == hello.encoding() + frames_encoding(given)
            &&& s.sending.flushed == sent.len()
            &&& given.len() + s.ring.dropped == all.len()
            &&& exists|places: Seq<int>| #[trigger]
                stand_at(given, all, places) && forall|k: int|
                    0 <= k < all.len() && k + room >= all.len() ==> #[trigger] places.contains(k)
            &&& all_deliverable(all) ==> {
                &&& sink_run(SinkView::new(), sent).hello == Some(hello)
                &&& sink_run(SinkView::new(), sent).frames == given
                &&& sink_run(SinkView::new(), sent).end is Ok
            }
        }),
{
    let s = session_run(cap, false, hello, ops);
    let done = ring_ops(cap, false, hello, ops);
    let run = ring_run(cap, false, done);
    let all = captured(s.events);
    let given = s.sending.given;
    lemma_session_is_sound(cap, false, hello, ops);
    law_capture_hands_on_what_it_captured(s.events);
    law_session_ring_is_a_ring(cap, false, hello, ops);
    law_ring_is_bounded(cap, false, done);
    law_newest_frames_come_out(cap, false, done);
    lemma_live_places(cap, hello, ops);
    assert(run.accepted =~= all);
    if all_deliverable(all) {
        assert forall|i: int| 0 <= i < given.len() implies (#[trigger] given[i]).deliverable() by {
            assert(given[i] == all[run.places[i]]);
        }
        law_stream_is_recovered(hello, given);
    }
}

/// The same ring with what its frames hold in place of the frames.
pub open spec fn ring_contents(ring: RingView<Frame>) -> RingView<FrameView> {
    RingView {
        q: Seq::new(ring.q.len(), |i: int| ring.q[i]@),
        closed: ring.closed,
        dropped: ring.dropped,
        cap: ring.cap,
        lossless: ring.lossless,
    }
}

/// What a ring does depends on no more of its frames than what they hold, so the
/// ring of a session stands for a ring of frames.
pub proof fn law_ring_contents_follow(ring: RingView<Frame>, f: Frame)
    requires
        ring.cap >= 1,
    ensures
        ring_contents(ring.after_push(f)) == ring_contents(ring).after_push(f@),
        ring_contents(ring.after_pop()) == ring_contents(ring).after_pop(),
        ring_contents(ring.after_close()) == ring_contents(ring).after_close(),
        ring_contents(ring).pushed(f@) == (match ring.pushed(f) {
            Pushed::Queued => Pushed::Queued,
            Pushed::Full(back) => Pushed::Full(back@),
            Pushed::Closed => Pushed::Closed,
        }),
{
    assert(ring_contents(ring.after_push(f)).q =~= ring_contents(ring).after_push(f@).q);
    assert(ring_contents(ring.after_pop()).q =~= ring_contents(ring).after_pop().q);
}

} // verus!
