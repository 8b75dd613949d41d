//! The sending side of one session: the `Hello` first, then what comes off the
//! ring, then the end.
//!
//! The sender does nothing itself. It says what to do next, and is told how that
//! went.

use vstd::prelude::*;

use crate::frame::{frames_encoding, lemma_frames_encoding_push, Frame, FrameView};
use crate::proto::{filter_fits, Hello, HelloView, ProtoError};
use crate::proto_laws::law_frame_header_reads_back;
use crate::pump::{pump_step, Pump, PumpAction, PumpActionView};

verus! {

/// How the sending of a session ended.
#[derive(Debug, Clone, Copy, PartialEq, Eq, Structural)]
pub enum SendEnd {
    /// The ring is drained and all of it was sent.
    Delivered,
    /// The `Hello` cannot be written.
    Refused(ProtoError),
    /// The connection failed.
    Disconnected,
}

/// How far the sending is.
#[derive(Debug, Clone, Copy, PartialEq, Eq, Structural)]
pub enum SendStage {
    /// Nothing was done yet.
    Opening,
    /// The `Hello` is being written.
    HelloWritten,
    /// The part of the `Hello` before its filter is being written; the rest does
    /// not fit.
    HelloRefused,
    /// The last frame is being written, or the last batch flushed.
    Between,
    /// A frame is being taken off the ring.
    Taking,
    /// The last flush is under way.
    Finishing,
    /// Nothing more is done.
    Over(SendEnd),
}

/// What happened.
pub enum SendEvent {
    /// What was to be done is done.
    Ready,
    /// What was to be done failed.
    Failed,
    /// What came off the ring: a frame, or nothing.
    Popped(Option<Frame>),
}

/// The same, as plain values.
pub enum SendEventView {
    Ready,
    Failed,
    Popped(Option<FrameView>),
}

impl View for SendEvent {
    type V = SendEventView;

    open spec fn view(&self) -> SendEventView {
        match self {
            SendEvent::Ready => SendEventView::Ready,
            SendEvent::Failed => SendEventView::Failed,
            SendEvent::Popped(Some(f)) => SendEventView::Popped(Some(f@)),
            SendEvent::Popped(None) => SendEventView::Popped(None),
        }
    }
}

/// What to do next.
pub enum SendStep {
    /// Write these bytes; they may stay in a buffer for now.
    Write(Vec<u8>),
    /// Send whatever is still in a buffer.
    Flush,
    /// Take a frame off the ring and wait for one; there is none only once the
    /// ring is closed and drained.
    Wait,
    /// Take a frame off the ring if there is one.
    Take,
    /// Close the ring: the sending is over.
    Close(SendEnd),
}

/// The same, as plain values.
pub enum SendStepView {
    Write(Seq<u8>),
    Flush,
    Wait,
    Take,
    Close(SendEnd),
}

impl View for SendStep {
    type V = SendStepView;

    open spec fn view(&self) -> SendStepView {
        match self {
            SendStep::Write(b) => SendStepView::Write(b@),
            SendStep::Flush => SendStepView::Flush,
            SendStep::Wait => SendStepView::Wait,
            SendStep::Take => SendStepView::Take,
            SendStep::Close(end) => SendStepView::Close(*end),
        }
    }
}

/// A sender, as plain values.
pub struct SenderView {
    pub hello: HelloView,
    /// Whether frames were written since the last flush.
    pub batching: bool,
    pub stage: SendStage,
}

/// What a sender does about an event, and the state that it is in then. What
/// cannot happen at its stage ends the sending as a failure does.
pub open spec fn send_step(s: SenderView, event: SendEventView) -> (SendStepView, SenderView) {
    match (s.stage, event) {
        (SendStage::Over(end), _) => (SendStepView::Close(end), s),
        (SendStage::Opening, SendEventView::Ready) => if filter_fits(s.hello.filter) {
            (
                SendStepView::Write(s.hello.encoding()),
                SenderView { stage: SendStage::HelloWritten, ..s },
            )
        } else {
            (
                SendStepView::Write(s.hello.head()),
                SenderView { stage: SendStage::HelloRefused, ..s },
            )
        },
        (SendStage::HelloWritten, SendEventView::Ready) => (
            SendStepView::Flush,
            SenderView { stage: SendStage::Between, ..s },
        ),
        (SendStage::HelloRefused, SendEventView::Ready) => s.closing(
            SendEnd::Refused(ProtoError::FilterTooLong),
        ),
        (SendStage::Between, SendEventView::Ready) => (
            if s.batching {
                SendStepView::Take
            } else {
                SendStepView::Wait
            },
            SenderView { stage: SendStage::Taking, ..s },
        ),
        (SendStage::Taking, SendEventView::Popped(popped)) => match pump_step(
            s.batching,
            popped,
        ) {
            (PumpActionView::Write(b), batching) => (
                SendStepView::Write(b),
                SenderView { stage: SendStage::Between, batching, ..s },
            ),
            (PumpActionView::Flush, batching) => (
                SendStepView::Flush,
                SenderView { stage: SendStage::Between, batching, ..s },
            ),
            (PumpActionView::Finish, batching) => (
                SendStepView::Flush,
                SenderView { stage: SendStage::Finishing, batching, ..s },
            ),
        },
        (SendStage::Finishing, SendEventView::Ready) => s.closing(SendEnd::Delivered),
        _ => s.closing(SendEnd::Disconnected),
    }
}

impl SenderView {
    pub open spec fn new(hello: HelloView) -> SenderView {
        SenderView { hello, batching: false, stage: SendStage::Opening }
    }

    pub open spec fn closing(self, end: SendEnd) -> (SendStepView, SenderView) {
        (SendStepView::Close(end), SenderView { stage: SendStage::Over(end), ..self })
    }
}

/// The sending side of one session.
pub struct Sender {
    hello: Hello,
    pump: Pump,
    stage: SendStage,
}

impl View for Sender {
    type V = SenderView;

    closed spec fn view(&self) -> SenderView {
        SenderView { hello: self.hello@, batching: self.pump.batching, stage: self.stage }
    }
}

impl Sender {
    /// A sender that opens with `hello`; its first event is `Ready`.
    pub fn new(hello: Hello) -> (sender: Sender)
        ensures
            sender@ == SenderView::new(hello@),
    {
        Sender { hello, pump: Pump::new(), stage: SendStage::Opening }
    }

    fn close(&mut self, end: SendEnd) -> (step: SendStep)
        ensures
            (step@, final(self)@) == old(self)@.closing(end),
    {
        self.stage = SendStage::Over(end);
        SendStep::Close(end)
    }

    /// Deals with one event.
    pub fn on_event(&mut self, event: SendEvent) -> (step: SendStep)
        ensures
            (step@, final(self)@) == send_step(old(self)@, event@),
    {
        match (self.stage, event) {
            (SendStage::Over(end), _) => SendStep::Close(end),
            (SendStage::Opening, SendEvent::Ready) => {
                let mut bytes: Vec<u8> = Vec::new();
                let res: Result<(), ProtoError> = self.hello.write_to(&mut bytes);
                self.stage = match res {
                    Ok(_) => SendStage::HelloWritten,
                    Err(_) => SendStage::HelloRefused,
                };
                assert(Seq::<u8>::empty() + self@.hello.encoding() =~= self@.hello.encoding());
                assert(Seq::<u8>::empty() + self@.hello.head() =~= self@.hello.head());
                SendStep::Write(bytes)
            },
            (SendStage::HelloWritten, SendEvent::Ready) => {
                self.stage = SendStage::Between;
                SendStep::Flush
            },
            (SendStage::HelloRefused, SendEvent::Ready) => self.close(
                SendEnd::Refused(ProtoError::FilterTooLong),
            ),
            (SendStage::Between, SendEvent::Ready) => {
                self.stage = SendStage::Taking;
                if self.pump.waits() {
                    SendStep::Wait
                } else {
                    SendStep::Take
                }
            },
            (SendStage::Taking, SendEvent::Popped(popped)) => match self.pump.on_pop(popped) {
                PumpAction::Write(bytes) => {
                    self.stage = SendStage::Between;
                    SendStep::Write(bytes)
                },
                PumpAction::Flush => {
                    self.stage = SendStage::Between;
                    SendStep::Flush
                },
                PumpAction::Finish => {
                    self.stage = SendStage::Finishing;
                    SendStep::Flush
                },
            },
            (SendStage::Finishing, SendEvent::Ready) => self.close(SendEnd::Delivered),
            _ => self.close(SendEnd::Disconnected),
        }
    }
}

/// A sender together with what came of its steps.
pub struct SenderRun {
    pub sender: SenderView,
    /// The step that it asked for last.
    pub last: Option<SendStepView>,
    /// The bytes that were written.
    pub written: Seq<u8>,
    /// How many of them have been flushed.
    pub flushed: nat,
    /// The frames that it was given.
    pub given: Seq<FrameView>,
}

impl SenderRun {
    pub open spec fn new(hello: HelloView) -> SenderRun {
        SenderRun {
            sender: SenderView::new(hello),
            last: None,
            written: Seq::empty(),
            flushed: 0,
            given: Seq::empty(),
        }
    }

    /// The sender after one more event. That its last step is done means that the
    /// bytes are written, or flushed.
    pub open spec fn step(self, event: SendEventView) -> SenderRun {
        let (next, sender) = send_step(self.sender, event);
        SenderRun {
            sender,
            last: Some(next),
            written: match (event, self.last) {
                (SendEventView::Ready, Some(SendStepView::Write(b))) => self.written + b,
                _ => self.written,
            },
            flushed: match (event, self.last) {
                (SendEventView::Ready, Some(SendStepView::Flush)) => self.written.len(),
                _ => self.flushed,
            },
            given: match (self.sender.stage, event) {
                (SendStage::Taking, SendEventView::Popped(Some(f))) => self.given.push(f),
                _ => self.given,
            },
        }
    }

    /// The `Hello` and the frames given, as bytes.
    pub open spec fn owed(self) -> Seq<u8> {
        self.sender.hello.encoding() + frames_encoding(self.given)
    }

    /// Whether the `Hello` has been written and flushed.
    pub open spec fn opened(self) -> bool {
        let hello = self.sender.hello.encoding();
        &&& filter_fits(self.sender.hello.filter)
        &&& hello.is_prefix_of(self.written)
        &&& hello.len() <= self.flushed <= self.written.len()
    }

    /// What holds of a sender at each of its stages.
    pub open spec fn consistent(self) -> bool {
        let s = self.sender;
        &&& self.given.len() > 0 ==> self.opened()
        &&& filter_fits(s.hello.filter) ==> self.written.is_prefix_of(self.owed())
        &&& match s.stage {
            SendStage::Opening => {
                &&& self.last is None
                &&& self.written.len() == 0
                &&& self.given.len() == 0
                &&& !s.batching
            },
            SendStage::HelloWritten => {
                &&& filter_fits(s.hello.filter)
                &&& self.last == Some(SendStepView::Write(s.hello.encoding()))
                &&& self.written.len() == 0
                &&& self.given.len() == 0
                &&& !s.batching
            },
            SendStage::HelloRefused => {
                &&& !filter_fits(s.hello.filter)
                &&& self.last == Some(SendStepView::Write(s.hello.head()))
                &&& self.written.len() == 0
                &&& self.given.len() == 0
            },
            SendStage::Between => {
                &&& filter_fits(s.hello.filter)
                &&& if s.batching {
                    &&& self.last matches Some(SendStepView::Write(b))
                    &&& b.len() > 0
                    &&& self.written + b == self.owed()
                    &&& self.opened()
                } else {
                    &&& self.last == Some(SendStepView::Flush)
                    &&& self.written == self.owed()
                }
            },
            SendStage::Taking => {
                &&& self.last == Some(
                    if s.batching {
                        SendStepView::Take
                    } else {
                        SendStepView::Wait
                    },
                )
                &&& self.written == self.owed()
                &&& self.opened()
                &&& s.batching <==> self.flushed < self.written.len()
            },
            SendStage::Finishing => {
                &&& self.last == Some(SendStepView::Flush)
                &&& self.written == self.owed()
                &&& self.opened()
            },
            SendStage::Over(end) => {
                &&& self.last == Some(SendStepView::Close(end))
                &&& match end {
                    SendEnd::Delivered => {
                        &&& self.written == self.owed()
                        &&& self.opened()
                        &&& self.flushed == self.written.len()
                    },
                    SendEnd::Refused(e) => {
                        &&& e == ProtoError::FilterTooLong
                        &&& !filter_fits(s.hello.filter)
                        &&& self.written == s.hello.head()
                        &&& self.given.len() == 0
                    },
                    SendEnd::Disconnected => true,
                }
            },
        }
    }
}

/// A new sender that is told of `events`, one after the other.
pub open spec fn sender_run(hello: HelloView, events: Seq<SendEventView>) -> SenderRun
    decreases events.len(),
{
    if events.len() == 0 {
        SenderRun::new(hello)
    } else {
        sender_run(hello, events.drop_last()).step(events.last())
    }
}

pub proof fn lemma_new_is_consistent(hello: HelloView)
    ensures
        SenderRun::new(hello).consistent(),
{
    let run = SenderRun::new(hello);
    assert(run.written =~= run.owed().subrange(0, 0));
}

proof fn lemma_given_one_more(run: SenderRun, f: FrameView)
    requires
        run.consistent(),
        run.sender.stage is Taking,
    ensures
        run.step(SendEventView::Popped(Some(f))).consistent(),
{
    let next = run.step(SendEventView::Popped(Some(f)));
    let hello = run.sender.hello.encoding();
    lemma_frames_encoding_push(run.given, f);
    law_frame_header_reads_back(f.header, Seq::empty());
    assert(next.owed() =~= run.owed() + f.encoding());
    assert(run.written =~= next.owed().subrange(0, run.written.len() as int));
}

/// What holds of a sender goes on to hold, whatever happens.
pub proof fn lemma_step_is_consistent(run: SenderRun, event: SendEventView)
    requires
        run.consistent(),
    ensures
        run.step(event).consistent(),
{
    let next = run.step(event);
    let hello = run.sender.hello.encoding();
    match (run.sender.stage, event) {
        (SendStage::Taking, SendEventView::Popped(Some(f))) => {
            lemma_given_one_more(run, f);
        },
        (SendStage::Opening, SendEventView::Ready) => {
            assert(next.written =~= next.owed().subrange(0, 0));
        },
        (SendStage::HelloWritten, SendEventView::Ready) => {
            assert(run.given =~= Seq::<FrameView>::empty());
            assert(next.written =~= next.owed());
            assert(next.written =~= next.owed().subrange(0, next.written.len() as int));
        },
        (SendStage::HelloRefused, SendEventView::Ready) => {
            assert(next.written =~= run.sender.hello.head());
        },
        (SendStage::Between, SendEventView::Ready) => {
            assert(next.written =~= next.owed());
            assert(next.written =~= next.owed().subrange(0, next.written.len() as int));
            assert(hello =~= next.written.subrange(0, hello.len() as int));
        },
        _ => {},
    }
}

proof fn lemma_run_is_consistent(hello: HelloView, events: Seq<SendEventView>)
    ensures
        sender_run(hello, events).consistent(),
        sender_run(hello, events).sender.hello == hello,
    decreases events.len(),
{
    if events.len() == 0 {
        lemma_new_is_consistent(hello);
    } else {
        let before = sender_run(hello, events.drop_last());
        lemma_run_is_consistent(hello, events.drop_last());
        lemma_step_is_consistent(before, events.last());
    }
}

/// No frame is taken off the ring before the whole `Hello` has been written and
/// flushed, and none at all where the `Hello` cannot be written.
pub proof fn law_hello_goes_first(hello: HelloView, events: Seq<SendEventView>)
    ensures
        ({
            let run = sender_run(hello, events);
            run.last == Some(SendStepView::Wait) || run.last == Some(SendStepView::Take)
                || run.given.len() > 0 ==> {
                &&& filter_fits(hello.filter)
                &&& hello.encoding().is_prefix_of(run.written)
                &&& hello.encoding().len() <= run.flushed
            }
        }),
{
    lemma_run_is_consistent(hello, events);
}

/// What is written is, at any time, a beginning of the `Hello` and the frames
/// given, in order; and all of it once the frames are said to be delivered, with
/// nothing left in a buffer.
pub proof fn law_sender_writes_what_it_is_given(hello: HelloView, events: Seq<SendEventView>)
    ensures
        ({
            let run = sender_run(hello, events);
            let owed = hello.encoding() + frames_encoding(run.given);
            &&& filter_fits(hello.filter) ==> run.written.is_prefix_of(owed)
            &&& run.last == Some(SendStepView::Close(SendEnd::Delivered)) ==> {
                &&& run.written == owed
                &&& run.flushed == owed.len()
            }
        }),
{
    lemma_run_is_consistent(hello, events);
}

/// No frame is held back: when the sender waits for one, all before it has been
/// flushed.
pub proof fn law_sender_flushes_before_it_waits(hello: HelloView, events: Seq<SendEventView>)
    ensures
        ({
            let run = sender_run(hello, events);
            run.last == Some(SendStepView::Wait) ==> {
                &&& run.written == hello.encoding() + frames_encoding(run.given)
                &&& run.flushed == run.written.len()
            }
        }),
{
    lemma_run_is_consistent(hello, events);
}

/// Every outcome leads to the closing of the ring: a failure at once, and the
/// sending is over exactly if it has asked for that.
pub proof fn law_every_end_closes(hello: HelloView, events: Seq<SendEventView>)
    ensures
        sender_run(hello, events.push(SendEventView::Failed)).last matches Some(
            SendStepView::Close(_),
        ),
        sender_run(hello, events).sender.stage is Over <==> (sender_run(
            hello,
            events,
        ).last matches Some(SendStepView::Close(_))),
{
    lemma_run_is_consistent(hello, events);
    assert(events.push(SendEventView::Failed).drop_last() =~= events);
}

/// Once it is over it stays over, with the same end, and nothing more is written
/// or taken.
pub proof fn law_over_is_over(
    hello: HelloView,
    events: Seq<SendEventView>,
    more: Seq<SendEventView>,
)
    requires
        sender_run(hello, events).sender.stage is Over,
    ensures
        sender_run(hello, events + more) == sender_run(hello, events),
    decreases more.len(),
{
    if more.len() == 0 {
        assert(events + more =~= events);
    } else {
        law_over_is_over(hello, events, more.drop_last());
        assert((events + more).drop_last() =~= events + more.drop_last());
        lemma_run_is_consistent(hello, events);
    }
}

/// A `Hello` whose filter is too long for its length field is refused: what comes
/// before that field is written, no frame is taken, and the ring is closed.
pub proof fn law_long_filter_is_refused(hello: HelloView)
    requires
        !filter_fits(hello.filter),
    ensures
        ({
            let run = sender_run(hello, seq![SendEventView::Ready, SendEventView::Ready]);
            &&& run.last == Some(
                SendStepView::Close(SendEnd::Refused(ProtoError::FilterTooLong)),
            )
            &&& run.written == hello.head()
            &&& run.given.len() == 0
        }),
{
    let two = seq![SendEventView::Ready, SendEventView::Ready];
    let one = seq![SendEventView::Ready];
    assert(two.drop_last() =~= one);
    assert(one.drop_last() =~= Seq::<SendEventView>::empty());
    assert(sender_run(hello, Seq::<SendEventView>::empty()) == SenderRun::new(hello));
    assert(sender_run(hello, one) == SenderRun::new(hello).step(SendEventView::Ready));
    lemma_run_is_consistent(hello, two);
}

/// A sender waits for a frame exactly when nothing that it wrote is held back; else
/// it takes only what is there.
pub proof fn law_sender_waits_with_empty_hands(hello: HelloView, events: Seq<SendEventView>)
    ensures
        ({
            let run = sender_run(hello, events);
            &&& run.last == Some(SendStepView::Wait) ==> run.flushed == run.written.len()
            &&& run.last == Some(SendStepView::Take) ==> run.flushed < run.written.len()
            &&& run.sender.stage is Taking <==> run.last == Some(SendStepView::Wait) || run.last
                == Some(SendStepView::Take)
        }),
{
    lemma_run_is_consistent(hello, events);
}

/// What follows when a sender has asked for a frame: the frame is written and more
/// is taken; where there was none, what is held back is flushed and the next one is
/// waited for; and where it waited for one in vain, the last flush ends the sending
/// with all delivered.
pub proof fn law_what_follows_a_pop(hello: HelloView, events: Seq<SendEventView>, f: FrameView)
    ensures
        ({
            let run = sender_run(hello, events);
            let given = run.step(SendEventView::Popped(Some(f)));
            let none = run.step(SendEventView::Popped(None));
            let waited = run.last == Some(SendStepView::Wait);
            waited || run.last == Some(SendStepView::Take) ==> {
                &&& given.last == Some(SendStepView::Write(f.encoding()))
                &&& given.step(SendEventView::Ready).last == Some(SendStepView::Take)
                &&& none.last == Some(SendStepView::Flush)
                &&& none.step(SendEventView::Ready).last == Some(
                    if waited {
                        SendStepView::Close(SendEnd::Delivered)
                    } else {
                        SendStepView::Wait
                    },
                )
            }
        }),
{
    lemma_run_is_consistent(hello, events);
}

/// How a sender opens: it writes its `Hello`, flushes it, and waits for a frame.
pub proof fn law_how_a_sender_opens(hello: HelloView)
    requires
        filter_fits(hello.filter),
    ensures
        ({
            let first = SenderRun::new(hello).step(SendEventView::Ready);
            let second = first.step(SendEventView::Ready);
            let third = second.step(SendEventView::Ready);
            &&& first.last == Some(SendStepView::Write(hello.encoding()))
            &&& second.last == Some(SendStepView::Flush)
            &&& third.last == Some(SendStepView::Wait)
        }),
{
}

/// A failure at any stage ends the sending as a lost connection.
pub proof fn law_failure_is_a_lost_connection(hello: HelloView, events: Seq<SendEventView>)
    ensures
        ({
            let run = sender_run(hello, events);
            !(run.last matches Some(SendStepView::Close(_))) ==> run.step(
                SendEventView::Failed,
            ).last == Some(SendStepView::Close(SendEnd::Disconnected))
        }),
{
    lemma_run_is_consistent(hello, events);
}

} // verus!
