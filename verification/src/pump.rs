//! The sending side: what to write when a frame has been taken off the ring.

use vstd::prelude::*;

use crate::frame::{frames_encoding, lemma_frames_encoding_push, write_frame, Frame, FrameView};

verus! {

/// What to do with the connection next.
pub enum PumpAction {
    /// Write these bytes; they may stay in a buffer for now.
    Write(Vec<u8>),
    /// Send whatever is still in a buffer.
    Flush,
    /// Send whatever is still in a buffer; then the stream is over.
    Finish,
}

/// The same, as plain values.
pub enum PumpActionView {
    Write(Seq<u8>),
    Flush,
    Finish,
}

impl View for PumpAction {
    type V = PumpActionView;

    open spec fn view(&self) -> PumpActionView {
        match self {
            PumpAction::Write(b) => PumpActionView::Write(b@),
            PumpAction::Flush => PumpActionView::Flush,
            PumpAction::Finish => PumpActionView::Finish,
        }
    }
}

/// Sends frames in batches: one is waited for, then all that are there follow,
/// then the batch is flushed.
pub struct Pump {
    pub batching: bool,
}

/// What a pump does with what it was given, and whether a batch is under way
/// after it.
pub open spec fn pump_step(batching: bool, popped: Option<FrameView>) -> (PumpActionView, bool) {
    match popped {
        Some(f) => (PumpActionView::Write(f.encoding()), true),
        None => if batching {
            (PumpActionView::Flush, false)
        } else {
            (PumpActionView::Finish, false)
        },
    }
}

impl Pump {
    pub fn new() -> (pump: Pump)
        ensures
            !pump.batching,
    {
        Pump { batching: false }
    }

    /// Whether to wait for the next frame, or to take one only if it is there.
    pub fn waits(&self) -> (yes: bool)
        ensures
            yes == !self.batching,
    {
        !self.batching
    }

    /// Deals with what came off the ring: a frame, or nothing. Where the pump
    /// waits, nothing means that the ring is drained.
    pub fn on_pop(&mut self, popped: Option<Frame>) -> (action: PumpAction)
        ensures
            ({
                let given = match popped {
                    Some(f) => Some(f@),
                    None => None,
                };
                (action@, final(self).batching) == pump_step(old(self).batching, given)
            }),
    {
        match popped {
            Some(f) => {
                let mut bytes: Vec<u8> = Vec::new();
                let _ = write_frame(&mut bytes, &f);
                assert(bytes@ =~= f@.encoding());
                self.batching = true;
                PumpAction::Write(bytes)
            },
            None => if self.batching {
                self.batching = false;
                PumpAction::Flush
            } else {
                PumpAction::Finish
            },
        }
    }
}

/// A pump together with what it wrote.
pub struct PumpRun {
    pub batching: bool,
    pub written: Seq<u8>,
    /// How many of the bytes written have been flushed.
    pub flushed: nat,
}

/// A new pump that is given `pops`, one after the other.
pub open spec fn pump_run(pops: Seq<Option<FrameView>>) -> PumpRun
    decreases pops.len(),
{
    if pops.len() == 0 {
        PumpRun { batching: false, written: Seq::empty(), flushed: 0 }
    } else {
        let before = pump_run(pops.drop_last());
        let (action, batching) = pump_step(before.batching, pops.last());
        match action {
            PumpActionView::Write(b) => PumpRun {
                batching,
                written: before.written + b,
                flushed: before.flushed,
            },
            _ => PumpRun { batching, written: before.written, flushed: before.written.len() },
        }
    }
}

/// The frames among `pops`.
pub open spec fn frames_of(pops: Seq<Option<FrameView>>) -> Seq<FrameView>
    decreases pops.len(),
{
    if pops.len() == 0 {
        Seq::empty()
    } else {
        match pops.last() {
            Some(f) => frames_of(pops.drop_last()).push(f),
            None => frames_of(pops.drop_last()),
        }
    }
}

/// What a pump writes is the frames that it was given, in order and nothing else.
pub proof fn law_pump_writes_what_it_is_given(pops: Seq<Option<FrameView>>)
    ensures
        pump_run(pops).written == frames_encoding(frames_of(pops)),
    decreases pops.len(),
{
    if pops.len() > 0 {
        law_pump_writes_what_it_is_given(pops.drop_last());
        if let Some(f) = pops.last() {
            lemma_frames_encoding_push(frames_of(pops.drop_last()), f);
        }
    }
}

/// No frame is held back: when a pump waits, or is done, all that it wrote has
/// been flushed.
pub proof fn law_pump_flushes_before_it_waits(pops: Seq<Option<FrameView>>)
    ensures
        !pump_run(pops).batching ==> pump_run(pops).flushed == pump_run(pops).written.len(),
    decreases pops.len(),
{
    if pops.len() > 0 {
        law_pump_flushes_before_it_waits(pops.drop_last());
    }
}

/// A frame is written at once and a batch is under way then. That there is none ends
/// the batch with a flush, or, where none was under way, the stream.
pub proof fn law_what_a_pump_does(batching: bool, f: FrameView)
    ensures
        pump_step(batching, Some(f)) == (PumpActionView::Write(f.encoding()), true),
        pump_step(true, None) == (PumpActionView::Flush, false),
        pump_step(false, None) == (PumpActionView::Finish, false),
{
}

} // verus!
