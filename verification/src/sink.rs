//! The consuming side: what to read next, and what to make of it.

use vstd::prelude::*;
use vstd::slice::slice_to_vec;
use vstd::string::*;

use crate::frame::{Frame, FrameView};
use crate::proto::{
    frame_header_reading, hello_reading, hello_wants, FrameHeader, Hello, HelloView, ProtoError,
    MAX_CAPLEN,
};
use crate::text::{decimal, decimal_string};

verus! {

/// A progress report is due each time that this many frames have arrived.
pub const PROGRESS_EVERY: u64 = 500;

/// Why a stream is given up.
#[derive(Debug, Clone, Copy, PartialEq, Eq, Structural)]
pub enum SinkError {
    /// A message is faulty, or the stream ends inside it.
    Proto(ProtoError),
    /// A frame claims to be longer than any frame may be.
    CaplenTooLarge(u32),
}

impl SinkError {
    pub open spec fn text(self) -> Seq<char> {
        match self {
            SinkError::Proto(e) => e.text(),
            SinkError::CaplenTooLarge(n) => "frame caplen "@ + decimal(n as nat) + " exceeds max "@
                + decimal(MAX_CAPLEN as nat),
        }
    }

    /// The fault in words.
    pub fn message(&self) -> (text: String)
        ensures
            text@ == self.text(),
    {
        match self {
            SinkError::Proto(e) => e.message(),
            SinkError::CaplenTooLarge(n) => {
                let mut s: String = "frame caplen ".to_owned();
                s.append(decimal_string(*n as u64).as_str());
                s.append(" exceeds max ");
                s.append(decimal_string(MAX_CAPLEN as u64).as_str());
                s
            },
        }
    }
}

/// What the next bytes of a stream belong to.
pub enum Phase {
    /// The `Hello`, of which these bytes have arrived.
    Hello(Vec<u8>),
    /// A frame header, or nothing: here the stream may end.
    Header,
    /// The data of the frame with this header.
    Data(FrameHeader),
    /// Nothing: the stream is over or was given up.
    Over,
}

/// The same, as plain values.
pub enum PhaseView {
    Hello(Seq<u8>),
    Header,
    Data(FrameHeader),
    Over,
}

impl View for Phase {
    type V = PhaseView;

    open spec fn view(&self) -> PhaseView {
        match self {
            Phase::Hello(got) => PhaseView::Hello(got@),
            Phase::Header => PhaseView::Header,
            Phase::Data(h) => PhaseView::Data(*h),
            Phase::Over => PhaseView::Over,
        }
    }
}

/// What bytes have brought.
pub enum SinkAction {
    /// Nothing whole yet.
    More,
    /// The agent's `Hello`.
    Hello(Hello),
    /// A frame; `report` says whether a progress report is due.
    Frame { frame: Frame, report: bool },
}

/// The same, as plain values.
pub enum SinkActionView {
    More,
    Hello(HelloView),
    Frame { frame: FrameView, report: bool },
}

impl View for SinkAction {
    type V = SinkActionView;

    open spec fn view(&self) -> SinkActionView {
        match self {
            SinkAction::More => SinkActionView::More,
            SinkAction::Hello(h) => SinkActionView::Hello(h@),
            SinkAction::Frame { frame, report } => SinkActionView::Frame {
                frame: frame@,
                report: *report,
            },
        }
    }
}

/// A sink's state, as plain values.
pub struct SinkView {
    pub phase: PhaseView,
    pub frames: nat,
    pub bytes: nat,
}

impl SinkView {
    pub open spec fn new() -> SinkView {
        SinkView { phase: PhaseView::Hello(Seq::empty()), frames: 0, bytes: 0 }
    }

    /// How many bytes to read next.
    pub open spec fn wants(self) -> nat {
        match self.phase {
            PhaseView::Hello(got) => hello_wants(got),
            PhaseView::Header => 16,
            PhaseView::Data(h) => h.caplen as nat,
            PhaseView::Over => 0,
        }
    }

    pub open spec fn over(self) -> SinkView {
        SinkView { phase: PhaseView::Over, ..self }
    }

    /// What the bytes that were wanted bring, and the state after them.
    pub open spec fn receive(self, chunk: Seq<u8>) -> (Result<SinkActionView, SinkError>, SinkView) {
        match self.phase {
            PhaseView::Hello(got) => if hello_wants(got + chunk) > 0 {
                (
                    Ok(SinkActionView::More),
                    SinkView { phase: PhaseView::Hello(got + chunk), ..self },
                )
            } else {
                match hello_reading(got + chunk).0 {
                    Ok(h) => (
                        Ok(SinkActionView::Hello(h)),
                        SinkView { phase: PhaseView::Header, ..self },
                    ),
                    Err(e) => (Err(SinkError::Proto(e)), self.over()),
                }
            },
            PhaseView::Header => match frame_header_reading(chunk).0 {
                Ok(h) => if h.caplen > MAX_CAPLEN {
                    (Err(SinkError::CaplenTooLarge(h.caplen)), self.over())
                } else {
                    (Ok(SinkActionView::More), SinkView { phase: PhaseView::Data(h), ..self })
                },
                Err(e) => (Err(SinkError::Proto(e)), self.over()),
            },
            PhaseView::Data(h) => (
                Ok(
                    SinkActionView::Frame {
                        frame: FrameView { header: h, data: chunk },
                        report: (self.frames + 1) % PROGRESS_EVERY as nat == 0,
                    },
                ),
                SinkView {
                    phase: PhaseView::Header,
                    frames: self.frames + 1,
                    bytes: self.bytes + h.caplen as nat,
                },
            ),
            PhaseView::Over => (Ok(SinkActionView::More), self),
        }
    }

    /// What it means that the stream ends before the wanted bytes are there.
    pub open spec fn end(self) -> Result<(), SinkError> {
        match self.phase {
            PhaseView::Header | PhaseView::Over => Ok(()),
            _ => Err(SinkError::Proto(ProtoError::UnexpectedEof)),
        }
    }

    /// Whether there is no counting one more frame.
    pub open spec fn counters_full(self) -> bool {
        self.phase matches PhaseView::Data(h) && (self.frames >= u64::MAX || self.bytes + h.caplen
            > u64::MAX)
    }
}

/// The consumer of one stream.
pub struct Sink {
    phase: Phase,
    frames: u64,
    bytes: u64,
}

impl View for Sink {
    type V = SinkView;

    closed spec fn view(&self) -> SinkView {
        SinkView {
            phase: self.phase@,
            frames: self.frames as nat,
            bytes: self.bytes as nat,
        }
    }
}

impl Sink {
    /// An incomplete `Hello` is short of something, and no accepted frame is
    /// longer than allowed.
    pub open spec fn wf(&self) -> bool {
        &&& self@.phase matches PhaseView::Hello(got) ==> hello_wants(got) > 0
        &&& self@.phase matches PhaseView::Data(h) ==> h.caplen <= MAX_CAPLEN
    }

    pub fn new() -> (sink: Sink)
        ensures
            sink.wf(),
            sink@ == SinkView::new(),
    {
        let sink: Sink = Sink { phase: Phase::Hello(Vec::new()), frames: 0, bytes: 0 };
        assert(sink@.phase->Hello_0 =~= Seq::<u8>::empty());
        sink
    }

    /// How many bytes to read next: never more than the longest frame has.
    pub fn wanted(&self) -> (n: usize)
        requires
            self.wf(),
        ensures
            n == self@.wants(),
            n <= MAX_CAPLEN,
    {
        match &self.phase {
            Phase::Hello(got) => {
                let n: usize = Hello::wanted(got.as_slice());
                proof {
                    crate::proto_laws::lemma_hello_wants_bound(got@);
                }
                n
            },
            Phase::Header => 16,
            Phase::Data(h) => h.caplen as usize,
            Phase::Over => 0,
        }
    }

    /// Whether there is no counting one more frame.
    pub fn counters_full(&self) -> (yes: bool)
        ensures
            yes == self@.counters_full(),
    {
        match &self.phase {
            Phase::Data(h) => self.frames == u64::MAX || self.bytes > u64::MAX - h.caplen as u64,
            _ => false,
        }
    }

    /// Takes the bytes that were wanted. A stream that is over, or was given up,
    /// has none.
    pub fn receive(&mut self, chunk: &[u8]) -> (res: Result<SinkAction, SinkError>)
        requires
            old(self).wf(),
            old(self)@.phase !is Over,
            chunk@.len() == old(self)@.wants(),
            !old(self)@.counters_full(),
        ensures
            final(self).wf(),
            final(self)@ == old(self)@.receive(chunk@).1,
            match (res, old(self)@.receive(chunk@).0) {
                (Ok(a), Ok(want)) => a@ == want,
                (Err(e), Err(want)) => e == want,
                _ => false,
            },
    {
        let mut phase: Phase = Phase::Over;
        std::mem::swap(&mut phase, &mut self.phase);
        match phase {
            Phase::Hello(mut got) => {
                let ghost before = got@;
                got.extend_from_slice(chunk);
                assert(got@ =~= before + chunk@);
                if Hello::wanted(got.as_slice()) > 0 {
                    self.phase = Phase::Hello(got);
                    return Ok(SinkAction::More);
                }
                let mut r: &[u8] = got.as_slice();
                match Hello::read_from(&mut r) {
                    Ok(h) => {
                        self.phase = Phase::Header;
                        Ok(SinkAction::Hello(h))
                    },
                    Err(e) => Err(SinkError::Proto(e)),
                }
            },
            Phase::Header => {
                let mut r: &[u8] = chunk;
                match FrameHeader::read_from(&mut r) {
                    Ok(h) => {
                        if h.caplen > MAX_CAPLEN {
                            return Err(SinkError::CaplenTooLarge(h.caplen));
                        }
                        self.phase = Phase::Data(h);
                        Ok(SinkAction::More)
                    },
                    Err(e) => Err(SinkError::Proto(e)),
                }
            },
            Phase::Data(h) => {
                self.phase = Phase::Header;
                self.frames = self.frames + 1;
                self.bytes = self.bytes + h.caplen as u64;
                let report: bool = self.frames % PROGRESS_EVERY == 0;
                let frame: Frame = Frame { header: h, data: slice_to_vec(chunk) };
                Ok(SinkAction::Frame { frame, report })
            },
            Phase::Over => Ok(SinkAction::More),
        }
    }

    /// Takes note that the stream ended before the wanted bytes were there. That
    /// is as it should be between two frames, even inside a frame header.
    pub fn at_end(&mut self) -> (res: Result<(), SinkError>)
        ensures
            res == old(self)@.end(),
            final(self)@ == old(self)@.over(),
    {
        let ended: Result<(), SinkError> = match &self.phase {
            Phase::Header => Ok(()),
            Phase::Over => Ok(()),
            _ => Err(SinkError::Proto(ProtoError::UnexpectedEof)),
        };
        self.phase = Phase::Over;
        ended
    }

    /// How many frames have arrived.
    pub fn frames(&self) -> (n: u64)
        ensures
            n == self@.frames,
    {
        self.frames
    }

    /// How many bytes of data have arrived.
    pub fn bytes(&self) -> (n: u64)
        ensures
            n == self@.bytes,
    {
        self.bytes
    }
}

} // verus!
