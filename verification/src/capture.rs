//! The capturing side: what to do with each thing that the capture reports.

use vstd::arithmetic::div_mod::{lemma_add_mod_noop, lemma_mod_multiples_vanish, lemma_small_mod};
use vstd::prelude::*;

use crate::frame::{Frame, FrameView};
use crate::proto::FrameHeader;

verus! {

/// A progress report is due each time that this many packets were captured.
pub const REPORT_EVERY: u64 = 5000;

/// A captured packet, as the capture hands it over.
pub struct Packet {
    pub tv_sec: i64,
    pub tv_usec: i64,
    pub caplen: u32,
    pub len: u32,
    pub data: Vec<u8>,
}

/// The same, as plain values.
pub struct PacketView {
    pub tv_sec: i64,
    pub tv_usec: i64,
    pub caplen: u32,
    pub len: u32,
    pub data: Seq<u8>,
}

impl View for Packet {
    type V = PacketView;

    open spec fn view(&self) -> PacketView {
        PacketView {
            tv_sec: self.tv_sec,
            tv_usec: self.tv_usec,
            caplen: self.caplen,
            len: self.len,
            data: self.data@,
        }
    }
}

/// A count of microseconds, kept to 64 bits.
pub open spec fn micros(tv_sec: int, tv_usec: int) -> u64 {
    ((tv_sec * 1_000_000 + tv_usec) % 0x1_0000_0000_0000_0000) as u64
}

impl PacketView {
    /// The frame that stands for the packet.
    pub open spec fn frame(self) -> FrameView {
        FrameView {
            header: FrameHeader {
                ts_micros: micros(self.tv_sec as int, self.tv_usec as int),
                caplen: self.caplen,
                origlen: self.len,
            },
            data: self.data,
        }
    }
}

/// Counts that differ by whole turns of 64 bits come to the same.
proof fn lemma_micros_wrap(tv_sec: int, tv_usec: int, turns: int, more: int)
    ensures
        micros(tv_sec, tv_usec) == micros(
            tv_sec + turns * 0x1_0000_0000_0000_0000,
            tv_usec + more * 0x1_0000_0000_0000_0000,
        ),
{
    let m: int = 0x1_0000_0000_0000_0000;
    let a = tv_sec * 1_000_000 + tv_usec;
    let k = turns * 1_000_000 + more;
    assert((tv_sec + turns * m) * 1_000_000 + (tv_usec + more * m) == m * k + a);
    lemma_mod_multiples_vanish(k, a, m);
}

/// Seconds and microseconds as one count of microseconds; it wraps around.
pub fn ts_micros(tv_sec: i64, tv_usec: i64) -> (ts: u64)
    ensures
        ts == micros(tv_sec as int, tv_usec as int),
{
    let sec: u64 = #[verifier::truncate] (tv_sec as u64);
    let usec: u64 = #[verifier::truncate] (tv_usec as u64);
    proof {
        let m: int = 0x1_0000_0000_0000_0000;
        assert(tv_sec >= 0 ==> tv_sec as u64 == tv_sec) by (bit_vector);
        assert(tv_sec < 0 ==> tv_sec as u64 == tv_sec + 0x1_0000_0000_0000_0000) by (bit_vector);
        assert(tv_usec >= 0 ==> tv_usec as u64 == tv_usec) by (bit_vector);
        assert(tv_usec < 0 ==> tv_usec as u64 == tv_usec + 0x1_0000_0000_0000_0000) by (bit_vector);
        lemma_micros_wrap(
            tv_sec as int,
            tv_usec as int,
            if tv_sec < 0 {
                1
            } else {
                0
            },
            if tv_usec < 0 {
                1
            } else {
                0
            },
        );
        let product = sec * 1_000_000;
        lemma_add_mod_noop(product, usec as int, m);
        let low = product % m;
        let sum = low + usec;
        if sum >= m {
            lemma_mod_multiples_vanish(1, sum - m, m);
            lemma_small_mod((sum - m) as nat, m as nat);
        } else {
            lemma_small_mod(sum as nat, m as nat);
        }
        lemma_small_mod(usec as nat, m as nat);
    }
    sec.wrapping_mul(1_000_000).wrapping_add(usec)
}

impl Packet {
    /// The frame that stands for the packet.
    pub fn into_frame(self) -> (f: Frame)
        ensures
            f@ == self@.frame(),
    {
        let header: FrameHeader = FrameHeader {
            ts_micros: ts_micros(self.tv_sec, self.tv_usec),
            caplen: self.caplen,
            origlen: self.len,
        };
        Frame { header, data: self.data }
    }
}

/// What happened on the capturing side.
pub enum CaptureEvent {
    /// The ring was found closed: nobody takes frames any more.
    RingClosed,
    /// A packet was captured.
    Captured(Packet),
    /// No packet came in time.
    TimeoutExpired,
    /// The file is at its end.
    NoMorePackets,
    /// The capture failed.
    Failed,
}

/// The same, as plain values.
pub enum CaptureEventView {
    RingClosed,
    Captured(PacketView),
    TimeoutExpired,
    NoMorePackets,
    Failed,
}

impl View for CaptureEvent {
    type V = CaptureEventView;

    open spec fn view(&self) -> CaptureEventView {
        match self {
            CaptureEvent::RingClosed => CaptureEventView::RingClosed,
            CaptureEvent::Captured(p) => CaptureEventView::Captured(p@),
            CaptureEvent::TimeoutExpired => CaptureEventView::TimeoutExpired,
            CaptureEvent::NoMorePackets => CaptureEventView::NoMorePackets,
            CaptureEvent::Failed => CaptureEventView::Failed,
        }
    }
}

/// What to do about it.
pub enum CaptureAction {
    /// Hand the frame to the ring and go on; `report` says whether a progress
    /// report is due after that.
    Push { frame: Frame, report: bool },
    /// Go on.
    Continue,
    /// End the session.
    Stop,
    /// Tell of the failure and end the session.
    StopFailed,
}

/// The same, as plain values.
pub enum CaptureActionView {
    Push { frame: FrameView, report: bool },
    Continue,
    Stop,
    StopFailed,
}

impl View for CaptureAction {
    type V = CaptureActionView;

    open spec fn view(&self) -> CaptureActionView {
        match self {
            CaptureAction::Push { frame, report } => CaptureActionView::Push {
                frame: frame@,
                report: *report,
            },
            CaptureAction::Continue => CaptureActionView::Continue,
            CaptureAction::Stop => CaptureActionView::Stop,
            CaptureAction::StopFailed => CaptureActionView::StopFailed,
        }
    }
}

/// What is done about an event when `pushed` packets were captured before it, and
/// how many were captured after it.
pub open spec fn capture_step(pushed: nat, event: CaptureEventView) -> (CaptureActionView, nat) {
    match event {
        CaptureEventView::Captured(p) => (
            CaptureActionView::Push {
                frame: p.frame(),
                report: (pushed + 1) % REPORT_EVERY as nat == 0,
            },
            pushed + 1,
        ),
        CaptureEventView::TimeoutExpired => (CaptureActionView::Continue, pushed),
        CaptureEventView::RingClosed => (CaptureActionView::Stop, pushed),
        CaptureEventView::NoMorePackets => (CaptureActionView::Stop, pushed),
        CaptureEventView::Failed => (CaptureActionView::StopFailed, pushed),
    }
}

/// The capturing side of one session.
pub struct CaptureLoop {
    /// How many packets were captured.
    pub pushed: u64,
}

impl CaptureLoop {
    pub fn new() -> (c: CaptureLoop)
        ensures
            c.pushed == 0,
    {
        CaptureLoop { pushed: 0 }
    }

    /// Deals with one event.
    pub fn on_event(&mut self, event: CaptureEvent) -> (action: CaptureAction)
        requires
            event is Captured ==> old(self).pushed < u64::MAX,
        ensures
            (action@, final(self).pushed as nat) == capture_step(
                old(self).pushed as nat,
                event@,
            ),
    {
        match event {
            CaptureEvent::Captured(p) => {
                self.pushed = self.pushed + 1;
                let report: bool = self.pushed % REPORT_EVERY == 0;
                CaptureAction::Push { frame: p.into_frame(), report }
            },
            CaptureEvent::TimeoutExpired => CaptureAction::Continue,
            CaptureEvent::RingClosed => CaptureAction::Stop,
            CaptureEvent::NoMorePackets => CaptureAction::Stop,
            CaptureEvent::Failed => CaptureAction::StopFailed,
        }
    }
}

/// A capture together with what it handed on.
pub struct CaptureRun {
    pub pushed: nat,
    /// The frames handed to the ring, in order.
    pub frames: Seq<FrameView>,
    pub stopped: bool,
    /// How many events were asked for.
    pub asked: nat,
}

impl CaptureRun {
    pub open spec fn new() -> CaptureRun {
        CaptureRun { pushed: 0, frames: Seq::empty(), stopped: false, asked: 0 }
    }

    /// The capture after one more event; none is asked for once it has stopped.
    pub open spec fn step(self, event: CaptureEventView) -> CaptureRun {
        if self.stopped {
            self
        } else {
            let (action, pushed) = capture_step(self.pushed, event);
            CaptureRun {
                pushed,
                frames: match action {
                    CaptureActionView::Push { frame, report } => self.frames.push(frame),
                    _ => self.frames,
                },
                stopped: action is Stop || action is StopFailed,
                asked: self.asked + 1,
            }
        }
    }
}

/// A capture on which `events` would happen, one after the other, if it went on
/// asking.
pub open spec fn capture_run(events: Seq<CaptureEventView>) -> CaptureRun
    decreases events.len(),
{
    if events.len() == 0 {
        CaptureRun::new()
    } else {
        capture_run(events.drop_last()).step(events.last())
    }
}

/// Whether an event ends the session.
pub open spec fn stops(event: CaptureEventView) -> bool {
    match event {
        CaptureEventView::Captured(_) | CaptureEventView::TimeoutExpired => false,
        _ => true,
    }
}

/// The frames of the packets that are captured before anything ends the session.
pub open spec fn captured(events: Seq<CaptureEventView>) -> Seq<FrameView>
    decreases events.len(),
{
    if events.len() == 0 || stops(events[0]) {
        Seq::empty()
    } else {
        match events[0] {
            CaptureEventView::Captured(p) => seq![p.frame()] + captured(events.drop_first()),
            _ => captured(events.drop_first()),
        }
    }
}

/// Whether one of the events ends the session.
pub open spec fn any_stops(events: Seq<CaptureEventView>) -> bool {
    exists|i: int| 0 <= i < events.len() && stops(#[trigger] events[i])
}

proof fn lemma_captured_push(events: Seq<CaptureEventView>, e: CaptureEventView)
    ensures
        captured(events.push(e)) == if any_stops(events) {
            captured(events)
        } else {
            match e {
                CaptureEventView::Captured(p) => captured(events).push(p.frame()),
                _ => captured(events),
            }
        },
    decreases events.len(),
{
    let all = events.push(e);
    if events.len() == 0 {
        assert(all.drop_first() =~= Seq::<CaptureEventView>::empty());
        assert(captured(all.drop_first()) =~= Seq::<FrameView>::empty());
        assert(captured(all) =~= match e {
            CaptureEventView::Captured(p) => captured(events).push(p.frame()),
            _ => captured(events),
        });
    } else if stops(events[0]) {
        assert(all[0] == events[0]);
        assert(any_stops(events));
    } else {
        let rest = events.drop_first();
        assert(all.drop_first() =~= rest.push(e));
        assert(all[0] == events[0]);
        lemma_captured_push(rest, e);
        assert(any_stops(events) == any_stops(rest)) by {
            if any_stops(events) {
                let i = choose|i: int| 0 <= i < events.len() && stops(#[trigger] events[i]);
                assert(rest[i - 1] == events[i]);
            }
            if any_stops(rest) {
                let i = choose|i: int| 0 <= i < rest.len() && stops(#[trigger] rest[i]);
                assert(events[i + 1] == rest[i]);
            }
        }
        if let CaptureEventView::Captured(q) = events[0] {
            if let CaptureEventView::Captured(p) = e {
                assert(seq![q.frame()] + captured(rest).push(p.frame()) =~= (seq![q.frame()]
                    + captured(rest)).push(p.frame()));
            }
        }
    }
}

/// What is handed to the ring is the packets that were captured before the first
/// event that ends the session, in order and nothing else; and the capture has
/// stopped exactly if there was such an event.
pub proof fn law_capture_hands_on_what_it_captured(events: Seq<CaptureEventView>)
    ensures
        capture_run(events).frames == captured(events),
        capture_run(events).pushed == captured(events).len(),
        capture_run(events).stopped == any_stops(events),
    decreases events.len(),
{
    if events.len() > 0 {
        let before = events.drop_last();
        let e = events.last();
        law_capture_hands_on_what_it_captured(before);
        assert(before.push(e) =~= events);
        lemma_captured_push(before, e);
        assert(any_stops(events) == (any_stops(before) || stops(e))) by {
            if any_stops(events) {
                let i = choose|i: int| 0 <= i < events.len() && stops(#[trigger] events[i]);
                if i < before.len() {
                    assert(before[i] == events[i]);
                }
            }
            if any_stops(before) {
                let i = choose|i: int| 0 <= i < before.len() && stops(#[trigger] before[i]);
                assert(events[i] == before[i]);
            }
            if stops(e) {
                assert(stops(events[events.len() - 1]));
            }
        }
    }
}

proof fn lemma_stopped_run_stays(events: Seq<CaptureEventView>, rest: Seq<CaptureEventView>)
    requires
        capture_run(events).stopped,
    ensures
        capture_run(events + rest) == capture_run(events),
    decreases rest.len(),
{
    if rest.len() == 0 {
        assert(events + rest =~= events);
    } else {
        lemma_stopped_run_stays(events, rest.drop_last());
        assert((events + rest).drop_last() =~= events + rest.drop_last());
    }
}

/// A capture that fails comes to the same as one that ends there: it has stopped,
/// nothing more is asked of it, whatever would have followed, and the same frames
/// were handed on.
pub proof fn law_failure_is_like_the_end(
    events: Seq<CaptureEventView>,
    rest: Seq<CaptureEventView>,
    other: Seq<CaptureEventView>,
)
    ensures
        ({
            let failed = capture_run(events.push(CaptureEventView::Failed) + rest);
            let ended = capture_run(events.push(CaptureEventView::NoMorePackets) + other);
            &&& failed == ended
            &&& failed.stopped
            &&& failed.asked <= events.len() + 1
            &&& failed.frames == captured(events)
        }),
{
    let failing = events.push(CaptureEventView::Failed);
    let ending = events.push(CaptureEventView::NoMorePackets);
    assert(failing.drop_last() =~= events);
    assert(ending.drop_last() =~= events);
    lemma_stopped_run_stays(failing, rest);
    lemma_stopped_run_stays(ending, other);
    law_capture_hands_on_what_it_captured(events);
    lemma_asked_bound(events);
}

proof fn lemma_asked_bound(events: Seq<CaptureEventView>)
    ensures
        capture_run(events).asked <= events.len(),
    decreases events.len(),
{
    if events.len() > 0 {
        lemma_asked_bound(events.drop_last());
    }
}

/// The frame of a packet is the packet: its data, its two lengths, and its time as
/// one count of microseconds, but for whole turns of 64 bits.
pub proof fn law_frame_holds_its_packet(p: PacketView)
    ensures
        p.frame().data == p.data,
        p.frame().header.caplen == p.caplen,
        p.frame().header.origlen == p.len,
        (p.tv_sec * 1_000_000 + p.tv_usec - p.frame().header.ts_micros)
            % 0x1_0000_0000_0000_0000int == 0,
        0 <= p.tv_sec * 1_000_000 + p.tv_usec <= u64::MAX ==> p.frame().header.ts_micros
            == p.tv_sec * 1_000_000 + p.tv_usec,
{
    let m: int = 0x1_0000_0000_0000_0000;
    let a = p.tv_sec * 1_000_000 + p.tv_usec;
    let turns = a / m;
    assert(a == m * turns + a % m);
    lemma_mod_multiples_vanish(turns, 0, m);
    lemma_small_mod(0, m as nat);
}

/// What each event does to a capture that goes on: a packet's frame is handed on, a
/// timeout changes nothing, and anything else stops it, with no frame handed on.
/// Only a failure is told of. Progress is reported with every 5000th packet.
pub proof fn law_what_each_event_does(run: CaptureRun, p: PacketView, event: CaptureEventView)
    requires
        !run.stopped,
    ensures
        run.step(CaptureEventView::Captured(p)).frames == run.frames.push(p.frame()),
        run.step(CaptureEventView::Captured(p)).pushed == run.pushed + 1,
        capture_step(run.pushed, CaptureEventView::Captured(p)).0 matches CaptureActionView::Push {
            frame,
            report,
        } && frame == p.frame() && (report <==> (run.pushed + 1) % 5000 == 0),
        !(event is Captured) ==> run.step(event).frames == run.frames && run.step(event).pushed
            == run.pushed,
        run.step(event).stopped <==> event is RingClosed || event is NoMorePackets
            || event is Failed,
        capture_step(run.pushed, event).0 is StopFailed <==> event is Failed,
        capture_step(run.pushed, event).0 is Continue <==> event is TimeoutExpired,
{
}

/// All packets captured one after the other, with timeouts between them or not, are
/// handed on; what comes after an event that ends the session is not.
pub proof fn law_captured_counts_every_packet(
    events: Seq<CaptureEventView>,
    event: CaptureEventView,
    p: PacketView,
)
    ensures
        captured(Seq::<CaptureEventView>::empty()).len() == 0,
        stops(event) <==> event is RingClosed || event is NoMorePackets || event is Failed,
        (forall|i: int|
            0 <= i < events.len() ==> (#[trigger] events[i]) is Captured || events[i] is TimeoutExpired)
            ==> captured(events.push(CaptureEventView::Captured(p))) == captured(events).push(
            p.frame(),
        ),
        !(event is Captured) ==> captured(events.push(event)) == captured(events),
        (exists|i: int|
            0 <= i < events.len() && !((#[trigger] events[i]) is Captured) && !(
            events[i] is TimeoutExpired)) ==> captured(events.push(event)) == captured(events),
{
    lemma_captured_push(events, event);
    lemma_captured_push(events, CaptureEventView::Captured(p));
    if exists|i: int|
        0 <= i < events.len() && !((#[trigger] events[i]) is Captured) && !(
        events[i] is TimeoutExpired) {
        let i = choose|i: int|
            0 <= i < events.len() && !((#[trigger] events[i]) is Captured) && !(
            events[i] is TimeoutExpired);
        assert(stops(events[i]));
    }
}

} // verus!
