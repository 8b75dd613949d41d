//! What holds of a stream from one end to the other.

use vstd::prelude::*;

use crate::capture::PacketView;
use crate::frame::{frames_encoding, FrameView};
use crate::pcap_file::{file_header, law_packet_keeps_its_record, raw_record, records};
use crate::proto::{
    filter_fits, frame_header_reading, hello_reading, hello_wants, FrameHeader, HelloView,
    ProtoError, MAX_CAPLEN,
};
use crate::proto_laws::{
    law_frame_header_reads_back, law_frame_header_writes_back, law_hello_reads_back,
    law_hello_wanted, law_hello_wants_no_more_than_itself,
};
use crate::pump::{frames_of, law_pump_writes_what_it_is_given, pump_run};
use crate::sink::{PhaseView, SinkActionView, SinkError, SinkView};
use crate::text::decimal;

verus! {

/// What a sink makes of a stream.
pub struct SinkRun {
    pub hello: Option<HelloView>,
    pub frames: Seq<FrameView>,
    /// How the stream ended.
    pub end: Result<(), SinkError>,
    /// The sink's last state.
    pub last: SinkView,
}

/// How many phases without bytes of their own can follow one another at most.
pub open spec fn rank(phase: PhaseView) -> nat {
    match phase {
        PhaseView::Hello(_) => 2,
        PhaseView::Data(_) => 1,
        _ => 0,
    }
}

/// A sink in the state `v` that reads what it wants, again and again, from a
/// stream that ends after `s`.
#[verifier::opaque]
pub open spec fn sink_run(v: SinkView, s: Seq<u8>) -> SinkRun
    decreases s.len(), rank(v.phase),
{
    if v.phase is Over || v.wants() > s.len() {
        SinkRun { hello: None, frames: Seq::empty(), end: v.end(), last: v.over() }
    } else {
        let chunk = s.take(v.wants() as int);
        let rest = s.skip(v.wants() as int);
        proof {
            if let PhaseView::Hello(got) = v.phase {
                if v.wants() == 0 {
                    assert(got + chunk =~= got);
                }
            }
        }
        match v.receive(chunk) {
            (Err(e), next) => SinkRun {
                hello: None,
                frames: Seq::empty(),
                end: Err(e),
                last: next,
            },
            (Ok(SinkActionView::More), next) => sink_run(next, rest),
            (Ok(SinkActionView::Hello(h)), next) => SinkRun {
                hello: Some(h),
                ..sink_run(next, rest)
            },
            (Ok(SinkActionView::Frame { frame, report }), next) => {
                let after = sink_run(next, rest);
                SinkRun { frames: seq![frame] + after.frames, ..after }
            },
        }
    }
}

/// The bytes of data that frames have in all.
pub open spec fn total_len(frames: Seq<FrameView>) -> nat
    decreases frames.len(),
{
    if frames.len() == 0 {
        0
    } else {
        frames[0].data.len() + total_len(frames.drop_first())
    }
}

pub open spec fn all_deliverable(frames: Seq<FrameView>) -> bool {
    forall|i: int| 0 <= i < frames.len() ==> (#[trigger] frames[i]).deliverable()
}

/// What a sink makes of the bytes from `n` on, where those before are of a `Hello`:
/// it takes what that wants.
proof fn lemma_hello_step(v: SinkView, s: Seq<u8>, n: nat)
    requires
        n <= s.len(),
        v.phase == PhaseView::Hello(s.take(n as int)),
    ensures
        ({
            let upto = n + hello_wants(s.take(n as int));
            let got = s.take(upto as int);
            let rest = s.skip(upto as int);
            let run = sink_run(v, s.skip(n as int));
            if upto > s.len() {
                &&& run.hello is None
                &&& run.frames.len() == 0
                &&& run.end == Err::<(), SinkError>(SinkError::Proto(ProtoError::UnexpectedEof))
            } else if hello_wants(got) > 0 {
                run == sink_run(SinkView { phase: PhaseView::Hello(got), ..v }, rest)
            } else {
                match hello_reading(got).0 {
                    Ok(h) => run == (SinkRun {
                        hello: Some(h),
                        ..sink_run(SinkView { phase: PhaseView::Header, ..v }, rest)
                    }),
                    Err(e) => {
                        &&& run.hello is None
                        &&& run.frames.len() == 0
                        &&& run.end == Err::<(), SinkError>(SinkError::Proto(e))
                    },
                }
            }
        }),
{
    reveal(sink_run);
    let more = hello_wants(s.take(n as int));
    if n + more <= s.len() {
        let chunk = s.skip(n as int).take(more as int);
        assert(s.take(n as int) + chunk =~= s.take((n + more) as int));
        assert(s.skip(n as int).skip(more as int) =~= s.skip((n + more) as int));
    }
}

/// Bytes that want nothing more read as the whole stream does.
proof fn lemma_hello_prefix(s: Seq<u8>, n: nat)
    requires
        n <= s.len(),
    ensures
        hello_wants(s.take(n as int)) == 0 ==> {
            &&& hello_reading(s) == hello_reading(s.take(n as int))
            &&& hello_reading(s).0 != Err::<HelloView, ProtoError>(ProtoError::UnexpectedEof)
        },
{
    assert(s.take(n as int) + s.skip(n as int) =~= s);
    law_hello_wanted(s.take(n as int), s.skip(n as int));
}

proof fn lemma_run_over_hello(v: SinkView, s: Seq<u8>, n: nat)
    requires
        hello_reading(s).0 is Ok,
        n < hello_reading(s).1,
        v.phase == PhaseView::Hello(s.take(n as int)),
    ensures
        ({
            let (h, used) = hello_reading(s);
            sink_run(v, s.skip(n as int)) == SinkRun {
                hello: Some(h->Ok_0),
                ..sink_run(SinkView { phase: PhaseView::Header, ..v }, s.skip(used as int))
            }
        }),
    decreases s.len() - n,
{
    let used = hello_reading(s).1;
    law_hello_wants_no_more_than_itself(s, n);
    let upto = n + hello_wants(s.take(n as int));
    lemma_hello_step(v, s, n);
    law_hello_wants_no_more_than_itself(s, upto);
    if upto < used {
        lemma_run_over_hello(
            SinkView { phase: PhaseView::Hello(s.take(upto as int)), ..v },
            s,
            upto,
        );
    } else {
        lemma_hello_prefix(s, upto);
    }
}

/// The state after a frame.
spec fn counted(v: SinkView, f: FrameView) -> SinkView {
    SinkView { phase: PhaseView::Header, frames: v.frames + 1, bytes: v.bytes + f.data.len() }
}

proof fn lemma_run_over_header(v: SinkView, h: FrameHeader, tail: Seq<u8>)
    requires
        v.phase is Header,
        h.caplen <= MAX_CAPLEN,
    ensures
        sink_run(v, h.encoding() + tail) == sink_run(
            SinkView { phase: PhaseView::Data(h), ..v },
            tail,
        ),
{
    reveal(sink_run);
    let bytes = h.encoding();
    law_frame_header_reads_back(h, Seq::empty());
    assert(bytes + Seq::<u8>::empty() =~= bytes);
    assert((bytes + tail).take(16) =~= bytes);
    assert((bytes + tail).skip(16) =~= tail);
}

proof fn lemma_run_over_data(v: SinkView, f: FrameView, tail: Seq<u8>)
    requires
        v.phase == PhaseView::Data(f.header),
        f.deliverable(),
    ensures
        sink_run(v, f.data + tail) == (SinkRun {
            frames: seq![f] + sink_run(counted(v, f), tail).frames,
            ..sink_run(counted(v, f), tail)
        }),
{
    reveal(sink_run);
    let len = f.data.len() as int;
    assert((f.data + tail).take(len) =~= f.data);
    assert((f.data + tail).skip(len) =~= tail);
}

proof fn lemma_run_over_frame(v: SinkView, f: FrameView, tail: Seq<u8>)
    requires
        v.phase is Header,
        f.deliverable(),
    ensures
        sink_run(v, f.header.encoding() + (f.data + tail)) == (SinkRun {
            frames: seq![f] + sink_run(counted(v, f), tail).frames,
            ..sink_run(counted(v, f), tail)
        }),
{
    let in_data = SinkView { phase: PhaseView::Data(f.header), ..v };
    lemma_run_over_header(v, f.header, f.data + tail);
    lemma_run_over_data(in_data, f, tail);
    assert(counted(in_data, f) == counted(v, f));
}

/// How a stream ends behind its last whole frame, with `tail` left: well, if that
/// is too little for a header; else with the fault of the frame that it starts.
pub open spec fn end_after(tail: Seq<u8>) -> Result<(), SinkError> {
    if tail.len() < 16 {
        Ok(())
    } else {
        let h = frame_header_reading(tail).0->Ok_0;
        if h.caplen > MAX_CAPLEN {
            Err(SinkError::CaplenTooLarge(h.caplen))
        } else {
            Err(SinkError::Proto(ProtoError::UnexpectedEof))
        }
    }
}

/// Whether `tail` is no whole frame that a sink accepts.
pub open spec fn no_frame(tail: Seq<u8>) -> bool {
    tail.len() < 16 || {
        let h = frame_header_reading(tail).0->Ok_0;
        h.caplen > MAX_CAPLEN || tail.len() < 16 + h.caplen
    }
}

proof fn lemma_header_needs_no_more(s: Seq<u8>)
    requires
        s.len() >= 16,
    ensures
        frame_header_reading(s.take(16)) == frame_header_reading(s),
{
    let t = s.take(16);
    assert(t.take(8) =~= s.take(8));
    assert(t.subrange(8, 12) =~= s.subrange(8, 12));
    assert(t.subrange(12, 16) =~= s.subrange(12, 16));
}

proof fn lemma_run_over_tail(v: SinkView, tail: Seq<u8>)
    requires
        v.phase is Header,
        no_frame(tail),
    ensures
        sink_run(v, tail) == (SinkRun {
            hello: None,
            frames: Seq::empty(),
            end: end_after(tail),
            last: v.over(),
        }),
{
    reveal(sink_run);
    if tail.len() >= 16 {
        lemma_header_needs_no_more(tail);
        let h = frame_header_reading(tail).0->Ok_0;
        let in_data = SinkView { phase: PhaseView::Data(h), ..v };
        if h.caplen <= MAX_CAPLEN {
            assert(sink_run(v, tail) == sink_run(in_data, tail.skip(16)));
        }
    }
}

proof fn lemma_first_frame(frames: Seq<FrameView>, end: Seq<u8>)
    requires
        frames.len() > 0,
    ensures
        frames_encoding(frames) + end == frames[0].header.encoding() + (frames[0].data + (
        frames_encoding(frames.drop_first()) + end)),
{
    let f = frames[0];
    let tail = frames_encoding(frames.drop_first());
    assert(frames_encoding(frames) == f.header.encoding() + f.data + tail);
    assert(f.header.encoding() + f.data + tail + end =~= f.header.encoding() + (f.data + (tail
        + end)));
}

proof fn lemma_run_over_frames(v: SinkView, frames: Seq<FrameView>, end: Seq<u8>)
    requires
        v.phase is Header,
        all_deliverable(frames),
        end.len() < 16,
    ensures
        sink_run(v, frames_encoding(frames) + end) == (SinkRun {
            hello: None,
            frames,
            end: Ok(()),
            last: SinkView {
                phase: PhaseView::Over,
                frames: v.frames + frames.len(),
                bytes: v.bytes + total_len(frames),
            },
        }),
    decreases frames.len(),
{
    if frames.len() == 0 {
        assert(frames =~= Seq::<FrameView>::empty());
        assert(frames_encoding(frames) + end =~= end);
        lemma_run_over_tail(v, end);
    } else {
        let f = frames[0];
        let later = frames.drop_first();
        assert(f.deliverable());
        lemma_first_frame(frames, end);
        lemma_run_over_frame(v, f, frames_encoding(later) + end);
        assert(all_deliverable(later)) by {
            assert forall|i: int| 0 <= i < later.len() implies (
            #[trigger] later[i]).deliverable() by {
                assert(later[i] == frames[i + 1]);
            }
        }
        lemma_run_over_frames(counted(v, f), later, end);
        assert(seq![f] + later =~= frames);
    }
}

/// A sink recovers what an agent sent: the `Hello`, then every frame, in order,
/// byte for byte and nothing else; and it counts them.
pub proof fn law_stream_is_recovered(hello: HelloView, frames: Seq<FrameView>)
    requires
        filter_fits(hello.filter),
        all_deliverable(frames),
    ensures
        sink_run(SinkView::new(), hello.encoding() + frames_encoding(frames)) == (SinkRun {
            hello: Some(hello),
            frames,
            end: Ok(()),
            last: SinkView {
                phase: PhaseView::Over,
                frames: frames.len(),
                bytes: total_len(frames),
            },
        }),
{
    let s = hello.encoding() + frames_encoding(frames);
    law_hello_reads_back(hello, frames_encoding(frames));
    assert(s.take(0) =~= Seq::<u8>::empty());
    assert(s.skip(0) =~= s);
    lemma_run_over_hello(SinkView::new(), s, 0);
    assert(s.skip(hello.encoding().len() as int) =~= frames_encoding(frames));
    assert(frames_encoding(frames) + Seq::<u8>::empty() =~= frames_encoding(frames));
    lemma_run_over_frames(
        SinkView { phase: PhaseView::Header, ..SinkView::new() },
        frames,
        Seq::empty(),
    );
}

/// Whatever the sending side takes off its ring arrives, in order, however it
/// was batched.
pub proof fn law_sent_frames_arrive(hello: HelloView, pops: Seq<Option<FrameView>>)
    requires
        filter_fits(hello.filter),
        all_deliverable(frames_of(pops)),
    ensures
        ({
            let run = sink_run(SinkView::new(), hello.encoding() + pump_run(pops).written);
            &&& run.hello == Some(hello)
            &&& run.frames == frames_of(pops)
            &&& run.end is Ok
        }),
{
    law_pump_writes_what_it_is_given(pops);
    law_stream_is_recovered(hello, frames_of(pops));
}

proof fn lemma_run_over_faulty_hello(v: SinkView, s: Seq<u8>, n: nat)
    requires
        hello_reading(s).0 is Err,
        n <= s.len(),
        hello_reading(s).0->Err_0 is UnexpectedEof || n < hello_reading(s).1,
        v.phase == PhaseView::Hello(s.take(n as int)),
    ensures
        ({
            let run = sink_run(v, s.skip(n as int));
            &&& run.hello is None
            &&& run.frames.len() == 0
            &&& run.end == Err::<(), SinkError>(SinkError::Proto(hello_reading(s).0->Err_0))
        }),
    decreases s.len() - n,
{
    let got = s.take(n as int);
    lemma_hello_prefix(s, n);
    if !(hello_reading(s).0->Err_0 is UnexpectedEof) {
        law_hello_wants_no_more_than_itself(s, n);
    }
    let upto = n + hello_wants(got);
    lemma_hello_step(v, s, n);
    if upto <= s.len() {
        lemma_hello_prefix(s, upto);
        if !(hello_reading(s).0->Err_0 is UnexpectedEof) {
            law_hello_wants_no_more_than_itself(s, upto);
        }
        if hello_wants(s.take(upto as int)) > 0 {
            lemma_run_over_faulty_hello(
                SinkView { phase: PhaseView::Hello(s.take(upto as int)), ..v },
                s,
                upto,
            );
        }
    }
}

/// A stream that does not open with a `Hello` ends with that fault: no `Hello` and
/// no frame is ever handed on.
pub proof fn law_faulty_hello_ends_the_stream(s: Seq<u8>)
    requires
        hello_reading(s).0 is Err,
    ensures
        ({
            let run = sink_run(SinkView::new(), s);
            &&& run.hello is None
            &&& run.frames.len() == 0
            &&& run.end == Err::<(), SinkError>(SinkError::Proto(hello_reading(s).0->Err_0))
        }),
{
    assert(s.take(0) =~= Seq::<u8>::empty());
    assert(s.skip(0) =~= s);
    lemma_run_over_faulty_hello(SinkView::new(), s, 0);
}

proof fn lemma_run_behind_hello(v: SinkView, s: Seq<u8>)
    requires
        v.phase is Header,
    ensures
        ({
            let run = sink_run(v, s);
            let whole = frames_encoding(run.frames);
            let tail = s.skip(whole.len() as int);
            &&& run.hello is None
            &&& whole.len() <= s.len()
            &&& s == whole + tail
            &&& no_frame(tail)
            &&& run.end == end_after(tail)
        }),
    decreases s.len(),
{
    let run = sink_run(v, s);
    if no_frame(s) {
        lemma_run_over_tail(v, s);
        assert(s.skip(0) =~= s);
        assert(s =~= frames_encoding(run.frames) + s);
    } else {
        let h = frame_header_reading(s).0->Ok_0;
        let f = FrameView { header: h, data: s.subrange(16, 16 + h.caplen) };
        let later = s.skip(16 + h.caplen);
        law_frame_header_writes_back(s);
        assert(s =~= h.encoding() + (f.data + later));
        lemma_run_over_frame(v, f, later);
        lemma_run_behind_hello(counted(v, f), later);
        let after = sink_run(counted(v, f), later);
        assert(run.frames.drop_first() =~= after.frames);
        lemma_first_frame(run.frames, later.skip(frames_encoding(after.frames).len() as int));
        let whole = frames_encoding(run.frames);
        assert(s.skip(whole.len() as int) =~= later.skip(
            frames_encoding(after.frames).len() as int,
        ));
    }
}

/// What a sink makes of any stream that opens with a `Hello`: it hands on the
/// `Hello`, then every frame up to the first that is not whole or is too long; what
/// is left then decides how the stream ends.
pub proof fn law_stream_ends_behind_its_frames(s: Seq<u8>)
    requires
        hello_reading(s).0 is Ok,
    ensures
        ({
            let (h, used) = hello_reading(s);
            let run = sink_run(SinkView::new(), s);
            let rest = s.skip(used as int);
            let whole = frames_encoding(run.frames);
            let tail = rest.skip(whole.len() as int);
            &&& run.hello == Some(h->Ok_0)
            &&& all_deliverable(run.frames)
            &&& whole.len() <= rest.len()
            &&& rest == whole + tail
            &&& no_frame(tail)
            &&& run.end == end_after(tail)
        }),
{
    let used = hello_reading(s).1;
    let behind = SinkView { phase: PhaseView::Header, ..SinkView::new() };
    assert(s.take(0) =~= Seq::<u8>::empty());
    assert(s.skip(0) =~= s);
    lemma_run_over_hello(SinkView::new(), s, 0);
    lemma_run_behind_hello(behind, s.skip(used as int));
    law_only_deliverable_frames_arrive(SinkView::new(), s);
}

/// Whether `s` is a `Hello`, whole frames within the limit, and then too little
/// for another header.
pub open spec fn well_formed_stream(s: Seq<u8>) -> bool {
    &&& hello_reading(s).0 is Ok
    &&& exists|frames: Seq<FrameView>, tail: Seq<u8>|
        all_deliverable(frames) && tail.len() < 16 && s.skip(hello_reading(s).1 as int)
            == #[trigger] (frames_encoding(frames) + tail)
}

/// The streams that end well are just those.
pub proof fn law_well_formed_streams_end_well(s: Seq<u8>)
    ensures
        sink_run(SinkView::new(), s).end is Ok <==> well_formed_stream(s),
{
    let run = sink_run(SinkView::new(), s);
    let rest = s.skip(hello_reading(s).1 as int);
    if hello_reading(s).0 is Err {
        law_faulty_hello_ends_the_stream(s);
    } else {
        law_stream_ends_behind_its_frames(s);
        if run.end is Ok {
            let tail = rest.skip(frames_encoding(run.frames).len() as int);
            assert(rest == frames_encoding(run.frames) + tail);
        }
        if well_formed_stream(s) {
            let (frames, tail) = choose|frames: Seq<FrameView>, tail: Seq<u8>|
                all_deliverable(frames) && tail.len() < 16 && rest == #[trigger] (frames_encoding(
                    frames,
                ) + tail);
            assert(s.take(0) =~= Seq::<u8>::empty());
            assert(s.skip(0) =~= s);
            lemma_run_over_hello(SinkView::new(), s, 0);
            lemma_run_over_frames(
                SinkView { phase: PhaseView::Header, ..SinkView::new() },
                frames,
                tail,
            );
        }
    }
}

/// What a sink makes of a stream that is cut off is the beginning of what it
/// would have made of the whole: nothing is made up.
pub proof fn law_cut_stream_gives_a_beginning(v: SinkView, s: Seq<u8>, n: nat)
    requires
        n <= s.len(),
    ensures
        sink_run(v, s.take(n as int)).frames.is_prefix_of(sink_run(v, s).frames),
        sink_run(v, s.take(n as int)).hello matches Some(h) ==> sink_run(v, s).hello == Some(h),
    decreases s.len(), rank(v.phase),
{
    reveal(sink_run);
    let cut = s.take(n as int);
    let w = v.wants();
    if !(v.phase is Over) && w <= n {
        let chunk = s.take(w as int);
        assert(cut.take(w as int) =~= chunk);
        assert(cut.skip(w as int) =~= s.skip(w as int).take(n - w));
        if let PhaseView::Hello(got) = v.phase {
            if w == 0 {
                assert(got + chunk =~= got);
            }
        }
        let next = v.receive(chunk).1;
        if v.receive(chunk).0 is Ok {
            law_cut_stream_gives_a_beginning(next, s.skip(w as int), (n - w) as nat);
            let short = sink_run(next, s.skip(w as int).take(n - w)).frames;
            let long = sink_run(next, s.skip(w as int)).frames;
            if let Ok(SinkActionView::Frame { frame, report }) = v.receive(chunk).0 {
                assert((seq![frame] + short).is_prefix_of(seq![frame] + long)) by {
                    assert(seq![frame] + short =~= (seq![frame] + long).subrange(
                        0,
                        1 + short.len() as int,
                    ));
                }
            }
        }
    }
}

/// No frame longer than allowed is ever handed on, whatever the stream holds,
/// and every frame's header tells its length.
pub proof fn law_only_deliverable_frames_arrive(v: SinkView, s: Seq<u8>)
    requires
        v.phase matches PhaseView::Data(h) ==> h.caplen <= MAX_CAPLEN,
    ensures
        all_deliverable(sink_run(v, s).frames),
    decreases s.len(), rank(v.phase),
{
    reveal(sink_run);
    let w = v.wants();
    if !(v.phase is Over) && w <= s.len() {
        let chunk = s.take(w as int);
        if let PhaseView::Hello(got) = v.phase {
            if w == 0 {
                assert(got + chunk =~= got);
            }
        }
        let (res, next) = v.receive(chunk);
        if res is Ok {
            law_only_deliverable_frames_arrive(next, s.skip(w as int));
            if let Ok(SinkActionView::Frame { frame, report }) = res {
                let after = sink_run(next, s.skip(w as int)).frames;
                assert forall|i: int| 0 <= i < 1 + after.len() implies (#[trigger] (seq![frame]
                    + after)[i]).deliverable() by {
                    if i > 0 {
                        assert((seq![frame] + after)[i] == after[i - 1]);
                    }
                }
            }
        }
    }
}

/// The records of packets, as a file holds them.
pub open spec fn raw_records(packets: Seq<PacketView>) -> Seq<u8>
    decreases packets.len(),
{
    if packets.len() == 0 {
        Seq::empty()
    } else {
        let p = packets[0];
        raw_record(p.tv_sec as nat, p.tv_usec as nat, p.caplen, p.len, p.data) + raw_records(
            packets.drop_first(),
        )
    }
}

/// Whether a packet can stand in a file and on the wire: its time has a 32-bit
/// count of seconds and less than a second of microseconds, and its length is
/// that of its data and within the limit.
pub open spec fn storable(p: PacketView) -> bool {
    &&& 0 <= p.tv_sec <= u32::MAX
    &&& 0 <= p.tv_usec < 1_000_000
    &&& p.caplen == p.data.len() <= MAX_CAPLEN
}

pub open spec fn frames_for(packets: Seq<PacketView>) -> Seq<FrameView> {
    Seq::new(packets.len(), |i: int| packets[i].frame())
}

proof fn lemma_records_of_packets(packets: Seq<PacketView>)
    requires
        forall|i: int| 0 <= i < packets.len() ==> storable(#[trigger] packets[i]),
    ensures
        records(frames_for(packets)) == raw_records(packets),
    decreases packets.len(),
{
    if packets.len() > 0 {
        let later = packets.drop_first();
        assert forall|i: int| 0 <= i < later.len() implies storable(#[trigger] later[i]) by {
            assert(later[i] == packets[i + 1]);
        }
        lemma_records_of_packets(later);
        assert(frames_for(packets).drop_first() =~= frames_for(later));
        assert(storable(packets[0]));
        law_packet_keeps_its_record(packets[0]);
    }
}

/// A file that is replayed through an agent and written down by a sink comes out
/// as it was: the same records, frame for frame, behind a header with the link
/// type and the snapshot length that the agent told.
pub proof fn law_file_is_reconstructed(hello: HelloView, packets: Seq<PacketView>)
    requires
        filter_fits(hello.filter),
        forall|i: int| 0 <= i < packets.len() ==> storable(#[trigger] packets[i]),
    ensures
        ({
            let run = sink_run(
                SinkView::new(),
                hello.encoding() + frames_encoding(frames_for(packets)),
            );
            &&& run.end is Ok
            &&& run.hello is Some
            &&& file_header(run.hello->0.link_type, run.hello->0.snaplen) + records(run.frames)
                == file_header(hello.link_type, hello.snaplen) + raw_records(packets)
        }),
{
    let frames = frames_for(packets);
    assert forall|i: int| 0 <= i < frames.len() implies (#[trigger] frames[i]).deliverable() by {
        assert(storable(packets[i]));
    }
    law_stream_is_recovered(hello, frames);
    lemma_records_of_packets(packets);
}

/// The bytes of data are those on the wire but for sixteen of each frame.
pub proof fn law_total_leaves_out_the_headers(frames: Seq<FrameView>)
    ensures
        total_len(frames) + 16 * frames.len() == frames_encoding(frames).len(),
    decreases frames.len(),
{
    if frames.len() > 0 {
        law_total_leaves_out_the_headers(frames.drop_first());
        law_frame_header_reads_back(frames[0].header, Seq::empty());
    }
}

/// Where a stream of good frames breaks off. Inside a header, or before one, is a
/// good end; inside a frame's data is not; and a header with a length of more than
/// 256 KiB is refused there, whatever follows. What came before is handed on all
/// the same.
pub proof fn law_where_a_stream_breaks_off(
    hello: HelloView,
    frames: Seq<FrameView>,
    f: FrameView,
    n: nat,
    huge: FrameHeader,
    tail: Seq<u8>,
)
    requires
        filter_fits(hello.filter),
        all_deliverable(frames),
        f.deliverable(),
        n < 16 + f.data.len(),
        huge.caplen > 262_144,
    ensures
        ({
            let sent = hello.encoding() + frames_encoding(frames);
            let cut = sink_run(SinkView::new(), sent + f.encoding().take(n as int));
            let refused = sink_run(SinkView::new(), sent + (huge.encoding() + tail));
            &&& cut.hello == Some(hello) && refused.hello == Some(hello)
            &&& cut.frames == frames && refused.frames == frames
            &&& n < 16 ==> cut.end == Ok::<(), SinkError>(())
            &&& n >= 16 ==> cut.end == Err::<(), SinkError>(
                SinkError::Proto(ProtoError::UnexpectedEof),
            )
            &&& refused.end == Err::<(), SinkError>(SinkError::CaplenTooLarge(huge.caplen))
        }),
{
    let part = f.encoding().take(n as int);
    law_frame_header_reads_back(f.header, f.data);
    if n >= 16 {
        lemma_header_needs_no_more(part);
        lemma_header_needs_no_more(f.encoding());
        assert(part.take(16) =~= f.encoding().take(16));
    }
    lemma_run_ends_with(hello, frames, part);
    law_frame_header_reads_back(huge, tail);
    lemma_run_ends_with(hello, frames, huge.encoding() + tail);
}

proof fn lemma_run_over_frames_and_tail(v: SinkView, frames: Seq<FrameView>, end: Seq<u8>)
    requires
        v.phase is Header,
        all_deliverable(frames),
        no_frame(end),
    ensures
        sink_run(v, frames_encoding(frames) + end).frames == frames,
        sink_run(v, frames_encoding(frames) + end).end == end_after(end),
    decreases frames.len(),
{
    if frames.len() == 0 {
        assert(frames =~= Seq::<FrameView>::empty());
        assert(frames_encoding(frames) + end =~= end);
        lemma_run_over_tail(v, end);
    } else {
        let f = frames[0];
        let later = frames.drop_first();
        assert(f.deliverable());
        lemma_first_frame(frames, end);
        lemma_run_over_frame(v, f, frames_encoding(later) + end);
        assert forall|i: int| 0 <= i < later.len() implies (#[trigger] later[i]).deliverable() by {
            assert(later[i] == frames[i + 1]);
        }
        lemma_run_over_frames_and_tail(counted(v, f), later, end);
        assert(seq![f] + later =~= frames);
    }
}

proof fn lemma_run_ends_with(hello: HelloView, frames: Seq<FrameView>, end: Seq<u8>)
    requires
        filter_fits(hello.filter),
        all_deliverable(frames),
        no_frame(end),
    ensures
        ({
            let run = sink_run(SinkView::new(), hello.encoding() + frames_encoding(frames) + end);
            &&& run.hello == Some(hello)
            &&& run.frames == frames
            &&& run.end == end_after(end)
        }),
{
    let rest = frames_encoding(frames) + end;
    let s = hello.encoding() + rest;
    assert(hello.encoding() + frames_encoding(frames) + end =~= s);
    law_hello_reads_back(hello, rest);
    assert(s.take(0) =~= Seq::<u8>::empty());
    assert(s.skip(0) =~= s);
    lemma_run_over_hello(SinkView::new(), s, 0);
    assert(s.skip(hello.encoding().len() as int) =~= rest);
    lemma_run_over_frames_and_tail(
        SinkView { phase: PhaseView::Header, ..SinkView::new() },
        frames,
        end,
    );
}

/// What the data of a frame brings to a sink: the frame, counted, with a progress
/// report every 500 frames. There is no counting it exactly where a count would not
/// fit in 64 bits.
pub proof fn law_frames_are_counted(v: SinkView, h: FrameHeader, chunk: Seq<u8>)
    requires
        v.phase == PhaseView::Data(h),
    ensures
        v.wants() == h.caplen,
        v.receive(chunk).1.frames == v.frames + 1,
        v.receive(chunk).1.bytes == v.bytes + h.caplen,
        v.receive(chunk).0 matches Ok(SinkActionView::Frame { frame, report }) && frame.header == h
            && frame.data == chunk && (report <==> (v.frames + 1) % 500 == 0),
        v.counters_full() <==> v.receive(chunk).1.frames > u64::MAX || v.receive(chunk).1.bytes
            > u64::MAX,
{
}

/// Why a frame is refused, in words.
pub proof fn law_sink_errors_in_words(e: ProtoError, n: u32)
    ensures
        SinkError::Proto(e).text() == e.text(),
        SinkError::CaplenTooLarge(n).text() == "frame caplen "@ + decimal(n as nat)
            + " exceeds max "@ + decimal(262_144),
{
}

} // verus!
