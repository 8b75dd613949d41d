use seq_agent::capture::{CaptureAction, CaptureEvent, CaptureLoop, Packet};
use seq_agent::frame::{write_frame, Frame};
use seq_agent::proto::{FrameHeader, Hello, ProtoError};
use seq_agent::ring::{Popped, Pushed, Ring};
use seq_agent::sender::{SendEnd, SendEvent, SendStep, Sender};

fn hello(filter: &str) -> Hello {
    Hello {
        link_type: 1,
        snaplen: 65535,
        filter: filter.to_string(),
    }
}

fn hello_bytes(filter: &str) -> Vec<u8> {
    let mut out = Vec::new();
    hello(filter).write_to(&mut out).unwrap();
    out
}

fn frame(n: u8) -> Frame {
    Frame {
        header: FrameHeader {
            ts_micros: n as u64,
            caplen: 2,
            origlen: 60,
        },
        data: vec![n, n],
    }
}

fn frame_bytes(n: u8) -> Vec<u8> {
    let mut out = Vec::new();
    write_frame(&mut out, &frame(n)).unwrap();
    out
}

fn written(step: SendStep) -> Vec<u8> {
    match step {
        SendStep::Write(b) => b,
        _ => panic!("something is written"),
    }
}

#[test]
fn hello_is_flushed_before_a_frame_is_taken() {
    let mut s = Sender::new(hello("udp"));
    assert_eq!(written(s.on_event(SendEvent::Ready)), hello_bytes("udp"));
    assert!(matches!(s.on_event(SendEvent::Ready), SendStep::Flush));
    assert!(matches!(s.on_event(SendEvent::Ready), SendStep::Wait));
}

#[test]
fn frames_are_sent_in_batches_until_the_ring_is_drained() {
    let mut s = Sender::new(hello(""));
    s.on_event(SendEvent::Ready);
    s.on_event(SendEvent::Ready);
    assert!(matches!(s.on_event(SendEvent::Ready), SendStep::Wait));
    for n in 1..4 {
        assert_eq!(
            written(s.on_event(SendEvent::Popped(Some(frame(n))))),
            frame_bytes(n)
        );
        assert!(matches!(s.on_event(SendEvent::Ready), SendStep::Take));
    }
    assert!(matches!(
        s.on_event(SendEvent::Popped(None)),
        SendStep::Flush
    ));
    assert!(matches!(s.on_event(SendEvent::Ready), SendStep::Wait));
    assert!(matches!(
        s.on_event(SendEvent::Popped(None)),
        SendStep::Flush
    ));
    assert!(matches!(
        s.on_event(SendEvent::Ready),
        SendStep::Close(SendEnd::Delivered)
    ));
}

#[test]
fn every_failure_closes() {
    for steps in 0..8 {
        let mut s = Sender::new(hello(""));
        let mut step = s.on_event(SendEvent::Ready);
        for n in 0..steps {
            step = match step {
                SendStep::Wait | SendStep::Take => s.on_event(SendEvent::Popped(Some(frame(n)))),
                _ => s.on_event(SendEvent::Ready),
            };
        }
        for _ in 0..2 {
            assert!(matches!(
                s.on_event(SendEvent::Failed),
                SendStep::Close(SendEnd::Disconnected)
            ));
        }
        assert!(matches!(
            s.on_event(SendEvent::Ready),
            SendStep::Close(SendEnd::Disconnected)
        ));
    }
}

#[test]
fn what_cannot_happen_closes_too() {
    let mut s = Sender::new(hello(""));
    assert!(matches!(
        s.on_event(SendEvent::Popped(Some(frame(1)))),
        SendStep::Close(SendEnd::Disconnected)
    ));
}

#[test]
fn too_long_a_filter_is_refused() {
    let mut s = Sender::new(hello(&"x".repeat(65536)));
    assert_eq!(
        written(s.on_event(SendEvent::Ready)),
        hello_bytes("")[..14].to_vec()
    );
    assert!(matches!(
        s.on_event(SendEvent::Ready),
        SendStep::Close(SendEnd::Refused(ProtoError::FilterTooLong))
    ));
}

/// A whole replay through a ring for `cap` frames: what was flushed, how it ended
/// and how many events were asked for.
fn replay(mut events: Vec<CaptureEvent>, cap: usize) -> (Vec<u8>, SendEnd, usize) {
    events.reverse();
    let mut capture = CaptureLoop::new();
    let mut ring = Ring::new(cap, true);
    let mut sender = Sender::new(hello("udp"));
    let mut pending: Option<Frame> = None;
    let mut stopped = false;
    let mut asked = 0;
    let mut buffer: Vec<u8> = Vec::new();
    let mut sent: Vec<u8> = Vec::new();
    let mut step = sender.on_event(SendEvent::Ready);
    loop {
        if let Some(f) = pending.take() {
            if let Pushed::Full(back) = ring.push(f) {
                pending = Some(back);
            }
        } else if !stopped {
            asked += 1;
            match capture.on_event(events.pop().unwrap()) {
                CaptureAction::Push { frame, .. } => pending = Some(frame),
                CaptureAction::Continue => {}
                CaptureAction::Stop | CaptureAction::StopFailed => stopped = true,
            }
        } else {
            ring.close();
        }
        step = match step {
            SendStep::Write(b) => {
                buffer.extend_from_slice(&b);
                sender.on_event(SendEvent::Ready)
            }
            SendStep::Flush => {
                sent.append(&mut buffer);
                sender.on_event(SendEvent::Ready)
            }
            SendStep::Wait => match ring.pop() {
                Popped::Taken(f) => sender.on_event(SendEvent::Popped(Some(f))),
                Popped::Drained => sender.on_event(SendEvent::Popped(None)),
                Popped::Empty => SendStep::Wait,
            },
            SendStep::Take => {
                let popped = ring.try_pop();
                sender.on_event(SendEvent::Popped(popped))
            }
            SendStep::Close(end) => return (sent, end, asked),
        };
    }
}

fn packet(n: u8) -> CaptureEvent {
    CaptureEvent::Captured(Packet {
        tv_sec: 0,
        tv_usec: n as i64,
        caplen: 2,
        len: 60,
        data: vec![n, n],
    })
}

#[test]
fn failed_capture_delivers_as_an_ended_one() {
    let mut want = hello_bytes("udp");
    for n in 0..20 {
        want.extend_from_slice(&frame_bytes(n));
    }
    for cap in [1, 3, 64] {
        for fails in [false, true] {
            let mut events: Vec<CaptureEvent> = Vec::new();
            for n in 0..20 {
                events.push(packet(n));
                events.push(CaptureEvent::TimeoutExpired);
            }
            events.push(if fails {
                CaptureEvent::Failed
            } else {
                CaptureEvent::NoMorePackets
            });
            events.push(packet(99));
            let (sent, end, asked) = replay(events, cap);
            assert_eq!(sent, want);
            assert!(matches!(end, SendEnd::Delivered));
            assert_eq!(asked, 41);
        }
    }
}

#[test]
fn live_session_sends_the_newest() {
    let mut capture = CaptureLoop::new();
    let mut ring = Ring::new(3, false);
    let mut sender = Sender::new(hello(""));
    let mut sent: Vec<u8> = Vec::new();
    let mut step = sender.on_event(SendEvent::Ready);
    let mut stopped = false;
    for n in 0..200u8 {
        if n < 100 {
            match capture.on_event(packet(n)) {
                CaptureAction::Push { frame, .. } => {
                    assert!(matches!(ring.push(frame), Pushed::Queued))
                }
                _ => panic!("a packet is pushed"),
            }
        } else if !stopped {
            stopped = matches!(
                capture.on_event(CaptureEvent::NoMorePackets),
                CaptureAction::Stop
            );
            ring.close();
        }
        if n < 100 && n % 5 != 0 {
            continue;
        }
        step = match step {
            SendStep::Write(b) => {
                sent.extend_from_slice(&b);
                sender.on_event(SendEvent::Ready)
            }
            SendStep::Flush => sender.on_event(SendEvent::Ready),
            SendStep::Wait => match ring.pop() {
                Popped::Taken(f) => sender.on_event(SendEvent::Popped(Some(f))),
                Popped::Drained => sender.on_event(SendEvent::Popped(None)),
                Popped::Empty => SendStep::Wait,
            },
            SendStep::Take => {
                let popped = ring.try_pop();
                sender.on_event(SendEvent::Popped(popped))
            }
            SendStep::Close(end) => SendStep::Close(end),
        };
    }
    assert!(matches!(step, SendStep::Close(SendEnd::Delivered)));
    let first = hello_bytes("").len();
    assert_eq!(sent[..first], hello_bytes(""));
    let mut numbers: Vec<u8> = Vec::new();
    for record in sent[first..].chunks(18) {
        assert_eq!(record, frame_bytes(record[16]));
        numbers.push(record[16]);
    }
    assert!(numbers.windows(2).all(|w| w[0] < w[1]));
    assert_eq!(numbers[numbers.len() - 3..], [97, 98, 99]);
    assert!(ring.dropped() > 0);
    assert_eq!(numbers.len() as u64 + ring.dropped(), capture.pushed);
}

#[test]
fn session_ends_without_its_client() {
    let mut capture = CaptureLoop::new();
    let mut ring = Ring::new(1, true);
    let mut sender = Sender::new(hello(""));
    sender.on_event(SendEvent::Ready);
    let mut pending: Option<Frame> = None;
    for n in 0..2 {
        if let CaptureAction::Push { frame, .. } = capture.on_event(packet(n)) {
            if let Pushed::Full(back) = ring.push(frame) {
                pending = Some(back);
            }
        }
    }
    let held = pending.unwrap();
    assert!(matches!(
        sender.on_event(SendEvent::Failed),
        SendStep::Close(SendEnd::Disconnected)
    ));
    ring.close();
    assert!(matches!(ring.push(held), Pushed::Closed));
    assert!(ring.closed());
    assert!(matches!(
        capture.on_event(CaptureEvent::RingClosed),
        CaptureAction::Stop
    ));
    assert_eq!(capture.pushed, 2);
}
