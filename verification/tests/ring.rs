use seq_agent::frame::Frame;
use seq_agent::proto::FrameHeader;
use seq_agent::ring::{Popped, Pushed, Ring};

fn numbered(n: u64) -> Frame {
    Frame {
        header: FrameHeader {
            ts_micros: n,
            caplen: 1,
            origlen: 1,
        },
        data: vec![n as u8],
    }
}

fn number_of(f: &Frame) -> u64 {
    assert_eq!(f.data, vec![f.header.ts_micros as u8]);
    f.header.ts_micros
}

#[test]
fn live_ring_drops_the_oldest() {
    let mut ring = Ring::new(3, false);
    for n in 0..5 {
        assert_eq!(ring.must_drop(), n >= 3);
        assert!(matches!(ring.push(numbered(n)), Pushed::Queued));
    }
    assert_eq!(ring.dropped(), 2);
    let mut out = Vec::new();
    while let Some(f) = ring.try_pop() {
        out.push(number_of(&f));
    }
    assert_eq!(out, vec![2, 3, 4]);
}

#[test]
fn lossless_ring_hands_the_frame_back_when_full() {
    let mut ring = Ring::new(2, true);
    assert!(matches!(ring.push(numbered(0)), Pushed::Queued));
    assert!(matches!(ring.push(numbered(1)), Pushed::Queued));
    let back = match ring.push(numbered(2)) {
        Pushed::Full(f) => f,
        _ => panic!("the ring is full"),
    };
    assert_eq!(number_of(&back), 2);
    assert!(!ring.must_drop());
    assert_eq!(number_of(&ring.try_pop().unwrap()), 0);
    assert!(matches!(ring.push(back), Pushed::Queued));
    assert_eq!(number_of(&ring.try_pop().unwrap()), 1);
    assert_eq!(number_of(&ring.try_pop().unwrap()), 2);
    assert_eq!(ring.dropped(), 0);
}

#[test]
fn closed_ring_is_drained_before_it_ends() {
    let mut ring = Ring::new(4, true);
    assert!(matches!(ring.pop(), Popped::Empty));
    ring.push(numbered(7));
    ring.close();
    assert!(ring.closed());
    assert!(matches!(ring.push(numbered(8)), Pushed::Closed));
    match ring.pop() {
        Popped::Taken(f) => assert_eq!(number_of(&f), 7),
        _ => panic!("a frame waits"),
    }
    assert!(matches!(ring.pop(), Popped::Drained));
}

#[test]
fn closed_and_full_lossless_ring_lets_go_of_the_frame() {
    let mut ring = Ring::new(1, true);
    ring.push(numbered(0));
    ring.close();
    assert!(matches!(ring.push(numbered(1)), Pushed::Closed));
}

#[test]
fn closed_live_ring_still_takes_frames() {
    let mut ring = Ring::new(2, false);
    ring.close();
    assert!(matches!(ring.push(numbered(3)), Pushed::Queued));
    assert_eq!(number_of(&ring.try_pop().unwrap()), 3);
}

#[test]
fn ring_has_room_for_one_at_least() {
    let mut ring = Ring::new(0, true);
    assert!(!ring.closed());
    assert!(matches!(ring.push(numbered(0)), Pushed::Queued));
    assert!(matches!(ring.push(numbered(1)), Pushed::Full(_)));
}

#[test]
fn newest_frames_come_out_of_a_live_ring() {
    let mut ring = Ring::new(4, false);
    let mut out = Vec::new();
    for n in 0..100 {
        ring.push(numbered(n));
        if n % 7 == 0 {
            out.push(number_of(&ring.try_pop().unwrap()));
        }
    }
    while let Some(f) = ring.try_pop() {
        out.push(number_of(&f));
    }
    assert_eq!(out[out.len() - 4..], [96, 97, 98, 99]);
    assert_eq!(out.len() as u64 + ring.dropped(), 100);
}

#[test]
fn closed_ring_stays_closed_and_drops_are_not_taken_back() {
    let mut ring = Ring::new(1, false);
    ring.push(numbered(0));
    ring.push(numbered(1));
    ring.close();
    let mut before = ring.dropped();
    assert_eq!(before, 1);
    for n in 2..6 {
        if n % 2 == 0 {
            ring.push(numbered(n));
        } else {
            ring.try_pop();
        }
        ring.close();
        assert!(ring.closed());
        assert!(ring.dropped() >= before);
        before = ring.dropped();
    }
}
