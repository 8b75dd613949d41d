use seq_agent::capture::{ts_micros, CaptureAction, CaptureEvent, CaptureLoop, Packet};

fn packet(tv_sec: i64, tv_usec: i64, data: &[u8]) -> Packet {
    Packet {
        tv_sec,
        tv_usec,
        caplen: data.len() as u32,
        len: 1500,
        data: data.to_vec(),
    }
}

#[test]
fn times_become_microseconds() {
    assert_eq!(ts_micros(1_700_000_000, 123_456), 1_700_000_000_123_456);
    assert_eq!(ts_micros(0, 0), 0);
    for (s, u) in [
        (-1i64, 0i64),
        (0, -1),
        (i64::MAX, 999_999),
        (i64::MIN, i64::MIN),
        (-5, 7),
        (18_446_744_073_709, 551_616),
    ] {
        assert_eq!(
            ts_micros(s, u),
            (s as u64).wrapping_mul(1_000_000).wrapping_add(u as u64)
        );
    }
    assert_eq!(ts_micros(0, -1), u64::MAX);
}

#[test]
fn packet_becomes_a_frame() {
    let f = packet(2, 3, &[9, 8]).into_frame();
    assert_eq!(f.header.ts_micros, 2_000_003);
    assert_eq!(f.header.caplen, 2);
    assert_eq!(f.header.origlen, 1500);
    assert_eq!(f.data, vec![9, 8]);
}

#[test]
fn captures_are_counted_and_reported() {
    let mut c = CaptureLoop::new();
    let mut reports = Vec::new();
    for n in 1..=10_001u64 {
        match c.on_event(CaptureEvent::Captured(packet(0, n as i64, &[]))) {
            CaptureAction::Push { frame, report } => {
                assert_eq!(frame.header.ts_micros, n);
                if report {
                    reports.push(n);
                }
            }
            _ => panic!("a packet is pushed"),
        }
    }
    assert_eq!(reports, vec![5000, 10_000]);
    assert_eq!(c.pushed, 10_001);
    assert!(matches!(
        c.on_event(CaptureEvent::TimeoutExpired),
        CaptureAction::Continue
    ));
    assert!(matches!(
        c.on_event(CaptureEvent::NoMorePackets),
        CaptureAction::Stop
    ));
    assert!(matches!(
        c.on_event(CaptureEvent::RingClosed),
        CaptureAction::Stop
    ));
    assert!(matches!(
        c.on_event(CaptureEvent::Failed),
        CaptureAction::StopFailed
    ));
    assert_eq!(c.pushed, 10_001);
}
