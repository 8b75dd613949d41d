use seq_agent::frame::{write_frame, Frame};
use seq_agent::proto::FrameHeader;
use seq_agent::pump::{Pump, PumpAction};

fn frame(data: &[u8]) -> Frame {
    Frame {
        header: FrameHeader {
            ts_micros: 1,
            caplen: data.len() as u32,
            origlen: 9,
        },
        data: data.to_vec(),
    }
}

fn bytes(data: &[u8]) -> Vec<u8> {
    let mut out = Vec::new();
    write_frame(&mut out, &frame(data)).unwrap();
    out
}

#[test]
fn frame_is_header_then_data() {
    assert_eq!(
        bytes(&[5, 6]),
        vec![1, 0, 0, 0, 0, 0, 0, 0, 2, 0, 0, 0, 9, 0, 0, 0, 5, 6]
    );
}

#[test]
fn pump_batches_and_flushes_once() {
    let mut pump = Pump::new();
    assert!(pump.waits());
    for data in [&[1u8, 2][..], &[][..], &[3][..]] {
        match pump.on_pop(Some(frame(data))) {
            PumpAction::Write(b) => assert_eq!(b, bytes(data)),
            _ => panic!("a frame is written"),
        }
        assert!(!pump.waits());
    }
    assert!(matches!(pump.on_pop(None), PumpAction::Flush));
    assert!(pump.waits());
    assert!(matches!(pump.on_pop(None), PumpAction::Finish));
}
