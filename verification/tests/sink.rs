use seq_agent::capture::Packet;
use seq_agent::frame::{write_frame, Frame};
use seq_agent::pcap_file::{put_file_header, put_record};
use seq_agent::proto::{FrameHeader, Hello, Opening, ProtoError};
use seq_agent::sink::{Sink, SinkAction, SinkError};

struct Seen {
    hello: Option<Hello>,
    frames: Vec<Frame>,
    reports: Vec<u64>,
    end: Result<(), SinkError>,
    counted: (u64, u64),
}

/// Reads `stream` the way that a connection is read.
fn consume(mut stream: &[u8]) -> Seen {
    let mut sink = Sink::new();
    let mut seen = Seen {
        hello: None,
        frames: Vec::new(),
        reports: Vec::new(),
        end: Ok(()),
        counted: (0, 0),
    };
    loop {
        let n = sink.wanted();
        if stream.len() < n {
            seen.end = sink.at_end();
            break;
        }
        assert!(!sink.counters_full());
        let (chunk, rest) = stream.split_at(n);
        stream = rest;
        match sink.receive(chunk) {
            Ok(SinkAction::More) => {}
            Ok(SinkAction::Hello(h)) => seen.hello = Some(h),
            Ok(SinkAction::Frame { frame, report }) => {
                seen.frames.push(frame);
                if report {
                    seen.reports.push(sink.frames());
                }
            }
            Err(e) => {
                seen.end = Err(e);
                break;
            }
        }
    }
    seen.counted = (sink.frames(), sink.bytes());
    seen
}

fn hello() -> Vec<u8> {
    let mut out = Vec::new();
    Hello {
        link_type: 1,
        snaplen: 65535,
        filter: "udp".to_string(),
    }
    .write_to(&mut out)
    .unwrap();
    out
}

fn frame(ts_micros: u64, data: &[u8]) -> Frame {
    Frame {
        header: FrameHeader {
            ts_micros,
            caplen: data.len() as u32,
            origlen: 77,
        },
        data: data.to_vec(),
    }
}

#[test]
fn sink_recovers_the_stream() {
    let mut stream = hello();
    let sent = [frame(1, &[1, 2, 3]), frame(2, &[]), frame(3, &[4; 100])];
    for f in &sent {
        write_frame(&mut stream, f).unwrap();
    }
    let seen = consume(&stream);
    assert_eq!(seen.end, Ok(()));
    let h = seen.hello.unwrap();
    assert_eq!((h.link_type, h.snaplen), (1, 65535));
    assert_eq!(h.filter, "udp");
    assert_eq!(seen.frames.len(), 3);
    for (got, want) in seen.frames.iter().zip(&sent) {
        assert_eq!(got.data, want.data);
        assert_eq!(got.header.ts_micros, want.header.ts_micros);
        assert_eq!(got.header.caplen, want.header.caplen);
        assert_eq!(got.header.origlen, want.header.origlen);
    }
    assert_eq!(seen.counted, (3, 103));
}

#[test]
fn cut_stream_gives_a_beginning() {
    let mut stream = hello();
    let first = stream.len();
    write_frame(&mut stream, &frame(1, &[1, 2, 3])).unwrap();
    let second = stream.len();
    write_frame(&mut stream, &frame(2, &[4, 5])).unwrap();
    for n in 0..=stream.len() {
        let seen = consume(&stream[..n]);
        assert_eq!(seen.hello.is_some(), n >= first);
        let whole = if n == stream.len() {
            2
        } else if n >= second {
            1
        } else {
            0
        };
        assert_eq!(seen.frames.len(), whole);
        // The end is clean between frames and inside a header, not elsewhere.
        let clean = (n >= first && n < first + 16)
            || (n >= second && n < second + 16)
            || n == stream.len();
        if clean {
            assert_eq!(seen.end, Ok(()));
        } else {
            assert_eq!(seen.end, Err(SinkError::Proto(ProtoError::UnexpectedEof)));
        }
    }
}

#[test]
fn absurd_frame_is_refused_before_its_data() {
    let mut stream = hello();
    FrameHeader {
        ts_micros: 1,
        caplen: 262_145,
        origlen: 1,
    }
    .write_to(&mut stream)
    .unwrap();
    let seen = consume(&stream);
    assert_eq!(seen.end, Err(SinkError::CaplenTooLarge(262_145)));
    assert_eq!(
        seen.end.unwrap_err().message(),
        "frame caplen 262145 exceeds max 262144"
    );
    assert!(seen.frames.is_empty());
}

#[test]
fn longest_frame_is_taken() {
    let mut stream = hello();
    write_frame(&mut stream, &frame(1, &vec![7; 262_144])).unwrap();
    let seen = consume(&stream);
    assert_eq!(seen.end, Ok(()));
    assert_eq!(seen.counted, (1, 262_144));
}

#[test]
fn faulty_hello_ends_the_stream() {
    let mut stream = hello();
    stream[3] = b'C';
    let seen = consume(&stream);
    assert_eq!(
        seen.end,
        Err(SinkError::Proto(ProtoError::BadMagic(Opening::Agent)))
    );
    assert_eq!(seen.end.unwrap_err().message(), "bad SEQA magic");
}

#[test]
fn progress_is_reported_every_so_often() {
    let mut stream = hello();
    for n in 0..1001 {
        write_frame(&mut stream, &frame(n, &[0])).unwrap();
    }
    assert_eq!(consume(&stream).reports, vec![500, 1000]);
}

#[test]
fn pcap_file_has_these_bytes() {
    let mut file = Vec::new();
    put_file_header(&mut file, -1, 0x0004_0000);
    assert_eq!(
        file,
        vec![
            0xd4, 0xc3, 0xb2, 0xa1, 2, 0, 4, 0, 0, 0, 0, 0, 0, 0, 0, 0, 0, 0, 4, 0, 0xff, 0xff,
            0xff, 0xff
        ]
    );
    let mut record = Vec::new();
    let f = frame(3_000_007, &[9, 8]);
    put_record(&mut record, &f.header, &f.data);
    assert_eq!(
        record,
        vec![3, 0, 0, 0, 7, 0, 0, 0, 2, 0, 0, 0, 77, 0, 0, 0, 9, 8]
    );
}

#[test]
fn seconds_keep_their_low_bits_in_a_file() {
    let mut record = Vec::new();
    let f = frame(u64::MAX, &[]);
    put_record(&mut record, &f.header, &f.data);
    let sec = (u64::MAX / 1_000_000) as u32;
    assert_eq!(record[..4], sec.to_le_bytes());
    assert_eq!(record[4..8], ((u64::MAX % 1_000_000) as u32).to_le_bytes());
}

#[test]
fn replayed_file_comes_out_as_it_was() {
    let packets: [(u32, u32, u32, &[u8]); 3] = [
        (0, 0, 60, &[1, 2, 3, 4]),
        (1_700_000_000, 999_999, 4, &[5, 6, 7, 8]),
        (u32::MAX, 1, 9000, &[]),
    ];
    let mut file = Vec::new();
    put_file_header(&mut file, 1, 65535);
    let mut stream = hello();
    for (sec, usec, len, data) in packets {
        file.extend_from_slice(&sec.to_le_bytes());
        file.extend_from_slice(&usec.to_le_bytes());
        file.extend_from_slice(&(data.len() as u32).to_le_bytes());
        file.extend_from_slice(&len.to_le_bytes());
        file.extend_from_slice(data);
        let f = Packet {
            tv_sec: sec as i64,
            tv_usec: usec as i64,
            caplen: data.len() as u32,
            len,
            data: data.to_vec(),
        }
        .into_frame();
        write_frame(&mut stream, &f).unwrap();
    }
    let seen = consume(&stream);
    let h = seen.hello.unwrap();
    let mut again = Vec::new();
    put_file_header(&mut again, h.link_type, h.snaplen);
    for f in &seen.frames {
        put_record(&mut again, &f.header, &f.data);
    }
    assert_eq!(again, file);
}

#[test]
fn stream_ends_as_its_rest_says() {
    let mut stream = hello();
    write_frame(&mut stream, &frame(1, &[1, 2, 3])).unwrap();
    let whole = stream.len();

    stream.extend_from_slice(&[0xff; 15]);
    let seen = consume(&stream);
    assert_eq!(seen.end, Ok(()));
    assert_eq!(seen.frames.len(), 1);

    stream.truncate(whole);
    write_frame(&mut stream, &frame(2, &[4, 5])).unwrap();
    stream.pop();
    let seen = consume(&stream);
    assert_eq!(seen.end, Err(SinkError::Proto(ProtoError::UnexpectedEof)));
    assert_eq!(seen.frames.len(), 1);

    let mut stream = hello();
    stream[4] = 9;
    write_frame(&mut stream, &frame(1, &[1])).unwrap();
    let seen = consume(&stream);
    assert_eq!(
        seen.end,
        Err(SinkError::Proto(ProtoError::UnsupportedVersion(
            Opening::Agent,
            9
        )))
    );
    assert!(seen.hello.is_none());
    assert!(seen.frames.is_empty());
}
