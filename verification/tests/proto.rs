use seq_agent::proto::{
    read_i32, read_u16, read_u32, read_u64, ClientHello, ErrorKind, FrameHeader, Hello, Opening,
    ProtoError, MAGIC, MAGIC_CLIENT, MAX_CAPLEN, VERSION,
};

fn hello_bytes(link_type: i32, snaplen: u32, filter: &str) -> Vec<u8> {
    let mut buf = Vec::new();
    Hello {
        link_type,
        snaplen,
        filter: filter.to_string(),
    }
    .write_to(&mut buf)
    .unwrap();
    buf
}

fn client_bytes(filter: &str) -> Vec<u8> {
    let mut buf = Vec::new();
    ClientHello {
        filter: filter.to_string(),
    }
    .write_to(&mut buf)
    .unwrap();
    buf
}

#[test]
fn client_hello_roundtrips() {
    for f in ["", "udp", "udp and port 9000"] {
        let mut buf = Vec::new();
        ClientHello {
            filter: f.to_string(),
        }
        .write_to(&mut buf)
        .unwrap();
        let got = ClientHello::read_from(&mut &buf[..]).unwrap();
        assert_eq!(got.filter, f);
    }
}

#[test]
fn client_hello_rejects_agent_magic() {
    // A `Hello` (SEQA) must not parse as a `ClientHello` (SEQC).
    let mut buf = Vec::new();
    Hello {
        link_type: 1,
        snaplen: 65535,
        filter: "udp".into(),
    }
    .write_to(&mut buf)
    .unwrap();
    assert!(ClientHello::read_from(&mut &buf[..]).is_err());
}

#[test]
fn hello_and_frame_roundtrip() {
    let mut buf = Vec::new();
    Hello {
        link_type: 113,
        snaplen: 262_144,
        filter: "".into(),
    }
    .write_to(&mut buf)
    .unwrap();
    FrameHeader {
        ts_micros: 1_700_000_000_123_456,
        caplen: 42,
        origlen: 60,
    }
    .write_to(&mut buf)
    .unwrap();
    let mut r = &buf[..];
    let h = Hello::read_from(&mut r).unwrap();
    assert_eq!((h.link_type, h.snaplen), (113, 262_144));
    let fh = FrameHeader::read_from(&mut r).unwrap();
    assert_eq!((fh.caplen, fh.origlen), (42, 60));
    assert_eq!(fh.ts_micros, 1_700_000_000_123_456);
    assert!(r.is_empty());
}

#[test]
fn constants_are_those_of_the_protocol() {
    assert_eq!(&MAGIC, b"SEQA");
    assert_eq!(&MAGIC_CLIENT, b"SEQC");
    assert_eq!(VERSION, 1);
    assert_eq!(MAX_CAPLEN, 262_144);
}

#[test]
fn hello_has_these_bytes() {
    let buf = hello_bytes(-2, 0x0102_0304, "udp");
    assert_eq!(
        buf,
        vec![
            b'S', b'E', b'Q', b'A', 1, 0, 0xfe, 0xff, 0xff, 0xff, 4, 3, 2, 1, 3, 0, b'u', b'd',
            b'p'
        ]
    );
    let h = Hello::read_from(&mut &buf[..]).unwrap();
    assert_eq!(h.link_type, -2);
    assert_eq!(h.snaplen, 0x0102_0304);
    assert_eq!(h.filter, "udp");
}

#[test]
fn client_hello_has_these_bytes() {
    assert_eq!(
        client_bytes("ip"),
        vec![b'S', b'E', b'Q', b'C', 1, 0, 2, 0, b'i', b'p']
    );
}

#[test]
fn frame_header_has_these_bytes() {
    let mut buf = Vec::new();
    FrameHeader {
        ts_micros: 0x0807_0605_0403_0201,
        caplen: 0x0c0b_0a09,
        origlen: 0x100f_0e0d,
    }
    .write_to(&mut buf)
    .unwrap();
    assert_eq!(buf, (1u8..=16).collect::<Vec<u8>>());
}

#[test]
fn integers_agree_with_std() {
    for v in [0u64, 1, 255, 256, 65535, 1 << 31, 1 << 63, u64::MAX] {
        assert_eq!(read_u64(&mut &v.to_le_bytes()[..]), Ok(v));
        let w = v as u32;
        assert_eq!(read_u32(&mut &w.to_le_bytes()[..]), Ok(w));
        let i = v as i32;
        assert_eq!(read_i32(&mut &i.to_le_bytes()[..]), Ok(i));
        let h = v as u16;
        assert_eq!(read_u16(&mut &h.to_le_bytes()[..]), Ok(h));
    }
    for v in [i32::MIN, -1, 0, 1, i32::MAX] {
        assert_eq!(read_i32(&mut &v.to_le_bytes()[..]), Ok(v));
    }
    assert_eq!(read_u16(&mut &[1u8][..]), Err(ProtoError::UnexpectedEof));
}

#[test]
fn a_message_leaves_what_follows_it() {
    let mut buf = hello_bytes(1, 65535, "udp");
    buf.extend_from_slice(&[7, 8, 9]);
    let mut r = &buf[..];
    Hello::read_from(&mut r).unwrap();
    assert_eq!(r, &[7, 8, 9]);
}

#[test]
fn filters_beyond_ascii_survive() {
    let f = "häst 馬 🐎";
    let buf = client_bytes(f);
    assert_eq!(ClientHello::read_from(&mut &buf[..]).unwrap().filter, f);
    let buf = hello_bytes(1, 2, f);
    assert_eq!(Hello::read_from(&mut &buf[..]).unwrap().filter, f);
}

#[test]
fn longest_filter_fits_and_a_longer_one_does_not() {
    let longest = "x".repeat(65535);
    let buf = client_bytes(&longest);
    assert_eq!(buf.len(), 8 + 65535);
    assert_eq!(
        ClientHello::read_from(&mut &buf[..]).unwrap().filter,
        longest
    );

    let mut buf = vec![42];
    let res = ClientHello {
        filter: "x".repeat(65536),
    }
    .write_to(&mut buf);
    assert_eq!(res, Err(ProtoError::FilterTooLong));
    assert_eq!(buf, vec![42, b'S', b'E', b'Q', b'C', 1, 0]);

    let mut buf = Vec::new();
    let res = Hello {
        link_type: 1,
        snaplen: 2,
        filter: "x".repeat(65536),
    }
    .write_to(&mut buf);
    assert_eq!(res, Err(ProtoError::FilterTooLong));
    assert_eq!(buf.len(), 14);
}

#[test]
fn faulty_messages_are_refused() {
    let good = client_bytes("udp");

    let mut bad = good.clone();
    bad[0] = b'X';
    let mut r = &bad[..];
    assert_eq!(
        ClientHello::read_from(&mut r).unwrap_err(),
        ProtoError::BadMagic(Opening::Client)
    );
    assert_eq!(r.len(), good.len() - 4);

    let mut bad = good.clone();
    bad[4] = 9;
    let mut r = &bad[..];
    assert_eq!(
        ClientHello::read_from(&mut r).unwrap_err(),
        ProtoError::UnsupportedVersion(Opening::Client, 9)
    );
    assert_eq!(r.len(), good.len() - 6);

    let mut bad = good.clone();
    bad[8] = 0xff;
    let mut r = &bad[..];
    assert_eq!(
        ClientHello::read_from(&mut r).unwrap_err(),
        ProtoError::FilterNotUtf8
    );
    assert!(r.is_empty());

    let bad = hello_bytes(1, 2, "udp");
    for n in 0..bad.len() {
        let mut r = &bad[..n];
        assert_eq!(
            Hello::read_from(&mut r).unwrap_err(),
            ProtoError::UnexpectedEof
        );
        assert!(r.is_empty());
    }
    let mut bad = bad;
    bad[4] = 0;
    assert_eq!(
        Hello::read_from(&mut &bad[..]).unwrap_err(),
        ProtoError::UnsupportedVersion(Opening::Agent, 0)
    );
    assert_eq!(
        Hello::read_from(&mut &good[..]).unwrap_err(),
        ProtoError::BadMagic(Opening::Agent)
    );
    for n in 0..16 {
        assert_eq!(
            FrameHeader::read_from(&mut &vec![1u8; n][..]).unwrap_err(),
            ProtoError::UnexpectedEof
        );
    }
}

#[test]
fn flags_are_ignored_and_written_as_zero() {
    let mut buf = hello_bytes(1, 2, "udp");
    buf[5] = 77;
    let h = Hello::read_from(&mut &buf[..]).unwrap();
    let mut again = Vec::new();
    h.write_to(&mut again).unwrap();
    buf[5] = 0;
    assert_eq!(again, buf);

    let mut buf = client_bytes("udp");
    buf[5] = 77;
    let h = ClientHello::read_from(&mut &buf[..]).unwrap();
    let mut again = Vec::new();
    h.write_to(&mut again).unwrap();
    buf[5] = 0;
    assert_eq!(again, buf);
}

#[test]
fn sixteen_bytes_are_a_header_that_writes_back() {
    let bytes: Vec<u8> = (200u8..216).collect();
    let h = FrameHeader::read_from(&mut &bytes[..]).unwrap();
    let mut again = Vec::new();
    h.write_to(&mut again).unwrap();
    assert_eq!(again, bytes);
}

/// Fetches a message the way that a connection is read.
fn fetch(stream: &[u8], wanted: fn(&[u8]) -> usize) -> usize {
    let mut n = 0;
    loop {
        let more = wanted(&stream[..n]);
        if more == 0 || n + more > stream.len() {
            return n;
        }
        n += more;
    }
}

#[test]
fn fetching_takes_exactly_the_message() {
    let mut stream = hello_bytes(1, 2, "tcp port 80");
    let len = stream.len();
    stream.extend_from_slice(&[1; 50]);
    assert_eq!(fetch(&stream, Hello::wanted), len);
    assert_eq!(fetch(&stream[..len - 1], Hello::wanted), 16);

    let mut stream = client_bytes("");
    stream.extend_from_slice(&[1; 50]);
    assert_eq!(fetch(&stream, ClientHello::wanted), 8);

    // A fault is known as soon as it has arrived.
    assert_eq!(fetch(b"SEQAxxxxxxxx", ClientHello::wanted), 4);
    assert_eq!(fetch(b"SEQC\x02\x00xxxx", ClientHello::wanted), 6);
    assert_eq!(ClientHello::wanted(b"SEQ"), 1);
    assert_eq!(ClientHello::wanted(b"SEQC"), 2);
    assert_eq!(ClientHello::wanted(b"SEQC\x01\x00"), 2);
    assert_eq!(ClientHello::wanted(b"SEQC\x01\x00\x03\x01"), 259);
    assert_eq!(Hello::wanted(b"SEQA\x01\x00"), 10);
}

#[test]
fn errors_have_kinds_and_words() {
    let cases = [
        (
            ProtoError::UnexpectedEof,
            ErrorKind::UnexpectedEof,
            "failed to fill whole buffer",
        ),
        (
            ProtoError::BadMagic(Opening::Agent),
            ErrorKind::InvalidData,
            "bad SEQA magic",
        ),
        (
            ProtoError::BadMagic(Opening::Client),
            ErrorKind::InvalidData,
            "bad SEQC magic",
        ),
        (
            ProtoError::UnsupportedVersion(Opening::Agent, 0),
            ErrorKind::InvalidData,
            "unsupported SEQA version 0",
        ),
        (
            ProtoError::UnsupportedVersion(Opening::Client, 255),
            ErrorKind::InvalidData,
            "unsupported SEQC version 255",
        ),
        (
            ProtoError::FilterNotUtf8,
            ErrorKind::InvalidData,
            "filter not UTF-8",
        ),
        (
            ProtoError::FilterTooLong,
            ErrorKind::InvalidInput,
            "filter too long",
        ),
    ];
    for (e, kind, text) in cases {
        assert_eq!(e.kind(), kind);
        assert_eq!(e.message(), text);
    }
}
