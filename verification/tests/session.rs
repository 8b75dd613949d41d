use seq_agent::cli::Opts;
use seq_agent::proto::ClientHello;
use seq_agent::session::{read_client_hello, SessionPlan};

fn client_hello(filter: &str) -> Vec<u8> {
    let mut buf = Vec::new();
    ClientHello {
        filter: filter.into(),
    }
    .write_to(&mut buf)
    .unwrap();
    buf
}

fn opts(device: Option<&str>, input: Option<&str>) -> Opts {
    Opts {
        device: device.map(|s| s.to_string()),
        input: input.map(|s| s.to_string()),
        filter: "default".to_string(),
        snaplen: 65535,
        listen: "0.0.0.0:9099".to_string(),
        ring: 8192,
        promisc: true,
    }
}

#[test]
fn uses_daemon_supplied_filter() {
    let got = read_client_hello(&client_hello("udp and port 9000"), "default");
    assert_eq!(got, "udp and port 9000");
}

#[test]
fn falls_back_to_default_when_daemon_sends_no_hello() {
    // The daemon stays silent past the timeout: nothing was received.
    let got = read_client_hello(&[], "default");
    assert_eq!(got, "default");
}

#[test]
fn falls_back_when_the_hello_is_cut_or_malformed() {
    let whole = client_hello("udp");
    for n in 0..whole.len() {
        assert_eq!(read_client_hello(&whole[..n], "default"), "default");
    }
    for (at, byte) in [(0, b'X'), (4, 2), (8, 0xff)] {
        let mut bad = whole.clone();
        bad[at] = byte;
        assert_eq!(read_client_hello(&bad, "default"), "default");
    }
}

#[test]
fn an_empty_filter_that_was_asked_for_stands() {
    assert_eq!(read_client_hello(&client_hello(""), "default"), "");
}

#[test]
fn tap_captures_with_the_filter_asked_for() {
    let plan = SessionPlan::new(&opts(Some("eth0"), None), &client_hello("tcp"));
    assert_eq!(plan.filter, "tcp");
    assert!(!plan.lossless);
    assert_eq!(plan.bpf(), Some("tcp"));
    assert_eq!(plan.filter_label(), "tcp");
    let h = plan.hello(113);
    assert_eq!((h.link_type, h.snaplen), (113, 65535));
    assert_eq!(h.filter, "tcp");
}

#[test]
fn replay_keeps_the_agents_filter() {
    let o = opts(None, Some("a.pcap"));
    for received in [client_hello("tcp"), Vec::new()] {
        let plan = SessionPlan::new(&o, &received);
        assert_eq!(plan.filter, "default");
        assert!(plan.lossless);
        assert_eq!(plan.ring, 8192);
        assert_eq!(plan.snaplen, 65535);
    }
}

#[test]
fn no_filter_is_not_applied() {
    let plan = SessionPlan::new(&opts(Some("eth0"), None), &client_hello(""));
    assert_eq!(plan.bpf(), None);
    assert_eq!(plan.filter_label(), "<none>");
    assert_eq!(plan.hello(1).filter, "");
}

#[test]
fn snaplen_is_cast_for_the_capture() {
    for s in [0u32, 65535, i32::MAX as u32, 1 << 31, u32::MAX] {
        let mut o = opts(Some("eth0"), None);
        o.snaplen = s;
        assert_eq!(SessionPlan::new(&o, &[]).capture_snaplen(), s as i32);
    }
}
