use seq_agent::cli::{
    next, parse_agent_args, parse_sink_args, AgentCommand, Opts, SinkCommand, SinkOpts, UsageError,
};

fn args(list: &[&str]) -> Vec<String> {
    list.iter().map(|s| s.to_string()).collect()
}

fn running(list: &[&str]) -> Opts {
    match parse_agent_args(&args(list)) {
        Ok(AgentCommand::Run(o)) => o,
        _ => panic!("the agent is to run"),
    }
}

fn fault(list: &[&str]) -> String {
    match parse_agent_args(&args(list)) {
        Err(e) => e.message(),
        Ok(_) => panic!("the command line is faulty"),
    }
}

fn sinking(list: &[&str]) -> SinkOpts {
    match parse_sink_args(&args(list)) {
        Ok(SinkCommand::Run(o)) => o,
        _ => panic!("the sink is to run"),
    }
}

fn sink_fault(list: &[&str]) -> String {
    match parse_sink_args(&args(list)) {
        Err(e) => e.message(),
        Ok(_) => panic!("the command line is faulty"),
    }
}

#[test]
fn agent_defaults() {
    let o = running(&["-i", "eth0"]);
    assert_eq!(o.device.as_deref(), Some("eth0"));
    assert_eq!(o.input, None);
    assert_eq!(o.filter, "");
    assert_eq!(o.snaplen, 65535);
    assert_eq!(o.listen, "0.0.0.0:9099");
    assert_eq!(o.ring, 8192);
    assert!(o.promisc);
}

#[test]
fn agent_takes_every_flag() {
    let o = running(&[
        "--input", "a.pcap", "--filter", "udp", "--snaplen", "+96", "--listen", "[::1]:1", "--ring",
        "0", "--no-promisc",
    ]);
    assert_eq!(o.device, None);
    assert_eq!(o.input.as_deref(), Some("a.pcap"));
    assert_eq!(o.filter, "udp");
    assert_eq!(o.snaplen, 96);
    assert_eq!(o.listen, "[::1]:1");
    assert_eq!(o.ring, 0);
    assert!(!o.promisc);
    let o = running(&["-f", "tcp", "-s", "1", "-l", "h:2", "--device", "lo"]);
    assert_eq!(o.filter, "tcp");
    assert_eq!(o.snaplen, 1);
    assert_eq!(o.listen, "h:2");
    assert_eq!(o.device.as_deref(), Some("lo"));
}

#[test]
fn agent_needs_exactly_one_source() {
    let text = "specify exactly one of --device <name> or --input <file.pcap>";
    assert_eq!(fault(&[]), text);
    assert_eq!(fault(&["-i", "eth0", "--input", "a.pcap"]), text);
    assert_eq!(fault(&["-f", "udp"]), text);
}

#[test]
fn agent_faults() {
    assert_eq!(fault(&["--to", "h:1"]), "unknown argument: --to");
    assert_eq!(fault(&["-i"]), "-i needs a value");
    assert_eq!(fault(&["--device"]), "--device needs a value");
    assert_eq!(fault(&["-s", ""]), "cannot parse integer from empty string");
    assert_eq!(fault(&["-s", "ten"]), "invalid digit found in string");
    assert_eq!(
        fault(&["-s", "4294967296"]),
        "number too large to fit in target type"
    );
    assert_eq!(fault(&["--ring", "-1"]), "invalid digit found in string");
    // The first fault counts.
    assert_eq!(fault(&["-x", "--ring", "z"]), "unknown argument: -x");
}

#[test]
fn agent_lists_and_helps_at_once() {
    assert!(matches!(
        parse_agent_args(&args(&["-f", "udp", "--list-devices", "-x"])),
        Ok(AgentCommand::ListDevices)
    ));
    assert!(matches!(
        parse_agent_args(&args(&["-h", "-x"])),
        Ok(AgentCommand::Help)
    ));
    assert!(matches!(
        parse_agent_args(&args(&["--help"])),
        Ok(AgentCommand::Help)
    ));
    assert_eq!(fault(&["-x", "--help"]), "unknown argument: -x");
    // A value is a value, whatever it looks like.
    assert_eq!(running(&["-i", "--help"]).device.as_deref(), Some("--help"));
}

#[test]
fn later_value_counts_and_order_does_not() {
    assert_eq!(running(&["-i", "a", "-s", "1", "--snaplen", "2"]).snaplen, 2);
    let x = running(&["-f", "udp", "-i", "a"]);
    let y = running(&["-i", "a", "-f", "udp"]);
    assert_eq!((x.filter, x.device), (y.filter, y.device));
}

#[test]
fn next_is_the_value_or_a_fault() {
    let list = args(&["a", "b"]);
    assert_eq!(next(&list, 1, "-i").ok().as_deref(), Some("b"));
    match next(&list, 2, "-i") {
        Err(UsageError::MissingValue(flag)) => assert_eq!(flag, "-i"),
        _ => panic!("there is no third argument"),
    }
}

#[test]
fn sink_command_line() {
    let o = sinking(&[]);
    assert_eq!(o.connect, "127.0.0.1:9099");
    assert_eq!(o.write_pcap, None);
    let o = sinking(&["-c", "h:1", "--write-pcap", "out.pcap", "--connect", "h:2"]);
    assert_eq!(o.connect, "h:2");
    assert_eq!(o.write_pcap.as_deref(), Some("out.pcap"));
    assert!(matches!(
        parse_sink_args(&args(&["--help"])),
        Ok(SinkCommand::Help)
    ));
    assert!(matches!(
        parse_sink_args(&args(&["-h", "-x"])),
        Ok(SinkCommand::Help)
    ));
    assert_eq!(sink_fault(&["-c"]), "--connect needs a value");
    assert_eq!(sink_fault(&["--write-pcap"]), "--write-pcap needs a value");
    assert_eq!(sink_fault(&["--listen"]), "unknown argument: --listen");
}

#[test]
fn settled_command_ignores_what_follows() {
    let settled = |list: &[&str]| match parse_agent_args(&args(list)) {
        Ok(c) => c.settled(),
        Err(e) => e.settled(),
    };
    for list in [
        &["--help"][..],
        &["--list-devices"],
        &["-i", "a", "-h"],
        &["--bogus"],
        &["--ring", "x"],
    ] {
        assert!(settled(list), "{list:?}");
    }
    for list in [&[][..], &["-i"], &["-i", "a"], &["--no-promisc"]] {
        assert!(!settled(list), "{list:?}");
    }
    assert!(matches!(
        parse_agent_args(&args(&["--help", "--bogus"])),
        Ok(AgentCommand::Help)
    ));

    let settled = |list: &[&str]| match parse_sink_args(&args(list)) {
        Ok(c) => c.settled(),
        Err(e) => e.settled(),
    };
    assert!(settled(&["-h"]));
    assert!(settled(&["-c", "h:1", "--bogus"]));
    assert!(!settled(&["-c"]));
    assert!(!settled(&["-c", "h:1"]));
}
