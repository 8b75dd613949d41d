//! Command lines: the agent's and the sink's.

use vstd::prelude::*;
use vstd::string::*;

use crate::text::{number, parse_number, same_text, NumberError};

verus! {

/// The texts of some arguments.
pub open spec fn texts(args: Seq<String>) -> Seq<Seq<char>> {
    Seq::new(args.len(), |i: int| args[i]@)
}

pub open spec fn text_of(s: Option<String>) -> Option<Seq<char>> {
    match s {
        Some(t) => Some(t@),
        None => None,
    }
}

/// What is wrong with a command line.
pub enum UsageError {
    /// No flag is called that.
    UnknownArgument(String),
    /// The flag of this name is the last argument, but needs a value.
    MissingValue(String),
    /// A value is not a number.
    BadNumber(NumberError),
    /// Not exactly one of a device and a file was named.
    SourceChoice,
}

/// The same, as plain values.
pub enum UsageErrorView {
    UnknownArgument(Seq<char>),
    MissingValue(Seq<char>),
    BadNumber(NumberError),
    SourceChoice,
}

impl View for UsageError {
    type V = UsageErrorView;

    open spec fn view(&self) -> UsageErrorView {
        match self {
            UsageError::UnknownArgument(s) => UsageErrorView::UnknownArgument(s@),
            UsageError::MissingValue(s) => UsageErrorView::MissingValue(s@),
            UsageError::BadNumber(e) => UsageErrorView::BadNumber(*e),
            UsageError::SourceChoice => UsageErrorView::SourceChoice,
        }
    }
}

impl UsageErrorView {
    pub open spec fn text(self) -> Seq<char> {
        match self {
            UsageErrorView::UnknownArgument(a) => "unknown argument: "@ + a,
            UsageErrorView::MissingValue(flag) => flag + " needs a value"@,
            UsageErrorView::BadNumber(e) => e.text(),
            UsageErrorView::SourceChoice =>
                "specify exactly one of --device <name> or --input <file.pcap>"@,
        }
    }

    /// Whether the fault stands whatever arguments follow.
    pub open spec fn settled(self) -> bool {
        !(self is MissingValue) && !(self is SourceChoice)
    }
}

impl UsageError {
    /// The fault in words.
    pub fn message(&self) -> (text: String)
        ensures
            text@ == self@.text(),
    {
        match self {
            UsageError::UnknownArgument(a) => {
                let mut s: String = "unknown argument: ".to_owned();
                s.append(a.as_str());
                s
            },
            UsageError::MissingValue(flag) => {
                let mut s: String = flag.clone();
                s.append(" needs a value");
                s
            },
            UsageError::BadNumber(e) => e.message(),
            UsageError::SourceChoice =>
                "specify exactly one of --device <name> or --input <file.pcap>".to_owned(),
        }
    }

    /// Whether the fault stands whatever arguments follow.
    pub fn settled(&self) -> (yes: bool)
        ensures
            yes == self@.settled(),
    {
        match self {
            UsageError::MissingValue(_) | UsageError::SourceChoice => false,
            _ => true,
        }
    }
}

// ---- the agent ----

/// How an agent is to run.
pub struct Opts {
    /// The live device to capture from.
    pub device: Option<String>,
    /// The file to replay.
    pub input: Option<String>,
    /// The BPF filter to use where the other side names none.
    pub filter: String,
    pub snaplen: u32,
    /// The address to accept the other side on.
    pub listen: String,
    /// How many frames a session can have waiting.
    pub ring: usize,
    pub promisc: bool,
}

/// The same, as plain values.
pub struct OptsView {
    pub device: Option<Seq<char>>,
    pub input: Option<Seq<char>>,
    pub filter: Seq<char>,
    pub snaplen: u32,
    pub listen: Seq<char>,
    pub ring: usize,
    pub promisc: bool,
}

impl View for Opts {
    type V = OptsView;

    open spec fn view(&self) -> OptsView {
        OptsView {
            device: text_of(self.device),
            input: text_of(self.input),
            filter: self.filter@,
            snaplen: self.snaplen,
            listen: self.listen@,
            ring: self.ring,
            promisc: self.promisc,
        }
    }
}

/// The agent's flags.
#[derive(Debug, Clone, Copy, PartialEq, Eq, Structural)]
pub enum AgentFlag {
    Device,
    Input,
    Filter,
    Snaplen,
    Listen,
    Ring,
    NoPromisc,
    ListDevices,
    Help,
}

/// The flag that is called `a`.
pub open spec fn agent_flag(a: Seq<char>) -> Option<AgentFlag> {
    if a == "-i"@ || a == "--device"@ {
        Some(AgentFlag::Device)
    } else if a == "--input"@ {
        Some(AgentFlag::Input)
    } else if a == "-f"@ || a == "--filter"@ {
        Some(AgentFlag::Filter)
    } else if a == "-s"@ || a == "--snaplen"@ {
        Some(AgentFlag::Snaplen)
    } else if a == "-l"@ || a == "--listen"@ {
        Some(AgentFlag::Listen)
    } else if a == "--ring"@ {
        Some(AgentFlag::Ring)
    } else if a == "--no-promisc"@ {
        Some(AgentFlag::NoPromisc)
    } else if a == "--list-devices"@ {
        Some(AgentFlag::ListDevices)
    } else if a == "-h"@ || a == "--help"@ {
        Some(AgentFlag::Help)
    } else {
        None
    }
}

impl AgentFlag {
    pub open spec fn takes_value(self) -> bool {
        match self {
            AgentFlag::NoPromisc | AgentFlag::ListDevices | AgentFlag::Help => false,
            _ => true,
        }
    }
}

impl OptsView {
    /// What holds where the command line says nothing else.
    pub open spec fn default() -> OptsView {
        OptsView {
            device: None,
            input: None,
            filter: Seq::empty(),
            snaplen: 65535,
            listen: "0.0.0.0:9099"@,
            ring: 8192,
            promisc: true,
        }
    }

    /// Whether exactly one source is named.
    pub open spec fn one_source(self) -> bool {
        self.device is Some != self.input is Some
    }

    /// The options after a flag with its value.
    pub open spec fn with_value(self, flag: AgentFlag, value: Seq<char>) -> Result<
        OptsView,
        NumberError,
    > {
        match flag {
            AgentFlag::Device => Ok(OptsView { device: Some(value), ..self }),
            AgentFlag::Input => Ok(OptsView { input: Some(value), ..self }),
            AgentFlag::Filter => Ok(OptsView { filter: value, ..self }),
            AgentFlag::Listen => Ok(OptsView { listen: value, ..self }),
            AgentFlag::Snaplen => match number(value, u32::MAX as nat) {
                Ok(n) => Ok(OptsView { snaplen: n as u32, ..self }),
                Err(e) => Err(e),
            },
            AgentFlag::Ring => match number(value, usize::MAX as nat) {
                Ok(n) => Ok(OptsView { ring: n as usize, ..self }),
                Err(e) => Err(e),
            },
            _ => Ok(self),
        }
    }
}

/// What an agent is asked to do.
pub enum AgentCommand {
    Run(Opts),
    ListDevices,
    Help,
}

/// The same, as plain values.
pub enum AgentCommandView {
    Run(OptsView),
    ListDevices,
    Help,
}

impl View for AgentCommand {
    type V = AgentCommandView;

    open spec fn view(&self) -> AgentCommandView {
        match self {
            AgentCommand::Run(o) => AgentCommandView::Run(o@),
            AgentCommand::ListDevices => AgentCommandView::ListDevices,
            AgentCommand::Help => AgentCommandView::Help,
        }
    }
}

impl AgentCommandView {
    /// Whether the request stands whatever arguments follow.
    pub open spec fn settled(self) -> bool {
        !(self is Run)
    }
}

impl AgentCommand {
    /// Whether the request stands whatever arguments follow.
    pub fn settled(&self) -> (yes: bool)
        ensures
            yes == self@.settled(),
    {
        match self {
            AgentCommand::Run(_) => false,
            _ => true,
        }
    }
}

/// What the arguments `args` ask for, where those before them came to `opts`.
/// They count from left to right: the first fault or the first request to list
/// or to help decides.
pub open spec fn agent_command(args: Seq<Seq<char>>, opts: OptsView) -> Result<
    AgentCommandView,
    UsageErrorView,
>
    decreases args.len(),
{
    if args.len() == 0 {
        if opts.one_source() {
            Ok(AgentCommandView::Run(opts))
        } else {
            Err(UsageErrorView::SourceChoice)
        }
    } else {
        match agent_flag(args[0]) {
            None => Err(UsageErrorView::UnknownArgument(args[0])),
            Some(AgentFlag::ListDevices) => Ok(AgentCommandView::ListDevices),
            Some(AgentFlag::Help) => Ok(AgentCommandView::Help),
            Some(AgentFlag::NoPromisc) => agent_command(
                args.skip(1),
                OptsView { promisc: false, ..opts },
            ),
            Some(flag) => if args.len() < 2 {
                Err(UsageErrorView::MissingValue(args[0]))
            } else {
                match opts.with_value(flag, args[1]) {
                    Ok(changed) => agent_command(args.skip(2), changed),
                    Err(e) => Err(UsageErrorView::BadNumber(e)),
                }
            },
        }
    }
}

/// The flag that is called `a`.
fn find_agent_flag(a: &str) -> (flag: Option<AgentFlag>)
    ensures
        flag == agent_flag(a@),
{
    if same_text(a, "-i") || same_text(a, "--device") {
        Some(AgentFlag::Device)
    } else if same_text(a, "--input") {
        Some(AgentFlag::Input)
    } else if same_text(a, "-f") || same_text(a, "--filter") {
        Some(AgentFlag::Filter)
    } else if same_text(a, "-s") || same_text(a, "--snaplen") {
        Some(AgentFlag::Snaplen)
    } else if same_text(a, "-l") || same_text(a, "--listen") {
        Some(AgentFlag::Listen)
    } else if same_text(a, "--ring") {
        Some(AgentFlag::Ring)
    } else if same_text(a, "--no-promisc") {
        Some(AgentFlag::NoPromisc)
    } else if same_text(a, "--list-devices") {
        Some(AgentFlag::ListDevices)
    } else if same_text(a, "-h") || same_text(a, "--help") {
        Some(AgentFlag::Help)
    } else {
        None
    }
}

/// The argument at `at`, as the value of the flag that is called `flag`.
pub fn next(args: &[String], at: usize, flag: &str) -> (res: Result<String, UsageError>)
    ensures
        match res {
            Ok(value) => at < args@.len() && value@ == args@[at as int]@,
            Err(e) => at >= args@.len() && e@ == UsageErrorView::MissingValue(flag@),
        },
{
    if at < args.len() {
        Ok(args[at].clone())
    } else {
        Err(UsageError::MissingValue(flag.to_owned()))
    }
}

/// Takes over the value of a flag.
fn set_value(opts: &mut Opts, flag: AgentFlag, value: String) -> (res: Result<(), NumberError>)
    requires
        flag.takes_value(),
    ensures
        match old(opts)@.with_value(flag, value@) {
            Ok(changed) => res is Ok && final(opts)@ == changed,
            Err(e) => res == Err::<(), NumberError>(e),
        },
{
    match flag {
        AgentFlag::Device => {
            opts.device = Some(value);
        },
        AgentFlag::Input => {
            opts.input = Some(value);
        },
        AgentFlag::Filter => {
            opts.filter = value;
        },
        AgentFlag::Listen => {
            opts.listen = value;
        },
        AgentFlag::Snaplen => match parse_number(value.as_str(), u32::MAX as u64) {
            Ok(n) => {
                opts.snaplen = n as u32;
            },
            Err(e) => {
                return Err(e);
            },
        },
        AgentFlag::Ring => match parse_number(value.as_str(), usize::MAX as u64) {
            Ok(n) => {
                opts.ring = n as usize;
            },
            Err(e) => {
                return Err(e);
            },
        },
        _ => {},
    }
    Ok(())
}

/// What the agent's command line asks for; `args` leaves out the program's name.
pub fn parse_agent_args(args: &[String]) -> (res: Result<AgentCommand, UsageError>)
    ensures
        match (res, agent_command(texts(args@), OptsView::default())) {
            (Ok(c), Ok(want)) => c@ == want,
            (Err(e), Err(want)) => e@ == want,
            _ => false,
        },
{
    let mut opts: Opts = Opts {
        device: None,
        input: None,
        filter: String::new(),
        snaplen: 65535,
        listen: "0.0.0.0:9099".to_owned(),
        ring: 8192,
        promisc: true,
    };
    let mut i: usize = 0;
    let ghost all = texts(args@);
    assert(all.skip(0) =~= all);
    while i < args.len()
        invariant
            i <= args@.len(),
            all == texts(args@),
            agent_command(all.skip(i as int), opts@) == agent_command(all, OptsView::default()),
        decreases args@.len() - i,
    {
        let ghost rest = all.skip(i as int);
        let a: &String = &args[i];
        assert(rest[0] == a@);
        assert(rest.skip(1) =~= all.skip(i + 1));
        match find_agent_flag(a.as_str()) {
            None => {
                return Err(UsageError::UnknownArgument(a.clone()));
            },
            Some(AgentFlag::ListDevices) => {
                return Ok(AgentCommand::ListDevices);
            },
            Some(AgentFlag::Help) => {
                return Ok(AgentCommand::Help);
            },
            Some(AgentFlag::NoPromisc) => {
                opts.promisc = false;
                i = i + 1;
            },
            Some(flag) => {
                let value: String = match next(args, i + 1, a.as_str()) {
                    Ok(v) => v,
                    Err(e) => {
                        return Err(e);
                    },
                };
                assert(rest[1] == value@);
                assert(rest.skip(2) =~= all.skip(i + 2));
                match set_value(&mut opts, flag, value) {
                    Ok(_) => {},
                    Err(e) => {
                        return Err(UsageError::BadNumber(e));
                    },
                }
                i = i + 2;
            },
        }
    }
    assert(all.skip(i as int).len() == 0);
    if opts.device.is_some() == opts.input.is_some() {
        Err(UsageError::SourceChoice)
    } else {
        Ok(AgentCommand::Run(opts))
    }
}

/// An agent that is to run has exactly one source.
pub proof fn law_running_agent_has_one_source(args: Seq<Seq<char>>, opts: OptsView)
    ensures
        agent_command(args, opts) matches Ok(AgentCommandView::Run(o)) ==> o.one_source(),
    decreases args.len(),
{
    if args.len() > 0 {
        match agent_flag(args[0]) {
            Some(AgentFlag::NoPromisc) => {
                law_running_agent_has_one_source(
                    args.skip(1),
                    OptsView { promisc: false, ..opts },
                );
            },
            Some(flag) => {
                if flag.takes_value() && args.len() >= 2 {
                    if let Ok(changed) = opts.with_value(flag, args[1]) {
                        law_running_agent_has_one_source(args.skip(2), changed);
                    }
                }
            },
            None => {},
        }
    }
}

/// What is settled by some arguments is not changed by those that follow, whatever
/// they are.
pub proof fn law_settled_agent_command_stands(
    args: Seq<Seq<char>>,
    more: Seq<Seq<char>>,
    opts: OptsView,
)
    requires
        match agent_command(args, opts) {
            Ok(c) => c.settled(),
            Err(e) => e.settled(),
        },
    ensures
        agent_command(args + more, opts) == agent_command(args, opts),
    decreases args.len(),
{
    let all = args + more;
    if args.len() > 0 {
        assert(all[0] == args[0]);
        match agent_flag(args[0]) {
            Some(AgentFlag::NoPromisc) => {
                assert(all.skip(1) =~= args.skip(1) + more);
                law_settled_agent_command_stands(
                    args.skip(1),
                    more,
                    OptsView { promisc: false, ..opts },
                );
            },
            Some(flag) => {
                if flag.takes_value() && args.len() >= 2 {
                    assert(all[1] == args[1]);
                    if let Ok(changed) = opts.with_value(flag, args[1]) {
                        assert(all.skip(2) =~= args.skip(2) + more);
                        law_settled_agent_command_stands(args.skip(2), more, changed);
                    }
                }
            },
            None => {},
        }
    }
}

proof fn lemma_valued_flag(a: Seq<char>, v: Seq<char>, rest: Seq<Seq<char>>, opts: OptsView)
    requires
        agent_flag(a) matches Some(flag) && flag.takes_value(),
    ensures
        agent_command(seq![a, v] + rest, opts) == match opts.with_value(agent_flag(a)->0, v) {
            Ok(changed) => agent_command(rest, changed),
            Err(e) => Err(UsageErrorView::BadNumber(e)),
        },
{
    let args = seq![a, v] + rest;
    assert(args[0] == a && args[1] == v);
    assert(args.skip(2) =~= rest);
}

/// Of two values for one flag, under either of its names, the later counts.
pub proof fn law_later_value_counts(
    a: Seq<char>,
    v: Seq<char>,
    b: Seq<char>,
    w: Seq<char>,
    rest: Seq<Seq<char>>,
    opts: OptsView,
)
    requires
        agent_flag(a) matches Some(flag) && flag.takes_value(),
        agent_flag(b) == agent_flag(a),
        opts.with_value(agent_flag(a)->0, v) is Ok,
    ensures
        agent_command(seq![a, v] + (seq![b, w] + rest), opts) == agent_command(
            seq![b, w] + rest,
            opts,
        ),
{
    let flag = agent_flag(a)->0;
    lemma_valued_flag(a, v, seq![b, w] + rest, opts);
    lemma_valued_flag(b, w, rest, opts.with_value(flag, v)->Ok_0);
    lemma_valued_flag(b, w, rest, opts);
}

/// The order of two different flags does not matter, unless the values of both
/// are faulty.
pub proof fn law_flags_may_be_swapped(
    a: Seq<char>,
    v: Seq<char>,
    b: Seq<char>,
    w: Seq<char>,
    rest: Seq<Seq<char>>,
    opts: OptsView,
)
    requires
        agent_flag(a) matches Some(flag) && flag.takes_value(),
        agent_flag(b) matches Some(flag) && flag.takes_value(),
        agent_flag(a) != agent_flag(b),
        opts.with_value(agent_flag(a)->0, v) is Ok || opts.with_value(agent_flag(b)->0, w) is Ok,
    ensures
        agent_command(seq![a, v] + (seq![b, w] + rest), opts) == agent_command(
            seq![b, w] + (seq![a, v] + rest),
            opts,
        ),
{
    let f = agent_flag(a)->0;
    let g = agent_flag(b)->0;
    lemma_valued_flag(a, v, seq![b, w] + rest, opts);
    lemma_valued_flag(b, w, seq![a, v] + rest, opts);
    if let Ok(changed) = opts.with_value(f, v) {
        lemma_valued_flag(b, w, rest, changed);
    }
    if let Ok(changed) = opts.with_value(g, w) {
        lemma_valued_flag(a, v, rest, changed);
    }
}

// ---- the sink ----

/// How a sink is to run.
pub struct SinkOpts {
    /// The agent's address.
    pub connect: String,
    /// The file to write the frames to.
    pub write_pcap: Option<String>,
}

/// The same, as plain values.
pub struct SinkOptsView {
    pub connect: Seq<char>,
    pub write_pcap: Option<Seq<char>>,
}

impl View for SinkOpts {
    type V = SinkOptsView;

    open spec fn view(&self) -> SinkOptsView {
        SinkOptsView { connect: self.connect@, write_pcap: text_of(self.write_pcap) }
    }
}

impl SinkOptsView {
    /// What holds where the command line says nothing else.
    pub open spec fn default() -> SinkOptsView {
        SinkOptsView { connect: "127.0.0.1:9099"@, write_pcap: None }
    }
}

/// What a sink is asked to do.
pub enum SinkCommand {
    Run(SinkOpts),
    Help,
}

/// The same, as plain values.
pub enum SinkCommandView {
    Run(SinkOptsView),
    Help,
}

impl View for SinkCommand {
    type V = SinkCommandView;

    open spec fn view(&self) -> SinkCommandView {
        match self {
            SinkCommand::Run(o) => SinkCommandView::Run(o@),
            SinkCommand::Help => SinkCommandView::Help,
        }
    }
}

impl SinkCommandView {
    /// Whether the request stands whatever arguments follow.
    pub open spec fn settled(self) -> bool {
        !(self is Run)
    }
}

impl SinkCommand {
    /// Whether the request stands whatever arguments follow.
    pub fn settled(&self) -> (yes: bool)
        ensures
            yes == self@.settled(),
    {
        match self {
            SinkCommand::Run(_) => false,
            _ => true,
        }
    }
}

/// What the arguments `args` ask for, where those before them came to `opts`.
pub open spec fn sink_command(args: Seq<Seq<char>>, opts: SinkOptsView) -> Result<
    SinkCommandView,
    UsageErrorView,
>
    decreases args.len(),
{
    if args.len() == 0 {
        Ok(SinkCommandView::Run(opts))
    } else if args[0] == "-c"@ || args[0] == "--connect"@ {
        if args.len() < 2 {
            Err(UsageErrorView::MissingValue("--connect"@))
        } else {
            sink_command(args.skip(2), SinkOptsView { connect: args[1], ..opts })
        }
    } else if args[0] == "--write-pcap"@ {
        if args.len() < 2 {
            Err(UsageErrorView::MissingValue("--write-pcap"@))
        } else {
            sink_command(args.skip(2), SinkOptsView { write_pcap: Some(args[1]), ..opts })
        }
    } else if args[0] == "-h"@ || args[0] == "--help"@ {
        Ok(SinkCommandView::Help)
    } else {
        Err(UsageErrorView::UnknownArgument(args[0]))
    }
}

/// What the sink's command line asks for; `args` leaves out the program's name.
pub fn parse_sink_args(args: &[String]) -> (res: Result<SinkCommand, UsageError>)
    ensures
        match (res, sink_command(texts(args@), SinkOptsView::default())) {
            (Ok(c), Ok(want)) => c@ == want,
            (Err(e), Err(want)) => e@ == want,
            _ => false,
        },
{
    let mut opts: SinkOpts = SinkOpts { connect: "127.0.0.1:9099".to_owned(), write_pcap: None };
    let mut i: usize = 0;
    let ghost all = texts(args@);
    assert(all.skip(0) =~= all);
    while i < args.len()
        invariant
            i <= args@.len(),
            all == texts(args@),
            sink_command(all.skip(i as int), opts@) == sink_command(all, SinkOptsView::default()),
        decreases args@.len() - i,
    {
        let ghost rest = all.skip(i as int);
        let a: &str = args[i].as_str();
        assert(rest[0] == a@);
        if same_text(a, "-c") || same_text(a, "--connect") {
            match next(args, i + 1, "--connect") {
                Ok(v) => {
                    assert(rest[1] == v@);
                    opts.connect = v;
                },
                Err(e) => {
                    return Err(e);
                },
            }
        } else if same_text(a, "--write-pcap") {
            match next(args, i + 1, "--write-pcap") {
                Ok(v) => {
                    assert(rest[1] == v@);
                    opts.write_pcap = Some(v);
                },
                Err(e) => {
                    return Err(e);
                },
            }
        } else if same_text(a, "-h") || same_text(a, "--help") {
            return Ok(SinkCommand::Help);
        } else {
            return Err(UsageError::UnknownArgument(args[i].clone()));
        }
        assert(rest.skip(2) =~= all.skip(i + 2));
        i = i + 2;
    }
    assert(all.skip(i as int).len() == 0);
    Ok(SinkCommand::Run(opts))
}

/// What is settled by some arguments is not changed by those that follow, whatever
/// they are.
pub proof fn law_settled_sink_command_stands(
    args: Seq<Seq<char>>,
    more: Seq<Seq<char>>,
    opts: SinkOptsView,
)
    requires
        match sink_command(args, opts) {
            Ok(c) => c.settled(),
            Err(e) => e.settled(),
        },
    ensures
        sink_command(args + more, opts) == sink_command(args, opts),
    decreases args.len(),
{
    let all = args + more;
    if args.len() > 0 {
        assert(all[0] == args[0]);
        if args.len() >= 2 {
            assert(all[1] == args[1]);
            assert(all.skip(2) =~= args.skip(2) + more);
            if args[0] == "-c"@ || args[0] == "--connect"@ {
                law_settled_sink_command_stands(
                    args.skip(2),
                    more,
                    SinkOptsView { connect: args[1], ..opts },
                );
            } else if args[0] == "--write-pcap"@ {
                law_settled_sink_command_stands(
                    args.skip(2),
                    more,
                    SinkOptsView { write_pcap: Some(args[1]), ..opts },
                );
            }
        }
    }
}

/// How long the flags' names are.
proof fn lemma_name_lengths()
    ensures
        "-i"@.len() == 2,
        "--device"@.len() == 8,
        "--input"@.len() == 7,
        "-f"@.len() == 2,
        "--filter"@.len() == 8,
        "-s"@.len() == 2,
        "--snaplen"@.len() == 9,
        "-l"@.len() == 2,
        "--listen"@.len() == 8,
        "--ring"@.len() == 6,
        "--no-promisc"@.len() == 12,
        "--list-devices"@.len() == 14,
        "-h"@.len() == 2,
        "--help"@.len() == 6,
        "-c"@.len() == 2,
        "--connect"@.len() == 9,
        "--write-pcap"@.len() == 12,
        "x"@.len() == 1,
{
    reveal_strlit("-i");
    reveal_strlit("--device");
    reveal_strlit("--input");
    reveal_strlit("-f");
    reveal_strlit("--filter");
    reveal_strlit("-s");
    reveal_strlit("--snaplen");
    reveal_strlit("-l");
    reveal_strlit("--listen");
    reveal_strlit("--ring");
    reveal_strlit("--no-promisc");
    reveal_strlit("--list-devices");
    reveal_strlit("-h");
    reveal_strlit("--help");
    reveal_strlit("-c");
    reveal_strlit("--connect");
    reveal_strlit("--write-pcap");
    reveal_strlit("x");
}

/// What the agent's flags are called. No two names are the same.
proof fn lemma_agent_flag_names()
    ensures
        agent_flag("-i"@) == Some(AgentFlag::Device),
        agent_flag("--device"@) == Some(AgentFlag::Device),
        agent_flag("--input"@) == Some(AgentFlag::Input),
        agent_flag("-f"@) == Some(AgentFlag::Filter),
        agent_flag("--filter"@) == Some(AgentFlag::Filter),
        agent_flag("-s"@) == Some(AgentFlag::Snaplen),
        agent_flag("--snaplen"@) == Some(AgentFlag::Snaplen),
        agent_flag("-l"@) == Some(AgentFlag::Listen),
        agent_flag("--listen"@) == Some(AgentFlag::Listen),
        agent_flag("--ring"@) == Some(AgentFlag::Ring),
        agent_flag("--no-promisc"@) == Some(AgentFlag::NoPromisc),
        agent_flag("--list-devices"@) == Some(AgentFlag::ListDevices),
        agent_flag("-h"@) == Some(AgentFlag::Help),
        agent_flag("--help"@) == Some(AgentFlag::Help),
{
    lemma_name_lengths();
    reveal_strlit("-i");
    reveal_strlit("-f");
    reveal_strlit("-s");
    reveal_strlit("-l");
    reveal_strlit("-h");
    reveal_strlit("--device");
    reveal_strlit("--filter");
    reveal_strlit("--listen");
    reveal_strlit("--ring");
    reveal_strlit("--help");
    assert("-i"@[1] == 'i' && "-f"@[1] == 'f' && "-s"@[1] == 's' && "-l"@[1] == 'l' && "-h"@[1]
        == 'h');
    assert("--device"@[2] == 'd' && "--filter"@[2] == 'f' && "--listen"@[2] == 'l');
    assert("--ring"@[2] == 'r' && "--help"@[2] == 'h');
}

/// Each of the agent's flags that names a text sets its own option to the value
/// behind it, under either of its names, and leaves the others as they were.
pub proof fn law_agent_text_flags_set_their_own_option(
    v: Seq<char>,
    rest: Seq<Seq<char>>,
    opts: OptsView,
)
    ensures
        ({
            let device = agent_command(rest, OptsView { device: Some(v), ..opts });
            let input = agent_command(rest, OptsView { input: Some(v), ..opts });
            let filter = agent_command(rest, OptsView { filter: v, ..opts });
            let listen = agent_command(rest, OptsView { listen: v, ..opts });
            &&& agent_command(seq!["-i"@, v] + rest, opts) == device
            &&& agent_command(seq!["--device"@, v] + rest, opts) == device
            &&& agent_command(seq!["--input"@, v] + rest, opts) == input
            &&& agent_command(seq!["-f"@, v] + rest, opts) == filter
            &&& agent_command(seq!["--filter"@, v] + rest, opts) == filter
            &&& agent_command(seq!["-l"@, v] + rest, opts) == listen
            &&& agent_command(seq!["--listen"@, v] + rest, opts) == listen
        }),
{
    lemma_agent_flag_names();
    lemma_valued_flag("-i"@, v, rest, opts);
    lemma_valued_flag("--device"@, v, rest, opts);
    lemma_valued_flag("--input"@, v, rest, opts);
    lemma_valued_flag("-f"@, v, rest, opts);
    lemma_valued_flag("--filter"@, v, rest, opts);
    lemma_valued_flag("-l"@, v, rest, opts);
    lemma_valued_flag("--listen"@, v, rest, opts);
}

/// The flags that name a number set theirs to that number and leave the others as
/// they were; what is no number, or too large for where it goes, is a fault.
pub proof fn law_agent_number_flags_set_their_own_option(
    v: Seq<char>,
    rest: Seq<Seq<char>>,
    opts: OptsView,
)
    ensures
        ({
            let snaplen = match number(v, 0xffff_ffff) {
                Ok(n) => agent_command(rest, OptsView { snaplen: n as u32, ..opts }),
                Err(e) => Err(UsageErrorView::BadNumber(e)),
            };
            let ring = match number(v, usize::MAX as nat) {
                Ok(n) => agent_command(rest, OptsView { ring: n as usize, ..opts }),
                Err(e) => Err(UsageErrorView::BadNumber(e)),
            };
            &&& agent_command(seq!["-s"@, v] + rest, opts) == snaplen
            &&& agent_command(seq!["--snaplen"@, v] + rest, opts) == snaplen
            &&& agent_command(seq!["--ring"@, v] + rest, opts) == ring
        }),
{
    lemma_agent_flag_names();
    lemma_valued_flag("-s"@, v, rest, opts);
    lemma_valued_flag("--snaplen"@, v, rest, opts);
    lemma_valued_flag("--ring"@, v, rest, opts);
}

/// The flags without a value: one turns promiscuous mode off and leaves the rest
/// as it was, the others decide at once.
pub proof fn law_agent_plain_flags(rest: Seq<Seq<char>>, opts: OptsView)
    ensures
        agent_command(seq!["--no-promisc"@] + rest, opts) == agent_command(
            rest,
            OptsView { promisc: false, ..opts },
        ),
        agent_command(seq!["--list-devices"@] + rest, opts) == Ok::<
            AgentCommandView,
            UsageErrorView,
        >(AgentCommandView::ListDevices),
        agent_command(seq!["-h"@] + rest, opts) == Ok::<AgentCommandView, UsageErrorView>(
            AgentCommandView::Help,
        ),
        agent_command(seq!["--help"@] + rest, opts) == Ok::<AgentCommandView, UsageErrorView>(
            AgentCommandView::Help,
        ),
{
    lemma_agent_flag_names();
    assert((seq!["--no-promisc"@] + rest)[0] == "--no-promisc"@);
    assert((seq!["--no-promisc"@] + rest).skip(1) =~= rest);
    assert((seq!["--list-devices"@] + rest)[0] == "--list-devices"@);
    assert((seq!["-h"@] + rest)[0] == "-h"@);
    assert((seq!["--help"@] + rest)[0] == "--help"@);
}

/// Whether a flag of the agent that needs a value is called `a`.
pub open spec fn agent_flag_needs_value(a: Seq<char>) -> bool {
    ||| a == "-i"@ || a == "--device"@ || a == "--input"@
    ||| a == "-f"@ || a == "--filter"@
    ||| a == "-s"@ || a == "--snaplen"@
    ||| a == "-l"@ || a == "--listen"@
    ||| a == "--ring"@
}

/// Where the agent's command line goes wrong or ends: a flag without the value
/// that it needs is told by the name that it was given under, an argument that no
/// flag is called by is told as it is, and at the end exactly one of a device and
/// a file must have been named.
pub proof fn law_agent_command_line_ends(a: Seq<char>, rest: Seq<Seq<char>>, opts: OptsView)
    ensures
        agent_flag_needs_value(a) ==> agent_command(seq![a], opts) == Err::<
            AgentCommandView,
            UsageErrorView,
        >(UsageErrorView::MissingValue(a)),
        !agent_flag_needs_value(a) && a != "--no-promisc"@ && a != "--list-devices"@ && a
            != "--help"@ && a != "-h"@ ==> agent_command(seq![a] + rest, opts) == Err::<
            AgentCommandView,
            UsageErrorView,
        >(UsageErrorView::UnknownArgument(a)),
        opts.device is Some && opts.input is None || opts.device is None && opts.input is Some
            ==> agent_command(Seq::empty(), opts) == Ok::<AgentCommandView, UsageErrorView>(
            AgentCommandView::Run(opts),
        ),
        opts.device is Some && opts.input is Some || opts.device is None && opts.input is None
            ==> agent_command(Seq::empty(), opts) == Err::<AgentCommandView, UsageErrorView>(
            UsageErrorView::SourceChoice,
        ),
{
    lemma_agent_flag_names();
    assert(seq![a][0] == a);
    assert((seq![a] + rest)[0] == a);
}

/// An agent that is told no more than its source has these options.
pub proof fn law_agent_defaults(source: Seq<char>)
    ensures
        agent_command(seq!["-i"@, source], OptsView::default()) == Ok::<
            AgentCommandView,
            UsageErrorView,
        >(
            AgentCommandView::Run(
                OptsView {
                    device: Some(source),
                    input: None,
                    filter: Seq::empty(),
                    snaplen: 65535,
                    listen: "0.0.0.0:9099"@,
                    ring: 8192,
                    promisc: true,
                },
            ),
        ),
        agent_command(seq!["--input"@, source], OptsView::default()) == Ok::<
            AgentCommandView,
            UsageErrorView,
        >(
            AgentCommandView::Run(
                OptsView {
                    device: None,
                    input: Some(source),
                    filter: Seq::empty(),
                    snaplen: 65535,
                    listen: "0.0.0.0:9099"@,
                    ring: 8192,
                    promisc: true,
                },
            ),
        ),
{
    let none = Seq::<Seq<char>>::empty();
    law_agent_text_flags_set_their_own_option(source, none, OptsView::default());
    assert(seq!["-i"@, source] + none =~= seq!["-i"@, source]);
    assert(seq!["--input"@, source] + none =~= seq!["--input"@, source]);
}

/// What is not settled can still change: an argument that is no flag makes another
/// command line of it.
pub proof fn law_unsettled_agent_command_can_change(args: Seq<Seq<char>>, opts: OptsView)
    requires
        match agent_command(args, opts) {
            Ok(c) => !c.settled(),
            Err(e) => !e.settled(),
        },
    ensures
        agent_command(args.push("x"@), opts) != agent_command(args, opts),
    decreases args.len(),
{
    let all = args.push("x"@);
    if args.len() == 0 {
        lemma_x_is_no_flag();
        assert(all[0] == "x"@);
    } else {
        assert(all[0] == args[0]);
        match agent_flag(args[0]) {
            Some(AgentFlag::NoPromisc) => {
                assert(all.skip(1) =~= args.skip(1).push("x"@));
                law_unsettled_agent_command_can_change(
                    args.skip(1),
                    OptsView { promisc: false, ..opts },
                );
            },
            Some(flag) => {
                if flag.takes_value() && args.len() >= 2 {
                    assert(all[1] == args[1]);
                    if let Ok(changed) = opts.with_value(flag, args[1]) {
                        assert(all.skip(2) =~= args.skip(2).push("x"@));
                        law_unsettled_agent_command_can_change(args.skip(2), changed);
                    }
                } else if flag.takes_value() {
                    assert(all.skip(2) =~= Seq::<Seq<char>>::empty());
                    if let Ok(changed) = opts.with_value(flag, "x"@) {
                        assert(agent_command(all, opts) == agent_command(all.skip(2), changed));
                    }
                }
            },
            None => {},
        }
    }
}

proof fn lemma_x_is_no_flag()
    ensures
        agent_flag("x"@) is None,
        "x"@ != "-c"@,
        "x"@ != "--connect"@,
        "x"@ != "--write-pcap"@,
        "x"@ != "-h"@,
        "x"@ != "--help"@,
{
    lemma_name_lengths();
}

/// The value behind the last flag that is called `name` or `other`, where flags and
/// values alternate.
pub open spec fn last_value(
    args: Seq<Seq<char>>,
    name: Seq<char>,
    other: Seq<char>,
) -> Option<Seq<char>>
    decreases args.len(),
{
    if args.len() < 2 {
        None
    } else if args[args.len() - 2] == name || args[args.len() - 2] == other {
        Some(args[args.len() - 1])
    } else {
        last_value(args.take(args.len() - 2), name, other)
    }
}

proof fn lemma_last_value_front(args: Seq<Seq<char>>, name: Seq<char>, other: Seq<char>)
    requires
        args.len() >= 2,
        args.len() % 2 == 0,
    ensures
        last_value(args, name, other) == match last_value(args.skip(2), name, other) {
            Some(v) => Some(v),
            None => if args[0] == name || args[0] == other {
                Some(args[1])
            } else {
                None
            },
        },
    decreases args.len(),
{
    let rest = args.skip(2);
    if args.len() > 2 {
        let front = args.take(args.len() - 2);
        assert(rest[rest.len() - 2] == args[args.len() - 2]);
        assert(rest[rest.len() - 1] == args[args.len() - 1]);
        assert(rest.take(rest.len() - 2) =~= front.skip(2));
        assert(front[0] == args[0] && front[1] == args[1]);
        lemma_last_value_front(front, name, other);
    } else {
        assert(args.take(0) =~= Seq::<Seq<char>>::empty());
        assert(last_value(args.take(0), name, other) is None);
    }
}

/// Whether a flag of the sink that needs a value is called `a`.
pub open spec fn sink_flag_needs_value(a: Seq<char>) -> bool {
    a == "-c"@ || a == "--connect"@ || a == "--write-pcap"@
}

proof fn lemma_sink_flag_names()
    ensures
        "--write-pcap"@ != "-c"@,
        "--write-pcap"@ != "--connect"@,
        "-h"@ != "-c"@,
        "-h"@ != "--connect"@,
        "-h"@ != "--write-pcap"@,
        "--help"@ != "-c"@,
        "--help"@ != "--connect"@,
        "--help"@ != "--write-pcap"@,
{
    lemma_name_lengths();
    reveal_strlit("-c");
    reveal_strlit("-h");
    assert("-c"@[1] == 'c' && "-h"@[1] == 'h');
}

/// A sink runs exactly if its arguments are flags with a value each, and then every
/// option is the value of the last flag for it, or as it was where there is none.
pub proof fn law_sink_options_are_their_last_values(args: Seq<Seq<char>>, opts: SinkOptsView)
    ensures
        sink_command(args, opts) matches Ok(SinkCommandView::Run(o)) ==> {
            &&& o.connect == match last_value(args, "-c"@, "--connect"@) {
                Some(v) => v,
                None => opts.connect,
            }
            &&& o.write_pcap == match last_value(args, "--write-pcap"@, "--write-pcap"@) {
                Some(v) => Some(v),
                None => opts.write_pcap,
            }
        },
        (sink_command(args, opts) matches Ok(SinkCommandView::Run(_))) <==> args.len() % 2 == 0
            && forall|i: int|
            0 <= i < args.len() && i % 2 == 0 ==> sink_flag_needs_value(#[trigger] args[i]),
    decreases args.len(),
{
    lemma_sink_flag_names();
    if args.len() >= 2 {
        let rest = args.skip(2);
        let flags = |s: Seq<Seq<char>>|
            forall|i: int| 0 <= i < s.len() && i % 2 == 0 ==> sink_flag_needs_value(#[trigger] s[i]);
        assert(flags(args) <==> sink_flag_needs_value(args[0]) && flags(rest)) by {
            if flags(args) {
                assert forall|i: int| 0 <= i < rest.len() && i % 2 == 0 implies sink_flag_needs_value(
                    #[trigger] rest[i],
                ) by {
                    assert(rest[i] == args[i + 2]);
                }
            }
            if sink_flag_needs_value(args[0]) && flags(rest) {
                assert forall|i: int| 0 <= i < args.len() && i % 2 == 0 implies sink_flag_needs_value(
                    #[trigger] args[i],
                ) by {
                    if i >= 2 {
                        assert(args[i] == rest[i - 2]);
                    }
                }
            }
        }
        if args[0] == "-c"@ || args[0] == "--connect"@ {
            law_sink_options_are_their_last_values(
                rest,
                SinkOptsView { connect: args[1], ..opts },
            );
        } else if args[0] == "--write-pcap"@ {
            law_sink_options_are_their_last_values(
                rest,
                SinkOptsView { write_pcap: Some(args[1]), ..opts },
            );
        }
        if args.len() % 2 == 0 {
            lemma_last_value_front(args, "-c"@, "--connect"@);
            lemma_last_value_front(args, "--write-pcap"@, "--write-pcap"@);
        }
    } else if args.len() == 1 {
        assert(args.len() % 2 == 1);
    }
}

/// A sink that is told nothing dials the local host and writes no file.
pub proof fn law_sink_defaults()
    ensures
        SinkOptsView::default().connect == "127.0.0.1:9099"@,
        SinkOptsView::default().write_pcap is None,
{
}

/// The order of the sink's two flags does not matter.
pub proof fn law_sink_flags_may_be_swapped(
    addr: Seq<char>,
    file: Seq<char>,
    rest: Seq<Seq<char>>,
    opts: SinkOptsView,
)
    ensures
        ({
            let both = sink_command(rest, SinkOptsView { connect: addr, write_pcap: Some(file) });
            &&& sink_command(seq!["--connect"@, addr, "--write-pcap"@, file] + rest, opts) == both
            &&& sink_command(seq!["--write-pcap"@, file, "--connect"@, addr] + rest, opts) == both
            &&& sink_command(seq!["-c"@, addr, "--write-pcap"@, file] + rest, opts) == both
            &&& sink_command(seq!["--write-pcap"@, file, "-c"@, addr] + rest, opts) == both
        }),
{
    lemma_sink_flag_names();
    lemma_two_sink_flags("--connect"@, addr, "--write-pcap"@, file, rest, opts);
    lemma_two_sink_flags("--write-pcap"@, file, "--connect"@, addr, rest, opts);
    lemma_two_sink_flags("-c"@, addr, "--write-pcap"@, file, rest, opts);
    lemma_two_sink_flags("--write-pcap"@, file, "-c"@, addr, rest, opts);
}

/// The options after one of the sink's flags.
spec fn sink_flag_set(opts: SinkOptsView, flag: Seq<char>, value: Seq<char>) -> SinkOptsView {
    if flag == "--write-pcap"@ {
        SinkOptsView { write_pcap: Some(value), ..opts }
    } else {
        SinkOptsView { connect: value, ..opts }
    }
}

proof fn lemma_two_sink_flags(
    a: Seq<char>,
    v: Seq<char>,
    b: Seq<char>,
    w: Seq<char>,
    rest: Seq<Seq<char>>,
    opts: SinkOptsView,
)
    requires
        sink_flag_needs_value(a),
        sink_flag_needs_value(b),
    ensures
        sink_command(seq![a, v, b, w] + rest, opts) == sink_command(
            rest,
            sink_flag_set(sink_flag_set(opts, a, v), b, w),
        ),
{
    lemma_sink_flag_names();
    let all = seq![a, v, b, w] + rest;
    let later = seq![b, w] + rest;
    assert(all[0] == a && all[1] == v);
    assert(all.skip(2) =~= later);
    assert(sink_command(all, opts) == sink_command(later, sink_flag_set(opts, a, v)));
    assert(later[0] == b && later[1] == w);
    assert(later.skip(2) =~= rest);
}

/// The first argument in a flag's place that is no flag with a value decides: help
/// is given, a flag's missing value is told by the flag's long name, and anything
/// else is told as it is.
pub proof fn law_sink_first_other_argument_decides(
    args: Seq<Seq<char>>,
    at: int,
    opts: SinkOptsView,
)
    requires
        0 <= at < args.len(),
        at % 2 == 0,
        forall|i: int| 0 <= i < at && i % 2 == 0 ==> sink_flag_needs_value(#[trigger] args[i]),
        sink_flag_needs_value(args[at]) ==> at == args.len() - 1,
    ensures
        ({
            let a = args[at];
            sink_command(args, opts) == if a == "-h"@ || a == "--help"@ {
                Ok::<SinkCommandView, UsageErrorView>(SinkCommandView::Help)
            } else if a == "-c"@ || a == "--connect"@ {
                Err(UsageErrorView::MissingValue("--connect"@))
            } else if a == "--write-pcap"@ {
                Err(UsageErrorView::MissingValue("--write-pcap"@))
            } else {
                Err(UsageErrorView::UnknownArgument(a))
            }
        }),
    decreases args.len(),
{
    lemma_sink_flag_names();
    if at > 0 {
        let rest = args.skip(2);
        assert(sink_flag_needs_value(args[0]));
        assert(rest[at - 2] == args[at]);
        assert forall|i: int| 0 <= i < at - 2 && i % 2 == 0 implies sink_flag_needs_value(
            #[trigger] rest[i],
        ) by {
            assert(rest[i] == args[i + 2]);
        }
        if args[0] == "--write-pcap"@ {
            law_sink_first_other_argument_decides(
                rest,
                at - 2,
                SinkOptsView { write_pcap: Some(args[1]), ..opts },
            );
        } else {
            law_sink_first_other_argument_decides(
                rest,
                at - 2,
                SinkOptsView { connect: args[1], ..opts },
            );
        }
    }
}

/// What is not settled can still change: an argument that is no flag makes another
/// command line of it.
pub proof fn law_unsettled_sink_command_can_change(args: Seq<Seq<char>>, opts: SinkOptsView)
    requires
        match sink_command(args, opts) {
            Ok(c) => !c.settled(),
            Err(e) => !e.settled(),
        },
    ensures
        sink_command(args.push("x"@), opts) != sink_command(args, opts),
    decreases args.len(),
{
    let all = args.push("x"@);
    lemma_x_is_no_flag();
    if args.len() == 0 {
        assert(all[0] == "x"@);
    } else {
        assert(all[0] == args[0]);
        if args.len() >= 2 {
            assert(all[1] == args[1]);
            assert(all.skip(2) =~= args.skip(2).push("x"@));
            if args[0] == "-c"@ || args[0] == "--connect"@ {
                law_unsettled_sink_command_can_change(
                    args.skip(2),
                    SinkOptsView { connect: args[1], ..opts },
                );
            } else if args[0] == "--write-pcap"@ {
                law_unsettled_sink_command_can_change(
                    args.skip(2),
                    SinkOptsView { write_pcap: Some(args[1]), ..opts },
                );
            }
        } else {
            let none = Seq::<Seq<char>>::empty();
            assert(all[1] == "x"@);
            assert(all.skip(2) =~= none);
            assert(sink_command(none, SinkOptsView { connect: "x"@, ..opts }) is Ok);
            assert(sink_command(none, SinkOptsView { write_pcap: Some("x"@), ..opts }) is Ok);
        }
    }
}

/// The faults of a command line in words: an unknown argument stands at the end of
/// its fault, a flag at the beginning of that of its missing value.
pub proof fn law_usage_errors_in_words(a: Seq<char>, e: NumberError)
    ensures
        UsageErrorView::UnknownArgument(a).text() == "unknown argument: "@ + a,
        UsageErrorView::MissingValue(a).text() == a + " needs a value"@,
        UsageErrorView::BadNumber(e).text() == e.text(),
        UsageErrorView::SourceChoice.text()
            == "specify exactly one of --device <name> or --input <file.pcap>"@,
{
}

/// A command line that runs can be gone on with: what follows counts onto the
/// options that it came to. So a flag at the end overrides what came before, and
/// nothing else of it.
pub proof fn law_agent_command_lines_join(
    args: Seq<Seq<char>>,
    more: Seq<Seq<char>>,
    opts: OptsView,
    v: Seq<char>,
)
    requires
        agent_command(args, opts) matches Ok(AgentCommandView::Run(_)),
    ensures
        ({
            let o = agent_command(args, opts)->Ok_0->Run_0;
            &&& agent_command(args + more, opts) == agent_command(more, o)
            &&& agent_command(args + seq!["-f"@, v], opts) == Ok::<AgentCommandView, UsageErrorView>(
                AgentCommandView::Run(OptsView { filter: v, ..o }),
            )
            &&& agent_command(args + seq!["-l"@, v], opts) == Ok::<AgentCommandView, UsageErrorView>(
                AgentCommandView::Run(OptsView { listen: v, ..o }),
            )
            &&& agent_command(args + seq!["--no-promisc"@], opts) == Ok::<
                AgentCommandView,
                UsageErrorView,
            >(AgentCommandView::Run(OptsView { promisc: false, ..o }))
        }),
{
    let o = agent_command(args, opts)->Ok_0->Run_0;
    let none = Seq::<Seq<char>>::empty();
    law_running_agent_has_one_source(args, opts);
    lemma_agent_reads_on(args, more, opts);
    lemma_agent_reads_on(args, seq!["-f"@, v], opts);
    lemma_agent_reads_on(args, seq!["-l"@, v], opts);
    lemma_agent_reads_on(args, seq!["--no-promisc"@], opts);
    law_agent_text_flags_set_their_own_option(v, none, o);
    law_agent_plain_flags(none, o);
    assert(seq!["-f"@, v] + none =~= seq!["-f"@, v]);
    assert(seq!["-l"@, v] + none =~= seq!["-l"@, v]);
    assert(seq!["--no-promisc"@] + none =~= seq!["--no-promisc"@]);
}

proof fn lemma_agent_reads_on(args: Seq<Seq<char>>, more: Seq<Seq<char>>, opts: OptsView)
    requires
        agent_command(args, opts) matches Ok(AgentCommandView::Run(_)),
    ensures
        agent_command(args + more, opts) == agent_command(
            more,
            agent_command(args, opts)->Ok_0->Run_0,
        ),
    decreases args.len(),
{
    let all = args + more;
    if args.len() == 0 {
        assert(all =~= more);
    } else {
        assert(all[0] == args[0]);
        match agent_flag(args[0]) {
            Some(AgentFlag::NoPromisc) => {
                assert(all.skip(1) =~= args.skip(1) + more);
                lemma_agent_reads_on(args.skip(1), more, OptsView { promisc: false, ..opts });
            },
            Some(flag) => {
                if flag.takes_value() && args.len() >= 2 {
                    assert(all[1] == args[1]);
                    if let Ok(changed) = opts.with_value(flag, args[1]) {
                        assert(all.skip(2) =~= args.skip(2) + more);
                        lemma_agent_reads_on(args.skip(2), more, changed);
                    }
                }
            },
            None => {},
        }
    }
}

} // verus!
