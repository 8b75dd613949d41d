//! How one session with a client is set up.

use vstd::prelude::*;
use vstd::string::*;

use crate::cli::{Opts, OptsView};
use crate::le::{i32_from_bits, i32_of_bits};
use crate::proto::{
    client_hello_reading, filter_fits, hello_reading, ClientHello, ClientHelloView, Hello,
    HelloView,
};
use crate::proto_laws::{
    law_client_hello_reads_back, law_client_hello_wanted, law_client_hello_writes_back,
    law_hello_reads_back,
};

verus! {

/// The filter that the received bytes ask for: that of a well-formed
/// `ClientHello`, else the default one.
pub open spec fn requested_filter(received: Seq<u8>, default: Seq<char>) -> Seq<char> {
    match client_hello_reading(received).0 {
        Ok(h) => h.filter,
        Err(_) => default,
    }
}

/// Picks the filter of the client's `ClientHello` out of what was received
/// before the time was up. Where that is no such message, or not all of one,
/// the default stands.
pub fn read_client_hello(received: &[u8], default: &str) -> (filter: String)
    ensures
        filter@ == requested_filter(received@, default@),
{
    let mut r: &[u8] = received;
    match ClientHello::read_from(&mut r) {
        Ok(h) => h.filter,
        Err(_) => default.to_owned(),
    }
}

/// What a session is to do.
pub struct SessionPlan {
    /// The BPF filter; empty for none.
    pub filter: String,
    pub snaplen: u32,
    /// How many frames can wait.
    pub ring: usize,
    /// Whether frames may not be dropped.
    pub lossless: bool,
}

/// The same, as plain values.
pub struct SessionPlanView {
    pub filter: Seq<char>,
    pub snaplen: u32,
    pub ring: usize,
    pub lossless: bool,
}

impl View for SessionPlan {
    type V = SessionPlanView;

    open spec fn view(&self) -> SessionPlanView {
        SessionPlanView {
            filter: self.filter@,
            snaplen: self.snaplen,
            ring: self.ring,
            lossless: self.lossless,
        }
    }
}

impl SessionPlanView {
    /// The session of an agent with the options `opts`, whose client sent
    /// `received` in time. A file is replayed without loss and with the agent's
    /// own filter, whatever the client asks for; from a device is captured what
    /// the client asks for.
    pub open spec fn of(opts: OptsView, received: Seq<u8>) -> SessionPlanView {
        SessionPlanView {
            filter: if opts.input is Some {
                opts.filter
            } else {
                requested_filter(received, opts.filter)
            },
            snaplen: opts.snaplen,
            ring: opts.ring,
            lossless: opts.input is Some,
        }
    }

    /// The filter to give to the capture, if any.
    pub open spec fn bpf(self) -> Option<Seq<char>> {
        if self.filter.len() == 0 {
            None
        } else {
            Some(self.filter)
        }
    }

    /// What the agent tells its client.
    pub open spec fn hello(self, link_type: i32) -> HelloView {
        HelloView { link_type, snaplen: self.snaplen, filter: self.filter }
    }
}

impl SessionPlan {
    /// Plans a session for a client that sent `received` in time.
    pub fn new(opts: &Opts, received: &[u8]) -> (plan: SessionPlan)
        ensures
            plan@ == SessionPlanView::of(opts@, received@),
            plan.ring == opts.ring,
            plan.snaplen == opts.snaplen,
            plan.lossless == opts.input is Some,
            opts.input is Some ==> plan.filter@ == opts.filter@,
    {
        let replay: bool = opts.input.is_some();
        let filter: String = if replay {
            opts.filter.clone()
        } else {
            read_client_hello(received, opts.filter.as_str())
        };
        SessionPlan { filter, snaplen: opts.snaplen, ring: opts.ring, lossless: replay }
    }

    /// The filter to give to the capture, if any.
    pub fn bpf(&self) -> (f: Option<&str>)
        ensures
            match f {
                Some(t) => self@.bpf() == Some(t@),
                None => self@.bpf() is None,
            },
            f is None <==> self.filter@.len() == 0,
            f matches Some(t) ==> t@ == self.filter@,
    {
        if self.filter.as_str().is_empty() {
            None
        } else {
            Some(self.filter.as_str())
        }
    }

    /// The filter for people to read.
    pub fn filter_label(&self) -> (label: &str)
        ensures
            label@ == match self@.bpf() {
                Some(f) => f,
                None => "<none>"@,
            },
            self.filter@.len() > 0 ==> label@ == self.filter@,
    {
        match self.bpf() {
            Some(f) => f,
            None => "<none>",
        }
    }

    /// The snapshot length as the signed number that the capture wants: lengths
    /// that no such number can hold wrap around to the negative ones.
    pub fn capture_snaplen(&self) -> (n: i32)
        ensures
            n == i32_of_bits(self.snaplen as nat),
            n == self.snaplen || n == self.snaplen - 0x1_0000_0000,
    {
        i32_from_bits(self.snaplen)
    }

    /// What the agent tells its client.
    pub fn hello(&self, link_type: i32) -> (h: Hello)
        ensures
            h@ == self@.hello(link_type),
            h.link_type == link_type,
            h.snaplen == self.snaplen,
            h.filter@ == self.filter@,
    {
        Hello { link_type, snaplen: self.snaplen, filter: self.filter.clone() }
    }
}

/// A replay is the same whatever the client asks for.
pub proof fn law_replay_ignores_the_client(opts: OptsView, received: Seq<u8>, other: Seq<u8>)
    requires
        opts.input is Some,
    ensures
        SessionPlanView::of(opts, received) == SessionPlanView::of(opts, other),
        SessionPlanView::of(opts, received).lossless,
{
}

/// The filter that an agent tells its client is the one that it captures with.
pub proof fn law_hello_tells_the_filter_applied(plan: SessionPlanView, link_type: i32)
    ensures
        plan.hello(link_type).filter == match plan.bpf() {
            Some(f) => f,
            None => Seq::<char>::empty(),
        },
{
    if plan.filter.len() == 0 {
        assert(plan.filter =~= Seq::<char>::empty());
    }
}

/// A client that asks for a filter has it captured with and is told so, whatever
/// else it sends.
pub proof fn law_client_gets_its_filter(
    opts: OptsView,
    asked: ClientHelloView,
    tail: Seq<u8>,
    link_type: i32,
)
    requires
        opts.input is None,
        filter_fits(asked.filter),
    ensures
        SessionPlanView::of(opts, asked.encoding() + tail).filter == asked.filter,
        SessionPlanView::of(opts, asked.encoding() + tail).hello(link_type).filter == asked.filter,
{
    law_client_hello_reads_back(asked, tail);
}

/// Where not all of a `ClientHello` arrives in time, the agent's own filter
/// stands.
pub proof fn law_cut_client_hello_falls_back(opts: OptsView, asked: ClientHelloView, n: nat)
    requires
        filter_fits(asked.filter),
        n < asked.encoding().len(),
    ensures
        SessionPlanView::of(opts, asked.encoding().take(n as int)).filter == opts.filter,
{
    let whole = asked.encoding();
    let got = whole.take(n as int);
    assert(got + whole.skip(n as int) =~= whole);
    assert(whole + Seq::<u8>::empty() =~= whole);
    law_client_hello_reads_back(asked, Seq::empty());
    law_client_hello_wanted(got, whole.skip(n as int));
    law_client_hello_writes_back(got);
}

/// Of its options an agent takes over, from a device as from a file and whatever
/// the client sends, the snapshot length and how many frames can wait; and a
/// session is lossless exactly if it replays a file.
pub proof fn law_plan_follows_the_options(opts: OptsView, received: Seq<u8>)
    ensures
        SessionPlanView::of(opts, received).ring == opts.ring,
        SessionPlanView::of(opts, received).snaplen == opts.snaplen,
        SessionPlanView::of(opts, received).lossless <==> opts.input is Some,
{
}

/// Replay or live, what is captured with is the plan's filter, and no filter only
/// where that is empty; two plans capture with the same only if their filters are
/// the same.
pub proof fn law_capture_uses_the_plans_filter(plan: SessionPlanView, other: SessionPlanView)
    ensures
        plan.filter.len() > 0 ==> plan.bpf() == Some(plan.filter),
        plan.filter.len() == 0 <==> plan.bpf() is None,
        plan.bpf() == other.bpf() <==> plan.filter == other.filter,
{
    if plan.filter.len() == 0 && other.filter.len() == 0 {
        assert(plan.filter =~= other.filter);
    }
}

/// A replay is narrowed by the agent's own filter, and its client is told so.
pub proof fn law_replay_is_narrowed_by_the_agents_filter(
    opts: OptsView,
    received: Seq<u8>,
    link_type: i32,
)
    requires
        opts.input is Some,
    ensures
        ({
            let plan = SessionPlanView::of(opts, received);
            &&& opts.filter.len() > 0 ==> plan.bpf() == Some(opts.filter)
            &&& opts.filter.len() == 0 ==> plan.bpf() is None
            &&& plan.hello(link_type).filter == opts.filter
        }),
{
}

/// A client of a live device has what it asks for captured, and the agent's own
/// filter where it asks for nothing that can be understood.
pub proof fn law_live_capture_follows_the_client(opts: OptsView, received: Seq<u8>)
    requires
        opts.input is None,
    ensures
        ({
            let plan = SessionPlanView::of(opts, received);
            let wanted = match client_hello_reading(received).0 {
                Ok(h) => h.filter,
                Err(_) => opts.filter,
            };
            &&& plan.filter == wanted
            &&& plan.bpf() == if wanted.len() > 0 {
                Some(wanted)
            } else {
                None
            }
        }),
{
}

/// The `Hello` tells what is captured: the capture's own link type, the plan's
/// snapshot length and its filter. A client that reads it off the stream learns
/// just these, whatever follows.
pub proof fn law_hello_tells_what_is_captured(
    plan: SessionPlanView,
    link_type: i32,
    tail: Seq<u8>,
)
    ensures
        plan.hello(link_type).link_type == link_type,
        plan.hello(link_type).snaplen == plan.snaplen,
        plan.hello(link_type).filter == plan.filter,
        filter_fits(plan.filter) ==> (hello_reading(plan.hello(link_type).encoding() + tail).0
            matches Ok(h) && h.link_type == link_type && h.snaplen == plan.snaplen && h.filter
            == plan.filter),
{
    if filter_fits(plan.filter) {
        law_hello_reads_back(plan.hello(link_type), tail);
    }
}

} // verus!
