//! What the front end shows of a result, and the decisions of its server,
//! test and latency monitor controls.
use vstd::prelude::*;
use crate::model::{RawPing, ping_lost};
use crate::plot::{Leg, LossSide, leg_of, leg_value, loss_mark, loss_side};
use crate::reduce::{Rate, rate_ready, rates, to_rates};

verus! {

/// The chosen latency of each ping sent at or after `start`, as
/// `(sent - start, latency)`.
pub open spec fn leg_points(pings: Seq<RawPing>, start: u64, leg: Leg) -> Seq<(u64, u64)>
    decreases pings.len(),
{
    if pings.len() == 0 {
        Seq::empty()
    } else {
        let rest = leg_points(pings.drop_last(), start, leg);
        let p = pings.last();
        if p.sent >= start && leg_value(p, leg) is Some {
            rest.push(((p.sent - start) as u64, leg_value(p, leg)->0))
        } else {
            rest
        }
    }
}

/// Each lost ping sent at or after `start`, as `(sent - start, side)`.
pub open spec fn loss_points(pings: Seq<RawPing>, start: u64, version: u64) -> Seq<
    (u64, LossSide),
>
    decreases pings.len(),
{
    if pings.len() == 0 {
        Seq::empty()
    } else {
        let rest = loss_points(pings.drop_last(), start, version);
        let p = pings.last();
        if p.sent >= start && loss_side(version, p) is Some {
            rest.push(((p.sent - start) as u64, loss_side(version, p)->0))
        } else {
            rest
        }
    }
}

/// The number of pings sent at or after `start`.
pub open spec fn count_since(pings: Seq<RawPing>, start: u64) -> int
    decreases pings.len(),
{
    if pings.len() == 0 {
        0
    } else {
        count_since(pings.drop_last(), start) + if pings.last().sent >= start {
            1int
        } else {
            0
        }
    }
}

pub fn points_of(pings: &[RawPing], start: u64, leg: Leg) -> (r: Vec<(u64, u64)>)
    ensures
        r@ == leg_points(pings@, start, leg),
{
    let mut r: Vec<(u64, u64)> = Vec::new();
    let mut i: usize = 0;
    while i < pings.len()
        invariant
            i <= pings@.len(),
            r@ == leg_points(pings@.subrange(0, i as int), start, leg),
        decreases pings@.len() - i,
    {
        let ghost next = pings@.subrange(0, i + 1);
        assert(next.drop_last() =~= pings@.subrange(0, i as int));
        assert(next.last() == pings@[i as int]);
        let p = &pings[i];
        if p.sent >= start {
            match leg_of(p, leg) {
                Some(v) => r.push((p.sent - start, v)),
                None => {},
            }
        }
        i = i + 1;
    }
    assert(pings@.subrange(0, i as int) =~= pings@);
    r
}

pub fn losses_of(pings: &[RawPing], start: u64, version: u64) -> (r: Vec<(u64, LossSide)>)
    ensures
        r@ == loss_points(pings@, start, version),
{
    let mut r: Vec<(u64, LossSide)> = Vec::new();
    let mut i: usize = 0;
    while i < pings.len()
        invariant
            i <= pings@.len(),
            r@ == loss_points(pings@.subrange(0, i as int), start, version),
        decreases pings@.len() - i,
    {
        let ghost next = pings@.subrange(0, i + 1);
        assert(next.drop_last() =~= pings@.subrange(0, i as int));
        assert(next.last() == pings@[i as int]);
        let p = &pings[i];
        if p.sent >= start {
            match loss_mark(version, p) {
                Some(side) => r.push((p.sent - start, side)),
                None => {},
            }
        }
        i = i + 1;
    }
    assert(pings@.subrange(0, i as int) =~= pings@);
    r
}

/// Where every ping was lost, there is no round-trip latency to draw and the
/// loss strip marks every ping.
pub proof fn lemma_all_lost(pings: Seq<RawPing>, start: u64, version: u64)
    requires
        forall|i: int| 0 <= i < pings.len() ==> ping_lost(#[trigger] pings[i]),
    ensures
        leg_points(pings, start, Leg::Total).len() == 0,
        loss_points(pings, start, version).len() == count_since(pings, start),
    decreases pings.len(),
{
    if pings.len() > 0 {
        let rest = pings.drop_last();
        assert forall|i: int| 0 <= i < rest.len() implies ping_lost(#[trigger] rest[i]) by {
            assert(rest[i] == pings[i]);
        }
        lemma_all_lost(rest, start, version);
        assert(ping_lost(pings[pings.len() - 1]));
    }
}

/// A result as the front end draws it: rates per direction, latencies and
/// losses from the start of the test on. Times are microseconds; those of
/// the latency and loss points count from the start of the test.
pub struct TestResult {
    pub result: crate::plot::TestResult,
    pub download: Vec<Rate>,
    pub upload: Vec<Rate>,
    pub both: Vec<Rate>,
    pub latency: Vec<(u64, u64)>,
    pub up_latency: Vec<(u64, u64)>,
    pub down_latency: Vec<(u64, u64)>,
    pub loss: Vec<(u64, LossSide)>,
}

/// What the front end needs of a reduced result: series that rates can be
/// taken of.
pub open spec fn showable(t: crate::plot::TestResult) -> bool {
    &&& rate_ready(t.combined_download_bytes@)
    &&& rate_ready(t.combined_upload_bytes@)
    &&& t.both_bytes matches Some(b) ==> rate_ready(b@)
}

impl TestResult {
    pub fn new(result: crate::plot::TestResult) -> (t: TestResult)
        requires
            showable(result),
        ensures
            t.result == result,
            t.download@ == rates(result.combined_download_bytes@),
            t.upload@ == rates(result.combined_upload_bytes@),
            t.both@ == match result.both_bytes {
                Some(b) => rates(b@),
                None => Seq::empty(),
            },
            t.latency@ == leg_points(result.pings@, result.start, Leg::Total),
            t.up_latency@ == leg_points(result.pings@, result.start, Leg::Up),
            t.down_latency@ == leg_points(result.pings@, result.start, Leg::Down),
            t.loss@ == loss_points(result.pings@, result.start, result.raw_result.version),
    {
        let download = to_rates(result.combined_download_bytes.as_slice());
        let upload = to_rates(result.combined_upload_bytes.as_slice());
        let both = match &result.both_bytes {
            Some(b) => to_rates(b.as_slice()),
            None => Vec::new(),
        };
        let start = result.start;
        let latency = points_of(result.pings.as_slice(), start, Leg::Total);
        let up_latency = points_of(result.pings.as_slice(), start, Leg::Up);
        let down_latency = points_of(result.pings.as_slice(), start, Leg::Down);
        let loss = losses_of(result.pings.as_slice(), start, result.raw_result.version);
        TestResult { result, download, upload, both, latency, up_latency, down_latency, loss }
    }
}

/// Whether the server control is idle, starting, serving or stopping; a
/// server that stopped on an error keeps its message.
#[derive(Clone, Debug, PartialEq, Eq)]
pub enum ServerState {
    Stopped(Option<String>),
    Starting,
    Stopping,
    Running,
}

pub enum ServerEvent {
    StartPressed,
    /// The server reported whether it could listen.
    Started(Result<(), String>),
    StopPressed,
    /// The server finished stopping.
    Done,
}

#[derive(Clone, Copy, Debug, PartialEq, Eq)]
pub enum ServerAction {
    Nothing,
    Start,
    Stop,
}

pub open spec fn server_step(s: ServerState, e: ServerEvent) -> (ServerState, ServerAction) {
    match (s, e) {
        (ServerState::Stopped(_), ServerEvent::StartPressed) => (
            ServerState::Starting,
            ServerAction::Start,
        ),
        (ServerState::Starting, ServerEvent::Started(Ok(()))) => (
            ServerState::Running,
            ServerAction::Nothing,
        ),
        (ServerState::Starting, ServerEvent::Started(Err(m))) => (
            ServerState::Stopped(Some(m)),
            ServerAction::Nothing,
        ),
        (ServerState::Running, ServerEvent::StopPressed) => (
            ServerState::Stopping,
            ServerAction::Stop,
        ),
        (ServerState::Stopping, ServerEvent::Done) => (
            ServerState::Stopped(None),
            ServerAction::Nothing,
        ),
        (s, _) => (s, ServerAction::Nothing),
    }
}

impl ServerState {
    /// The next state of the server control, and what to do to the server.
    pub fn step(self, e: ServerEvent) -> (r: (ServerState, ServerAction))
        ensures
            r == server_step(self, e),
    {
        match (self, e) {
            (ServerState::Stopped(_), ServerEvent::StartPressed) => (
                ServerState::Starting,
                ServerAction::Start,
            ),
            (ServerState::Starting, ServerEvent::Started(Ok(()))) => (
                ServerState::Running,
                ServerAction::Nothing,
            ),
            (ServerState::Starting, ServerEvent::Started(Err(m))) => (
                ServerState::Stopped(Some(m)),
                ServerAction::Nothing,
            ),
            (ServerState::Running, ServerEvent::StopPressed) => (
                ServerState::Stopping,
                ServerAction::Stop,
            ),
            (ServerState::Stopping, ServerEvent::Done) => (
                ServerState::Stopped(None),
                ServerAction::Nothing,
            ),
            (s, _) => (s, ServerAction::Nothing),
        }
    }
}

/// Whether a test or the latency monitor is idle, running or stopping.
#[derive(Clone, Copy, Debug, PartialEq, Eq)]
pub enum ClientState {
    Stopped,
    Stopping,
    Running,
}

/// How a test or a monitoring session ended.
#[derive(Clone, Debug, PartialEq, Eq)]
pub enum Outcome {
    Completed,
    Failed(String),
    Aborted,
}

pub enum ClientEvent {
    StartPressed,
    StopPressed,
    Finished(Outcome),
}

#[derive(Clone, Debug, PartialEq, Eq)]
pub enum ClientAction {
    Nothing,
    Start,
    /// Send the abort signal.
    Abort,
    /// Show how it ended and let go of the session.
    Report(Outcome),
}

pub open spec fn client_step(s: ClientState, e: ClientEvent) -> (ClientState, ClientAction) {
    match (s, e) {
        (ClientState::Stopped, ClientEvent::StartPressed) => (
            ClientState::Running,
            ClientAction::Start,
        ),
        (ClientState::Running, ClientEvent::StopPressed) => (
            ClientState::Stopping,
            ClientAction::Abort,
        ),
        (ClientState::Running, ClientEvent::Finished(o)) => (
            ClientState::Stopped,
            ClientAction::Report(o),
        ),
        (ClientState::Stopping, ClientEvent::Finished(o)) => (
            ClientState::Stopped,
            ClientAction::Report(o),
        ),
        (s, _) => (s, ClientAction::Nothing),
    }
}

impl ClientState {
    /// The next state of a test or monitor control, and what to do.
    pub fn step(self, e: ClientEvent) -> (r: (ClientState, ClientAction))
        ensures
            r == client_step(self, e),
    {
        match (self, e) {
            (ClientState::Stopped, ClientEvent::StartPressed) => (
                ClientState::Running,
                ClientAction::Start,
            ),
            (ClientState::Running, ClientEvent::StopPressed) => (
                ClientState::Stopping,
                ClientAction::Abort,
            ),
            (ClientState::Running, ClientEvent::Finished(o)) => (
                ClientState::Stopped,
                ClientAction::Report(o),
            ),
            (ClientState::Stopping, ClientEvent::Finished(o)) => (
                ClientState::Stopped,
                ClientAction::Report(o),
            ),
            (s, _) => (s, ClientAction::Nothing),
        }
    }
}

/// The tabs of the front end.
#[derive(Clone, Copy, Debug, PartialEq, Eq)]
pub enum Tab {
    Client,
    Server,
    Latency,
    Result,
}

/// A completed test moves the view from the test controls to its result.
pub fn tab_after(tab: Tab, outcome: &Outcome) -> (r: Tab)
    ensures
        r == (if tab == Tab::Client && *outcome == Outcome::Completed {
            Tab::Result
        } else {
            tab
        }),
{
    match (tab, outcome) {
        (Tab::Client, Outcome::Completed) => Tab::Result,
        _ => tab,
    }
}


} // verus!
