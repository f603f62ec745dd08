//! The latency monitor's shared data: a bounded history of pings, and the
//! series drawn from it.
use vstd::prelude::*;
use std::collections::VecDeque;
use crate::plot::{Leg, LossSide};

verus! {

/// A ping of the latency monitor: sent at `sent`, with the one-way and round
/// trip latencies that have come back so far.
#[derive(Clone, Copy, Debug, PartialEq, Eq)]
pub struct MonitorPoint {
    pub sent: u64,
    pub up: Option<u64>,
    pub total: Option<u64>,
    /// Still waiting for the reply.
    pub pending: bool,
}

/// The chosen latency of a monitor point; the down leg is what the round trip
/// has beyond the up leg.
pub open spec fn monitor_value(p: MonitorPoint, leg: Leg) -> Option<u64> {
    match leg {
        Leg::Up => p.up,
        Leg::Total => p.total,
        Leg::Down => match (p.up, p.total) {
            (Some(u), Some(t)) => Some(if t >= u {
                (t - u) as u64
            } else {
                0
            }),
            _ => None,
        },
    }
}

/// The monitor's points that have the chosen latency, as `(sent, latency)`.
pub open spec fn monitor_points(points: Seq<MonitorPoint>, leg: Leg) -> Seq<(u64, u64)>
    decreases points.len(),
{
    if points.len() == 0 {
        Seq::empty()
    } else {
        let rest = monitor_points(points.drop_last(), leg);
        match monitor_value(points.last(), leg) {
            Some(v) => rest.push((points.last().sent, v)),
            None => rest,
        }
    }
}

/// The monitor's lost pings: answered, without a round trip. The server saw
/// those with an up leg.
pub open spec fn monitor_losses(points: Seq<MonitorPoint>) -> Seq<(u64, LossSide)>
    decreases points.len(),
{
    if points.len() == 0 {
        Seq::empty()
    } else {
        let rest = monitor_losses(points.drop_last());
        let p = points.last();
        if !p.pending && p.total is None {
            rest.push(
                (
                    p.sent,
                    if p.up is Some {
                        LossSide::ClientMissed
                    } else {
                        LossSide::ServerMissed
                    },
                ),
            )
        } else {
            rest
        }
    }
}

pub fn monitor_series(points: &[MonitorPoint], leg: Leg) -> (r: Vec<(u64, u64)>)
    ensures
        r@ == monitor_points(points@, leg),
{
    let mut r: Vec<(u64, u64)> = Vec::new();
    let mut i: usize = 0;
    while i < points.len()
        invariant
            i <= points@.len(),
            r@ == monitor_points(points@.subrange(0, i as int), leg),
        decreases points@.len() - i,
    {
        let ghost next = points@.subrange(0, i + 1);
        assert(next.drop_last() =~= points@.subrange(0, i as int));
        assert(next.last() == points@[i as int]);
        let p = points[i];
        let v = match leg {
            Leg::Up => p.up,
            Leg::Total => p.total,
            Leg::Down => match (p.up, p.total) {
                (Some(u), Some(t)) => Some(t.saturating_sub(u)),
                _ => None,
            },
        };
        match v {
            Some(v) => r.push((p.sent, v)),
            None => {},
        }
        i = i + 1;
    }
    assert(points@.subrange(0, i as int) =~= points@);
    r
}

pub fn monitor_loss(points: &[MonitorPoint]) -> (r: Vec<(u64, LossSide)>)
    ensures
        r@ == monitor_losses(points@),
{
    let mut r: Vec<(u64, LossSide)> = Vec::new();
    let mut i: usize = 0;
    while i < points.len()
        invariant
            i <= points@.len(),
            r@ == monitor_losses(points@.subrange(0, i as int)),
        decreases points@.len() - i,
    {
        let ghost next = points@.subrange(0, i + 1);
        assert(next.drop_last() =~= points@.subrange(0, i as int));
        assert(next.last() == points@[i as int]);
        let p = points[i];
        if !p.pending && p.total.is_none() {
            let side = if p.up.is_some() {
                LossSide::ClientMissed
            } else {
                LossSide::ServerMissed
            };
            r.push((p.sent, side));
        }
        i = i + 1;
    }
    assert(points@.subrange(0, i as int) =~= points@);
    r
}

/// The most recent `n` items of `s`.
pub open spec fn keep_last(s: Seq<MonitorPoint>, n: nat) -> Seq<MonitorPoint> {
    if s.len() > n {
        s.subrange(s.len() - n, s.len() as int)
    } else {
        s
    }
}

/// The pings of the latency monitor, oldest first, holding no more than a
/// fixed number: each new ping pushes the oldest out once the history is
/// full.
pub struct PingHistory {
    points: VecDeque<MonitorPoint>,
    limit: usize,
}

impl View for PingHistory {
    type V = Seq<MonitorPoint>;

    closed spec fn view(&self) -> Seq<MonitorPoint> {
        self.points@
    }
}

impl PingHistory {
    /// How many pings the history keeps.
    pub closed spec fn capacity(&self) -> nat {
        self.limit as nat
    }

    pub closed spec fn wf(&self) -> bool {
        self.points@.len() <= self.limit
    }

    pub fn new(limit: usize) -> (r: PingHistory)
        ensures
            r.wf(),
            r@ == Seq::<MonitorPoint>::empty(),
            r.capacity() == limit,
    {
        PingHistory { points: VecDeque::new(), limit }
    }

    pub fn limit(&self) -> (r: usize)
        ensures
            r == self.capacity(),
    {
        self.limit
    }

    pub fn len(&self) -> (r: usize)
        ensures
            r == self@.len(),
    {
        self.points.len()
    }

    /// Adds a ping, letting go of the oldest where the history is full.
    pub fn push(&mut self, p: MonitorPoint)
        requires
            old(self).wf(),
        ensures
            final(self).wf(),
            final(self).capacity() == old(self).capacity(),
            final(self)@ == keep_last(old(self)@.push(p), old(self).capacity()),
    {
        let ghost before = self.points@;
        self.points.push_back(p);
        if self.points.len() > self.limit {
            let _ = self.points.pop_front();
            assert(self.points@ =~= before.push(p).subrange(
                before.len() + 1 - self.limit,
                before.len() + 1 as int,
            ));
        }
    }

    /// Replaces the ping at position `i`, counted from the oldest.
    pub fn set(&mut self, i: usize, p: MonitorPoint)
        requires
            old(self).wf(),
            i < old(self)@.len(),
        ensures
            final(self).wf(),
            final(self).capacity() == old(self).capacity(),
            final(self)@ == old(self)@.update(i as int, p),
    {
        let ghost before = self.points@;
        let _ = self.points.remove(i);
        self.points.insert(i, p);
        assert(self.points@ =~= before.update(i as int, p));
    }

    /// A copy of the pings, oldest first.
    pub fn points(&self) -> (r: Vec<MonitorPoint>)
        ensures
            r@ == self@,
    {
        let mut r: Vec<MonitorPoint> = Vec::new();
        let mut i: usize = 0;
        while i < self.points.len()
            invariant
                i <= self.points@.len(),
                r@ =~= self.points@.subrange(0, i as int),
            decreases self.points@.len() - i,
        {
            r.push(self.points[i]);
            i = i + 1;
        }
        r
    }
}

/// The stage of a monitoring session, and what the front end says of it.
#[derive(Clone, Copy, Debug, PartialEq, Eq)]
pub enum MonitorState {
    Connecting,
    Syncing,
    Monitoring,
}

impl MonitorState {
    pub fn status(&self) -> (r: &'static str)
        ensures
            r@ == (match *self {
                MonitorState::Connecting => "Connecting..",
                MonitorState::Syncing => "Synchronizing clocks..",
                MonitorState::Monitoring => "",
            })@,
    {
        match self {
            MonitorState::Connecting => "Connecting..",
            MonitorState::Syncing => "Synchronizing clocks..",
            MonitorState::Monitoring => "",
        }
    }
}

} // verus!
