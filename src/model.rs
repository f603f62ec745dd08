//! The raw trace of a test: pings, per-stream byte counters and the test's
//! configuration. Every duration and instant is a count of microseconds since
//! the start of the test.
use vstd::prelude::*;

verus! {

/// One cumulative byte counter reading: `(time_us, cumulative_bytes)`.
pub type StreamSample = (u64, u64);

/// The readings of one stream are strictly increasing in time and never
/// decrease in bytes.
pub open spec fn samples_ordered(s: Seq<StreamSample>) -> bool {
    forall|i: int, j: int|
        0 <= i < j < s.len() ==> #[trigger] s[i].0 < #[trigger] s[j].0 && s[i].1 <= s[j].1
}

/// A stream's readings are in order exactly when each reading is later than
/// the one before and holds at least as many bytes.
pub proof fn lemma_samples_ordered_adjacent(s: Seq<StreamSample>)
    ensures
        samples_ordered(s) <==> forall|i: int|
            0 <= i < s.len() - 1 ==> #[trigger] s[i].0 < s[i + 1].0 && s[i].1 <= s[i + 1].1,
{
    if forall|i: int|
        0 <= i < s.len() - 1 ==> #[trigger] s[i].0 < s[i + 1].0 && s[i].1 <= s[i + 1].1 {
        assert forall|a: int, b: int| 0 <= a < b < s.len() implies #[trigger] s[a].0
            < #[trigger] s[b].0 && s[a].1 <= s[b].1 by {
            lemma_adjacent_chain(s, a, b);
        }
    }
    if samples_ordered(s) {
        assert forall|i: int| 0 <= i < s.len() - 1 implies #[trigger] s[i].0 < s[i + 1].0
            && s[i].1 <= s[i + 1].1 by {
            assert(s[i].0 < s[i + 1].0);
        }
    }
}

proof fn lemma_adjacent_chain(s: Seq<StreamSample>, a: int, b: int)
    requires
        0 <= a < b < s.len(),
        forall|i: int|
            0 <= i < s.len() - 1 ==> #[trigger] s[i].0 < s[i + 1].0 && s[i].1 <= s[i + 1].1,
    ensures
        s[a].0 < s[b].0 && s[a].1 <= s[b].1,
    decreases b - a,
{
    assert(s[b - 1].0 < s[b].0);
    if a < b - 1 {
        lemma_adjacent_chain(s, a, b - 1);
    }
}

/// Checks that a stream's readings are in order.
pub fn samples_valid(s: &[StreamSample]) -> (r: bool)
    ensures
        r == samples_ordered(s@),
{
    let mut i: usize = 1;
    if s.len() == 0 {
        return true;
    }
    while i < s.len()
        invariant
            1 <= i <= s.len(),
            samples_ordered(s@.subrange(0, i as int)),
        decreases s.len() - i,
    {
        if !(s[i - 1].0 < s[i].0 && s[i - 1].1 <= s[i].1) {
            assert(!samples_ordered(s@)) by {
                assert(s@[i - 1] == s@[(i - 1) as int]);
            }
            return false;
        }
        assert(samples_ordered(s@.subrange(0, i + 1))) by {
            let t = s@.subrange(0, i + 1);
            assert forall|a: int, b: int| 0 <= a < b < t.len() implies #[trigger] t[a].0
                < #[trigger] t[b].0 && t[a].1 <= t[b].1 by {
                if b < i {
                    assert(t[a] == s@.subrange(0, i as int)[a]);
                    assert(t[b] == s@.subrange(0, i as int)[b]);
                } else if a < i - 1 {
                    assert(t[a] == s@.subrange(0, i as int)[a]);
                    assert(s@[i - 1] == s@.subrange(0, i as int)[i - 1]);
                }
            }
        }
        i = i + 1;
    }
    assert(s@.subrange(0, s.len() as int) =~= s@);
    true
}

/// One-way and round-trip latency of a ping.
#[derive(Clone, Copy, Debug, PartialEq, Eq)]
pub struct RawLatency {
    /// Client to server.
    pub up: u64,
    /// Server to client; known only when the server stamped its receive time.
    pub down: Option<u64>,
    /// The round trip; absent when the reply was lost.
    pub total: Option<u64>,
}

impl RawLatency {
    /// Where the down leg is known, the round trip is the sum of both legs.
    pub open spec fn wf(self) -> bool {
        self.down is Some ==> self.total == Some((self.up + self.down->0) as u64) && self.up
            + self.down->0 <= u64::MAX
    }

    /// A reply that came back: both legs are known.
    pub fn answered(up: u64, down: u64) -> (r: Option<RawLatency>)
        ensures
            r is Some <==> up + down <= u64::MAX,
            r matches Some(l) ==> l.up == up && l.down == Some(down) && l.total == Some(
                (up + down) as u64,
            ) && l.wf(),
    {
        match up.checked_add(down) {
            Some(total) => Some(RawLatency { up, down: Some(down), total: Some(total) }),
            None => None,
        }
    }

    /// The server saw the ping, but its reply was lost.
    pub fn reply_lost(up: u64) -> (r: RawLatency)
        ensures
            r.up == up && r.down is None && r.total is None && r.wf(),
    {
        RawLatency { up, down: None, total: None }
    }

    pub fn down(&self) -> (r: Option<u64>)
        ensures
            r == self.down,
    {
        self.down
    }
}

/// A ping sent at `sent`; `latency` is absent when the server never saw it.
#[derive(Clone, Copy, Debug, PartialEq, Eq)]
pub struct RawPing {
    pub index: u64,
    pub sent: u64,
    pub latency: Option<RawLatency>,
}

/// A ping is lost when no round trip was measured for it.
pub open spec fn ping_lost(p: RawPing) -> bool {
    match p.latency {
        Some(l) => l.total is None,
        None => true,
    }
}

impl RawPing {
    pub open spec fn wf(self) -> bool {
        self.latency matches Some(l) ==> l.wf()
    }

    pub fn lost(&self) -> (r: bool)
        ensures
            r == ping_lost(*self),
    {
        match self.latency {
            Some(l) => l.total.is_none(),
            None => true,
        }
    }
}

/// The streams of one direction, as a group.
#[derive(Clone, Debug)]
pub struct RawStreamGroup {
    pub download: bool,
    pub both: bool,
    pub streams: Vec<Vec<StreamSample>>,
}

/// The parameters of a test.
#[derive(Clone, Copy, Debug, PartialEq, Eq)]
pub struct RawConfig {
    pub download: bool,
    pub upload: bool,
    pub both: bool,
    pub streams: u64,
    pub stagger: u64,
    pub load_duration: u64,
    pub grace_duration: u64,
    pub ping_interval: u64,
    pub bandwidth_interval: u64,
}

/// The full trace of one test, as the client assembled it.
#[derive(Clone, Debug)]
pub struct RawResult {
    pub version: u64,
    pub generated_by: String,
    pub config: RawConfig,
    pub ipv6: bool,
    pub server_latency: u64,
    pub server_overload: bool,
    pub load_termination_timeout: bool,
    pub start: u64,
    pub duration: u64,
    pub stream_groups: Vec<RawStreamGroup>,
    pub pings: Vec<RawPing>,
}

/// The number of streams in the first `n` groups.
pub open spec fn streams_in(groups: Seq<RawStreamGroup>, n: int) -> int
    decreases n,
{
    if n <= 0 {
        0
    } else {
        streams_in(groups, n - 1) + groups[n - 1].streams@.len()
    }
}

pub open spec fn any_group(groups: Seq<RawStreamGroup>, download: bool, both: bool) -> bool {
    exists|i: int|
        0 <= i < groups.len() && (#[trigger] groups[i]).download == download && groups[i].both
            == both
}

pub open spec fn any_both(groups: Seq<RawStreamGroup>) -> bool {
    exists|i: int| 0 <= i < groups.len() && (#[trigger] groups[i]).both
}

impl RawResult {
    /// The number of streams over all groups, capped at `u64::MAX`.
    pub fn streams(&self) -> (r: u64)
        ensures
            r as int == if streams_in(self.stream_groups@, self.stream_groups@.len() as int)
                <= u64::MAX {
                streams_in(self.stream_groups@, self.stream_groups@.len() as int)
            } else {
                u64::MAX as int
            },
    {
        let groups = &self.stream_groups;
        let mut total: u64 = 0;
        let mut capped = false;
        let mut i: usize = 0;
        while i < groups.len()
            invariant
                i <= groups.len(),
                capped ==> total == u64::MAX && streams_in(groups@, i as int) >= u64::MAX,
                !capped ==> total as int == streams_in(groups@, i as int),
            decreases groups.len() - i,
        {
            let n = groups[i].streams.len() as u64;
            if !capped {
                match total.checked_add(n) {
                    Some(t) => total = t,
                    None => {
                        total = u64::MAX;
                        capped = true;
                    },
                }
            }
            i = i + 1;
            assert(streams_in(groups@, i as int) >= streams_in(groups@, i - 1));
        }
        total
    }

    /// Whether the test loaded the download direction on its own.
    pub fn download(&self) -> (r: bool)
        ensures
            r == any_group(self.stream_groups@, true, false),
    {
        self.has_group(true, false)
    }

    /// Whether the test loaded the upload direction on its own.
    pub fn upload(&self) -> (r: bool)
        ensures
            r == any_group(self.stream_groups@, false, false),
    {
        self.has_group(false, false)
    }

    /// Whether the test loaded both directions at once.
    pub fn both(&self) -> (r: bool)
        ensures
            r == any_both(self.stream_groups@),
    {
        let groups = &self.stream_groups;
        let mut i: usize = 0;
        while i < groups.len()
            invariant
                i <= groups.len(),
                groups@ == self.stream_groups@,
                forall|k: int| 0 <= k < i ==> !(#[trigger] groups@[k]).both,
            decreases groups.len() - i,
        {
            if groups[i].both {
                assert(groups@[i as int].both);
                return true;
            }
            i = i + 1;
        }
        false
    }

    fn has_group(&self, download: bool, both: bool) -> (r: bool)
        ensures
            r == any_group(self.stream_groups@, download, both),
    {
        let groups = &self.stream_groups;
        let mut i: usize = 0;
        while i < groups.len()
            invariant
                i <= groups.len(),
                groups@ == self.stream_groups@,
                forall|k: int|
                    0 <= k < i ==> !(#[trigger] groups@[k].download == download && groups@[k].both
                        == both),
            decreases groups.len() - i,
        {
            if groups[i].download == download && groups[i].both == both {
                assert(groups@[i as int].download == download && groups@[i as int].both == both);
                return true;
            }
            i = i + 1;
        }
        false
    }
}

/// A group of streams that a test opens: its direction and how many streams.
#[derive(Clone, Copy, Debug, PartialEq, Eq)]
pub struct GroupPlan {
    pub download: bool,
    pub both: bool,
    pub streams: u64,
}

/// The groups that a configuration asks for, in the order they are opened:
/// download alone, upload alone, then the two directions at once.
pub open spec fn planned_groups(c: RawConfig) -> Seq<GroupPlan> {
    let d = if c.download {
        seq![GroupPlan { download: true, both: false, streams: c.streams }]
    } else {
        seq![]
    };
    let u = if c.upload {
        seq![GroupPlan { download: false, both: false, streams: c.streams }]
    } else {
        seq![]
    };
    let b = if c.both {
        seq![
            GroupPlan { download: true, both: true, streams: c.streams },
            GroupPlan { download: false, both: true, streams: c.streams },
        ]
    } else {
        seq![]
    };
    d + u + b
}

pub open spec fn planned_total(plan: Seq<GroupPlan>) -> int
    decreases plan.len(),
{
    if plan.len() == 0 {
        0
    } else {
        planned_total(plan.drop_last()) + plan.last().streams
    }
}

/// The stream groups to open for a configuration.
pub fn plan_groups(c: &RawConfig) -> (r: Vec<GroupPlan>)
    ensures
        r@ == planned_groups(*c),
{
    let mut r: Vec<GroupPlan> = Vec::new();
    if c.download {
        r.push(GroupPlan { download: true, both: false, streams: c.streams });
    }
    if c.upload {
        r.push(GroupPlan { download: false, both: false, streams: c.streams });
    }
    if c.both {
        r.push(GroupPlan { download: true, both: true, streams: c.streams });
        r.push(GroupPlan { download: false, both: true, streams: c.streams });
    }
    assert(r@ =~= planned_groups(*c));
    r
}

/// The number of streams opened for a configuration is `streams` once for
/// each single direction and twice when both directions load at once.
pub proof fn lemma_planned_stream_count(c: RawConfig)
    ensures
        planned_total(planned_groups(c)) == c.streams * ((if c.download {
            1int
        } else {
            0
        }) + (if c.upload {
            1int
        } else {
            0
        }) + 2 * (if c.both {
            1int
        } else {
            0
        })),
{
    let s = c.streams as int;
    let d = if c.download { 1int } else { 0 };
    let u = if c.upload { 1int } else { 0 };
    let b = if c.both { 1int } else { 0 };
    let g = |dl: bool, bo: bool| GroupPlan { download: dl, both: bo, streams: c.streams };
    let ds = if c.download { seq![g(true, false)] } else { seq![] };
    let us = if c.upload { seq![g(false, false)] } else { seq![] };
    let bs = if c.both { seq![g(true, true), g(false, true)] } else { seq![] };
    assert(planned_groups(c) =~= ds + us + bs);
    lemma_planned_total_concat(ds + us, bs);
    lemma_planned_total_concat(ds, us);
    reveal_with_fuel(planned_total, 3);
    if c.both {
        let t = seq![g(true, true), g(false, true)];
        assert(t.drop_last() =~= seq![g(true, true)]);
        assert(t.drop_last().drop_last() =~= Seq::<GroupPlan>::empty());
        assert(planned_total(t) == 2 * s);
        assert(2 * b * s == 2 * s);
    } else {
        assert(2 * b * s == 0);
    }
    assert(seq![g(true, false)].drop_last() =~= Seq::<GroupPlan>::empty());
    assert(seq![g(false, false)].drop_last() =~= Seq::<GroupPlan>::empty());
    assert(planned_total(ds) == d * s);
    assert(planned_total(us) == u * s);
    assert(planned_total(bs) == 2 * b * s);
    assert(d * s + u * s + 2 * b * s == s * (d + u + 2 * b)) by (nonlinear_arith);
}

proof fn lemma_planned_total_concat(a: Seq<GroupPlan>, b: Seq<GroupPlan>)
    ensures
        planned_total(a + b) == planned_total(a) + planned_total(b),
    decreases b.len(),
{
    if b.len() == 0 {
        assert(a + b =~= a);
    } else {
        assert((a + b).drop_last() =~= a + b.drop_last());
        lemma_planned_total_concat(a, b.drop_last());
    }
}

/// In a well-formed ping that has a round trip and a down leg, the round trip
/// is the sum of the up and down legs.
pub proof fn lemma_latency_total(p: RawPing)
    requires
        p.wf(),
    ensures
        p.latency matches Some(l) ==> (l.total is Some && l.down is Some ==> l.up + l.down->0
            == l.total->0),
{
}

} // verus!
