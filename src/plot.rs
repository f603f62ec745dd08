//! The reduced form of a raw result that the plots draw from: summed byte
//! series per direction and per stream group.
use vstd::prelude::*;
use crate::model::{
    RawPing,
    RawResult,
    RawStreamGroup,
    StreamSample,
    any_both,
    any_group,
    ping_lost,
    samples_valid,
    streams_in,
};
use crate::reduce::{
    all_interpolated,
    interpolable,
    lemma_total_last_nonneg,
    lemma_total_last_prefix,
    sum_bytes,
    summable,
    summed,
    total_last,
    views,
};

verus! {

/// The streams of a group, as sequences of samples.
pub open spec fn group_streams(g: RawStreamGroup) -> Seq<Seq<StreamSample>> {
    views(g.streams@)
}

/// The bytes that every stream of every group carried in the end.
pub open spec fn result_total(groups: Seq<RawStreamGroup>) -> int
    decreases groups.len(),
{
    if groups.len() == 0 {
        0
    } else {
        result_total(groups.drop_last()) + total_last(group_streams(groups.last()))
    }
}

/// What the reduction needs of a raw result: a positive sampling interval,
/// streams that can each be interpolated, and a total byte count within `u64`.
pub open spec fn reducible(r: RawResult) -> bool {
    let iv = r.config.bandwidth_interval as int;
    &&& iv > 0
    &&& forall|g: int, j: int|
        0 <= g < r.stream_groups@.len() && 0 <= j < r.stream_groups@[g].streams@.len()
            ==> interpolable(#[trigger] r.stream_groups@[g].streams@[j]@, iv)
    &&& result_total(r.stream_groups@) <= u64::MAX
}

/// The first group with the given direction flags.
pub open spec fn first_group(groups: Seq<RawStreamGroup>, download: bool, both: bool) -> Option<
    int,
>
    decreases groups.len(),
{
    if groups.len() == 0 {
        None
    } else {
        match first_group(groups.drop_last(), download, both) {
            Some(i) => Some(i),
            None => if groups.last().download == download && groups.last().both == both {
                Some(groups.len() - 1)
            } else {
                None
            },
        }
    }
}

/// The streams of the group at `f`, none where there is no group.
pub open spec fn found_streams(groups: Seq<RawStreamGroup>, f: Option<int>) -> Seq<
    Seq<StreamSample>,
> {
    match f {
        Some(i) => group_streams(groups[i]),
        None => Seq::empty(),
    }
}

/// Streams interpolated at `iv` and summed.
pub open spec fn series(ss: Seq<Seq<StreamSample>>, iv: int) -> Seq<StreamSample> {
    summed(all_interpolated(ss, iv), iv)
}

/// The summed series of the group at `f`, if there is one.
pub open spec fn group_series(groups: Seq<RawStreamGroup>, f: Option<int>, iv: int) -> Option<
    Seq<StreamSample>,
> {
    match f {
        Some(i) => Some(series(group_streams(groups[i]), iv)),
        None => None,
    }
}

pub open spec fn opt_view(o: Option<Vec<StreamSample>>) -> Option<Seq<StreamSample>> {
    match o {
        Some(v) => Some(v@),
        None => None,
    }
}

/// One stream of a group, summed with the streams before it.
pub struct TestStream {
    pub data: Vec<StreamSample>,
}

pub struct TestStreamGroup {
    pub download: bool,
    pub both: bool,
    pub streams: Vec<TestStream>,
}

/// A raw result with its byte counters reduced to summed series.
pub struct TestResult {
    pub raw_result: RawResult,
    pub start: u64,
    pub duration: u64,
    pub download_bytes: Option<Vec<StreamSample>>,
    pub upload_bytes: Option<Vec<StreamSample>>,
    pub combined_download_bytes: Vec<StreamSample>,
    pub combined_upload_bytes: Vec<StreamSample>,
    pub both_download_bytes: Option<Vec<StreamSample>>,
    pub both_upload_bytes: Option<Vec<StreamSample>>,
    pub both_bytes: Option<Vec<StreamSample>>,
    pub pings: Vec<RawPing>,
    pub stream_groups: Vec<TestStreamGroup>,
}

proof fn lemma_result_total_nonneg(groups: Seq<RawStreamGroup>)
    ensures
        0 <= result_total(groups),
    decreases groups.len(),
{
    if groups.len() > 0 {
        lemma_result_total_nonneg(groups.drop_last());
        lemma_total_last_nonneg(group_streams(groups.last()));
    }
}

/// One group's bytes, or two distinct groups' bytes together, are within the
/// total.
proof fn lemma_groups_within_total(groups: Seq<RawStreamGroup>, i: int, j: Option<int>)
    requires
        0 <= i < groups.len(),
        j matches Some(k) ==> 0 <= k < groups.len() && k != i,
    ensures
        total_last(group_streams(groups[i])) + total_last(found_streams(groups, j))
            <= result_total(groups),
    decreases groups.len(),
{
    let n = groups.len() - 1;
    let rest = groups.drop_last();
    lemma_result_total_nonneg(rest);
    lemma_total_last_nonneg(group_streams(groups[n]));
    lemma_total_last_nonneg(found_streams(groups, j));
    assert(groups.last() == groups[n]);
    if i == n {
        match j {
            Some(k) => {
                lemma_groups_within_total(rest, k, None);
                assert(rest[k] == groups[k]);
            },
            None => {},
        }
    } else {
        assert(rest[i] == groups[i]);
        match j {
            Some(k) => {
                if k == n {
                    lemma_groups_within_total(rest, i, None);
                } else {
                    lemma_groups_within_total(rest, i, Some(k));
                    assert(rest[k] == groups[k]);
                }
            },
            None => {
                lemma_groups_within_total(rest, i, None);
            },
        }
    }
}

proof fn lemma_total_last_concat(a: Seq<Seq<StreamSample>>, b: Seq<Seq<StreamSample>>)
    ensures
        total_last(a + b) == total_last(a) + total_last(b),
    decreases b.len(),
{
    if b.len() == 0 {
        assert(a + b =~= a);
    } else {
        assert((a + b).drop_last() =~= a + b.drop_last());
        assert((a + b).last() == b.last());
        lemma_total_last_concat(a, b.drop_last());
    }
}

proof fn lemma_first_group_found(groups: Seq<RawStreamGroup>, download: bool, both: bool, i: int)
    requires
        0 <= i < groups.len(),
        groups[i].download == download && groups[i].both == both,
        forall|k: int|
            0 <= k < i ==> !((#[trigger] groups[k]).download == download && groups[k].both
                == both),
    ensures
        first_group(groups, download, both) == Some(i),
    decreases groups.len(),
{
    if i < groups.len() - 1 {
        let rest = groups.drop_last();
        assert forall|k: int| 0 <= k < i implies !((#[trigger] rest[k]).download == download
            && rest[k].both == both) by {
            assert(rest[k] == groups[k]);
        }
        assert(rest[i] == groups[i]);
        lemma_first_group_found(rest, download, both, i);
    } else {
        lemma_first_group_none(groups.drop_last(), download, both);
    }
}

proof fn lemma_first_group_none(groups: Seq<RawStreamGroup>, download: bool, both: bool)
    requires
        forall|k: int|
            0 <= k < groups.len() ==> !((#[trigger] groups[k]).download == download
                && groups[k].both == both),
    ensures
        first_group(groups, download, both) is None,
    decreases groups.len(),
{
    if groups.len() > 0 {
        let rest = groups.drop_last();
        assert forall|k: int| 0 <= k < rest.len() implies !((#[trigger] rest[k]).download
            == download && rest[k].both == both) by {
            assert(rest[k] == groups[k]);
        }
        lemma_first_group_none(rest, download, both);
        assert(groups.last() == groups[groups.len() - 1]);
    }
}

/// The index of the first group with the given direction flags.
fn find_group(groups: &Vec<RawStreamGroup>, download: bool, both: bool) -> (r: Option<usize>)
    ensures
        match r {
            Some(i) => first_group(groups@, download, both) == Some(i as int) && i
                < groups@.len() && groups@[i as int].download == download && groups@[i as int].both
                == both,
            None => first_group(groups@, download, both) is None,
        },
{
    let mut i: usize = 0;
    while i < groups.len()
        invariant
            i <= groups@.len(),
            forall|k: int|
                0 <= k < i ==> !((#[trigger] groups@[k]).download == download && groups@[k].both
                    == both),
        decreases groups@.len() - i,
    {
        if groups[i].download == download && groups[i].both == both {
            proof {
                lemma_first_group_found(groups@, download, both, i as int);
            }
            return Some(i);
        }
        i = i + 1;
    }
    proof {
        lemma_first_group_none(groups@, download, both);
    }
    None
}

fn copy_stream(s: &Vec<StreamSample>) -> (r: Vec<StreamSample>)
    ensures
        r@ == s@,
{
    let mut r: Vec<StreamSample> = Vec::new();
    let mut i: usize = 0;
    while i < s.len()
        invariant
            i <= s@.len(),
            r@ =~= s@.subrange(0, i as int),
        decreases s@.len() - i,
    {
        r.push(s[i]);
        i = i + 1;
    }
    r
}

proof fn lemma_views_push(v: Seq<Vec<StreamSample>>, x: Vec<StreamSample>)
    ensures
        views(v.push(x)) == views(v).push(x@),
{
    assert(views(v.push(x)) =~= views(v).push(x@)) by {
        assert forall|k: int| 0 <= k < v.len() + 1 implies #[trigger] views(v.push(x))[k]
            == views(v).push(x@)[k] by {
            if k < v.len() {
                assert(v.push(x)[k] == v[k]);
            }
        }
    }
}

/// Appends copies of the streams of the group at `f`.
fn push_group_streams(
    out: &mut Vec<Vec<StreamSample>>,
    groups: &Vec<RawStreamGroup>,
    f: Option<usize>,
)
    requires
        f matches Some(i) ==> i < groups@.len(),
    ensures
        views(final(out)@) == views(old(out)@) + found_streams(
            groups@,
            match f {
                Some(i) => Some(i as int),
                None => None,
            },
        ),
{
    match f {
        None => {
            assert(views(out@) =~= views(out@) + Seq::<Seq<StreamSample>>::empty());
        },
        Some(g) => {
            let streams = &groups[g].streams;
            let ghost start = views(out@);
            let mut j: usize = 0;
            while j < streams.len()
                invariant
                    j <= streams@.len(),
                    views(out@) =~= start + views(streams@).subrange(0, j as int),
                decreases streams@.len() - j,
            {
                let c = copy_stream(&streams[j]);
                let ghost before = out@;
                out.push(c);
                proof {
                    lemma_views_push(before, c);
                    assert(views(streams@)[j as int] == streams@[j as int]@);
                    assert(views(streams@).subrange(0, j + 1) =~= views(streams@).subrange(
                        0,
                        j as int,
                    ).push(streams@[j as int]@));
                }
                assert(views(out@) =~= start + views(streams@).subrange(0, j + 1));
                j = j + 1;
            }
            assert(views(streams@).subrange(0, j as int) =~= views(streams@));
        },
    }
}

/// The series of the streams of the groups at `a` and `b` summed together.
fn combine(
    groups: &Vec<RawStreamGroup>,
    a: Option<usize>,
    b: Option<usize>,
    iv: u64,
    Ghost(r): Ghost<RawResult>,
) -> (out: Vec<StreamSample>)
    requires
        reducible(r),
        r.stream_groups == *groups,
        iv == r.config.bandwidth_interval,
        a matches Some(i) ==> i < groups@.len(),
        b matches Some(i) ==> i < groups@.len(),
        a matches Some(i) ==> (b matches Some(k) ==> i != k),
    ensures
        out@ == series(
            found_streams(
                groups@,
                match a {
                    Some(i) => Some(i as int),
                    None => None,
                },
            ) + found_streams(
                groups@,
                match b {
                    Some(i) => Some(i as int),
                    None => None,
                },
            ),
            iv as int,
        ),
{
    let ghost fa = match a {
        Some(i) => Some(i as int),
        None => None,
    };
    let ghost fb = match b {
        Some(i) => Some(i as int),
        None => None,
    };
    let mut all: Vec<Vec<StreamSample>> = Vec::new();
    push_group_streams(&mut all, groups, a);
    push_group_streams(&mut all, groups, b);
    let ghost ss = found_streams(groups@, fa) + found_streams(groups@, fb);
    assert(views(all@) =~= ss);
    proof {
        lemma_total_last_concat(found_streams(groups@, fa), found_streams(groups@, fb));
        lemma_total_last_nonneg(found_streams(groups@, fa));
        lemma_total_last_nonneg(found_streams(groups@, fb));
        match fa {
            Some(i) => {
                lemma_groups_within_total(groups@, i, fb);
            },
            None => {
                match fb {
                    Some(k) => {
                        lemma_groups_within_total(groups@, k, None);
                    },
                    None => {},
                }
            },
        }
        assert forall|j: int| 0 <= j < ss.len() implies interpolable(
            #[trigger] ss[j],
            iv as int,
        ) by {
            let na = found_streams(groups@, fa).len();
            if j < na {
                assert(ss[j] == groups@[fa->0].streams@[j]@);
            } else {
                assert(ss[j] == groups@[fb->0].streams@[j - na]@);
            }
        }
    }
    sum_bytes(all.as_slice(), iv)
}

/// The series of each stream of a group summed with the streams before it.
fn stream_prefixes(groups: &Vec<RawStreamGroup>, g: usize, iv: u64, Ghost(r): Ghost<RawResult>) -> (out:
    Vec<TestStream>)
    requires
        reducible(r),
        r.stream_groups == *groups,
        iv == r.config.bandwidth_interval,
        g < groups@.len(),
    ensures
        out@.len() == groups@[g as int].streams@.len(),
        forall|i: int|
            0 <= i < out@.len() ==> (#[trigger] out@[i]).data@ == series(
                group_streams(groups@[g as int]).subrange(0, i + 1),
                iv as int,
            ),
{
    let streams = &groups[g].streams;
    let ghost gs = group_streams(groups@[g as int]);
    proof {
        lemma_groups_within_total(groups@, g as int, None);
        lemma_total_last_nonneg(Seq::<Seq<StreamSample>>::empty());
    }
    let mut prefix: Vec<Vec<StreamSample>> = Vec::new();
    let mut out: Vec<TestStream> = Vec::new();
    let mut i: usize = 0;
    while i < streams.len()
        invariant
            reducible(r),
            r.stream_groups == *groups,
            iv == r.config.bandwidth_interval,
            g < groups@.len(),
            *streams == groups@[g as int].streams,
            gs == group_streams(groups@[g as int]),
            total_last(gs) <= u64::MAX,
            i <= streams@.len(),
            views(prefix@) =~= gs.subrange(0, i as int),
            out@.len() == i,
            forall|k: int|
                0 <= k < i ==> (#[trigger] out@[k]).data@ == series(
                    gs.subrange(0, k + 1),
                    iv as int,
                ),
        decreases streams@.len() - i,
    {
        let c = copy_stream(&streams[i]);
        let ghost before = prefix@;
        prefix.push(c);
        proof {
            lemma_views_push(before, c);
            assert(gs.subrange(0, i + 1) =~= gs.subrange(0, i as int).push(gs[i as int]));
        }
        let ghost sub = gs.subrange(0, i + 1);
        assert(gs[i as int] == streams@[i as int]@);
        assert(views(prefix@) =~= sub);
        proof {
            lemma_total_last_prefix(gs, i + 1);
            assert forall|j: int| 0 <= j < sub.len() implies interpolable(
                #[trigger] sub[j],
                iv as int,
            ) by {
                assert(sub[j] == r.stream_groups@[g as int].streams@[j]@);
            }
        }
        let data = sum_bytes(prefix.as_slice(), iv);
        out.push(TestStream { data });
        i = i + 1;
    }
    out
}

/// Whether a stream can be interpolated at `iv`.
fn stream_interpolable(s: &Vec<StreamSample>, iv: u64) -> (r: bool)
    ensures
        r == interpolable(s@, iv as int),
{
    if iv == 0 || !samples_valid(s.as_slice()) {
        return false;
    }
    let n = s.len();
    n == 0 || s[n - 1].0 <= u64::MAX - (iv - 1)
}

proof fn lemma_result_total_prefix(groups: Seq<RawStreamGroup>, g: int)
    requires
        0 <= g <= groups.len(),
    ensures
        result_total(groups.subrange(0, g)) <= result_total(groups),
    decreases groups.len(),
{
    if g == groups.len() {
        assert(groups.subrange(0, g) =~= groups);
    } else {
        assert(groups.drop_last().subrange(0, g) =~= groups.subrange(0, g));
        lemma_result_total_prefix(groups.drop_last(), g);
        lemma_total_last_nonneg(group_streams(groups.last()));
    }
}

impl RawResult {
    /// Whether the byte counters can be reduced: see `reducible`.
    pub fn is_reducible(&self) -> (r: bool)
        ensures
            r == reducible(*self),
    {
        let iv = self.config.bandwidth_interval;
        if iv == 0 {
            return false;
        }
        let groups = &self.stream_groups;
        let ghost gv = groups@;
        let mut total: u64 = 0;
        let mut g: usize = 0;
        while g < groups.len()
            invariant
                groups == &self.stream_groups,
                gv == groups@,
                iv == self.config.bandwidth_interval,
                iv > 0,
                g <= gv.len(),
                total == result_total(gv.subrange(0, g as int)),
                forall|a: int, j: int|
                    0 <= a < g && 0 <= j < gv[a].streams@.len() ==> interpolable(
                        #[trigger] gv[a].streams@[j]@,
                        iv as int,
                    ),
            decreases gv.len() - g,
        {
            let streams = &groups[g].streams;
            let ghost gs = group_streams(gv[g as int]);
            let mut sum: u64 = total;
            let mut j: usize = 0;
            while j < streams.len()
                invariant
                    groups == &self.stream_groups,
                    gv == groups@,
                    g < gv.len(),
                    *streams == gv[g as int].streams,
                    gs == group_streams(gv[g as int]),
                    iv > 0,
                    iv == self.config.bandwidth_interval,
                    j <= streams@.len(),
                    total == result_total(gv.subrange(0, g as int)),
                    sum == total + total_last(gs.subrange(0, j as int)),
                    forall|k: int| 0 <= k < j ==> interpolable(#[trigger] gs[k], iv as int),
                decreases streams@.len() - j,
            {
                let s = &streams[j];
                assert(gs[j as int] == s@);
                proof {
                    lemma_result_total_prefix(gv, g as int);
                    assert(gv.subrange(0, g + 1).drop_last() =~= gv.subrange(0, g as int));
                    assert(gv.subrange(0, g + 1).last() == gv[g as int]);
                    lemma_result_total_prefix(gv, g + 1);
                    lemma_total_last_prefix(gs, j as int);
                    lemma_total_last_prefix(gs, j + 1);
                    assert(gs.subrange(0, j + 1).drop_last() =~= gs.subrange(0, j as int));
                }
                if !stream_interpolable(s, iv) {
                    assert(!interpolable(gv[g as int].streams@[j as int]@, iv as int));
                    return false;
                }
                let n = s.len();
                if n > 0 {
                    match sum.checked_add(s[n - 1].1) {
                        Some(t) => sum = t,
                        None => {
                            assert(gs.subrange(0, j + 1).last() == gs[j as int]);
                            assert(total_last(gs.subrange(0, j + 1)) == total_last(
                                gs.subrange(0, j as int),
                            ) + s@[n - 1].1);
                            assert(result_total(gv.subrange(0, g + 1)) == total + total_last(gs));
                            assert(result_total(gv) > u64::MAX);
                            return false;
                        },
                    }
                }
                assert(interpolable(gs[j as int], iv as int));
                j = j + 1;
            }
            proof {
                assert(gs.subrange(0, j as int) =~= gs);
                assert(gv.subrange(0, g + 1).drop_last() =~= gv.subrange(0, g as int));
                assert(gv.subrange(0, g + 1).last() == gv[g as int]);
            }
            total = sum;
            g = g + 1;
            assert forall|a: int, k: int|
                0 <= a < g && 0 <= k < gv[a].streams@.len() implies interpolable(
                #[trigger] gv[a].streams@[k]@,
                iv as int,
            ) by {
                if a == g - 1 {
                    assert(gs[k] == gv[a].streams@[k]@);
                }
            }
        }
        assert(gv.subrange(0, g as int) =~= gv);
        true
    }

    /// Reduces the byte counters: the summed series of each group, of each
    /// stream together with the streams before it in its group, and of each
    /// direction over its single-direction and both-directions groups.
    pub fn to_test_result(self) -> (t: TestResult)
        requires
            reducible(self),
        ensures
            t.raw_result == self,
            t.start == self.start,
            t.duration == self.duration,
            t.pings@ == self.pings@,
            opt_view(t.download_bytes) == group_series(
                self.stream_groups@,
                first_group(self.stream_groups@, true, false),
                self.config.bandwidth_interval as int,
            ),
            opt_view(t.upload_bytes) == group_series(
                self.stream_groups@,
                first_group(self.stream_groups@, false, false),
                self.config.bandwidth_interval as int,
            ),
            opt_view(t.both_download_bytes) == group_series(
                self.stream_groups@,
                first_group(self.stream_groups@, true, true),
                self.config.bandwidth_interval as int,
            ),
            opt_view(t.both_upload_bytes) == group_series(
                self.stream_groups@,
                first_group(self.stream_groups@, false, true),
                self.config.bandwidth_interval as int,
            ),
            t.combined_download_bytes@ == series(
                found_streams(self.stream_groups@, first_group(self.stream_groups@, true, false))
                    + found_streams(
                    self.stream_groups@,
                    first_group(self.stream_groups@, true, true),
                ),
                self.config.bandwidth_interval as int,
            ),
            t.combined_upload_bytes@ == series(
                found_streams(self.stream_groups@, first_group(self.stream_groups@, false, false))
                    + found_streams(
                    self.stream_groups@,
                    first_group(self.stream_groups@, false, true),
                ),
                self.config.bandwidth_interval as int,
            ),
            opt_view(t.both_bytes) == if any_both(self.stream_groups@) {
                Some(
                    series(
                        found_streams(
                            self.stream_groups@,
                            first_group(self.stream_groups@, true, true),
                        ) + found_streams(
                            self.stream_groups@,
                            first_group(self.stream_groups@, false, true),
                        ),
                        self.config.bandwidth_interval as int,
                    ),
                )
            } else {
                None
            },
            t.stream_groups@.len() == self.stream_groups@.len(),
            forall|g: int|
                0 <= g < t.stream_groups@.len() ==> {
                    let tg = #[trigger] t.stream_groups@[g];
                    let rg = self.stream_groups@[g];
                    &&& tg.download == rg.download
                    &&& tg.both == rg.both
                    &&& tg.streams@.len() == rg.streams@.len()
                    &&& forall|i: int|
                        0 <= i < tg.streams@.len() ==> (#[trigger] tg.streams@[i]).data@
                            == series(
                            group_streams(rg).subrange(0, i + 1),
                            self.config.bandwidth_interval as int,
                        )
                },
    {
        let ghost r = self;
        let iv = self.config.bandwidth_interval;
        let groups = &self.stream_groups;
        let d = find_group(groups, true, false);
        let u = find_group(groups, false, false);
        let bd = find_group(groups, true, true);
        let bu = find_group(groups, false, true);
        let download_bytes = match d {
            Some(_) => Some(combine(groups, d, None, iv, Ghost(r))),
            None => None,
        };
        let upload_bytes = match u {
            Some(_) => Some(combine(groups, u, None, iv, Ghost(r))),
            None => None,
        };
        let both_download_bytes = match bd {
            Some(_) => Some(combine(groups, bd, None, iv, Ghost(r))),
            None => None,
        };
        let both_upload_bytes = match bu {
            Some(_) => Some(combine(groups, bu, None, iv, Ghost(r))),
            None => None,
        };
        proof {
            assert forall|x: Seq<Seq<StreamSample>>| x + Seq::<Seq<StreamSample>>::empty() == x by {
                assert(x + Seq::<Seq<StreamSample>>::empty() =~= x);
            }
        }
        let combined_download_bytes = combine(groups, d, bd, iv, Ghost(r));
        let combined_upload_bytes = combine(groups, u, bu, iv, Ghost(r));
        let both_bytes = if self.both() {
            Some(combine(groups, bd, bu, iv, Ghost(r)))
        } else {
            None
        };
        let mut stream_groups: Vec<TestStreamGroup> = Vec::new();
        let mut g: usize = 0;
        while g < groups.len()
            invariant
                reducible(r),
                r.stream_groups == *groups,
                iv == r.config.bandwidth_interval,
                g <= groups@.len(),
                stream_groups@.len() == g,
                forall|k: int|
                    0 <= k < g ==> {
                        let tg = #[trigger] stream_groups@[k];
                        let rg = groups@[k];
                        &&& tg.download == rg.download
                        &&& tg.both == rg.both
                        &&& tg.streams@.len() == rg.streams@.len()
                        &&& forall|i: int|
                            0 <= i < tg.streams@.len() ==> (#[trigger] tg.streams@[i]).data@
                                == series(group_streams(rg).subrange(0, i + 1), iv as int)
                    },
            decreases groups@.len() - g,
        {
            let streams = stream_prefixes(groups, g, iv, Ghost(r));
            stream_groups.push(
                TestStreamGroup { download: groups[g].download, both: groups[g].both, streams },
            );
            g = g + 1;
        }
        let mut pings: Vec<RawPing> = Vec::new();
        let mut i: usize = 0;
        while i < self.pings.len()
            invariant
                i <= self.pings@.len(),
                pings@ =~= self.pings@.subrange(0, i as int),
            decreases self.pings@.len() - i,
        {
            pings.push(self.pings[i]);
            i = i + 1;
        }
        let start = self.start;
        let duration = self.duration;
        TestResult {
            raw_result: self,
            start,
            duration,
            download_bytes,
            upload_bytes,
            combined_download_bytes,
            combined_upload_bytes,
            both_download_bytes,
            both_upload_bytes,
            both_bytes,
            pings,
            stream_groups,
        }
    }
}

/// One of the three latencies of a ping.
#[derive(Clone, Copy, Debug, PartialEq, Eq)]
pub enum Leg {
    Up,
    Down,
    Total,
}

/// The chosen latency of a ping, where it was measured.
pub open spec fn leg_value(p: RawPing, leg: Leg) -> Option<u64> {
    match p.latency {
        None => None,
        Some(l) => match leg {
            Leg::Up => Some(l.up),
            Leg::Down => l.down,
            Leg::Total => l.total,
        },
    }
}

pub fn leg_of(p: &RawPing, leg: Leg) -> (r: Option<u64>)
    ensures
        r == leg_value(*p, leg),
{
    match p.latency {
        None => None,
        Some(l) => match leg {
            Leg::Up => Some(l.up),
            Leg::Down => l.down,
            Leg::Total => l.total,
        },
    }
}

/// Which side knows of a lost ping. From protocol version 2 on, a ping the
/// server never saw is told apart from one whose reply did not come back.
#[derive(Clone, Copy, Debug, PartialEq, Eq)]
pub enum LossSide {
    /// The server never saw the ping: drawn as a tick upwards.
    ServerMissed,
    /// The server saw it but the client got no reply: drawn downwards.
    ClientMissed,
    /// An older result that cannot tell: drawn over the full height.
    Unknown,
}

/// How a ping shows in the packet loss strip; none for a ping that was not
/// lost.
pub open spec fn loss_side(version: u64, p: RawPing) -> Option<LossSide> {
    if !ping_lost(p) {
        None
    } else if version < 2 {
        Some(LossSide::Unknown)
    } else if p.latency is Some {
        Some(LossSide::ClientMissed)
    } else {
        Some(LossSide::ServerMissed)
    }
}

pub fn loss_mark(version: u64, p: &RawPing) -> (r: Option<LossSide>)
    ensures
        r == loss_side(version, *p),
{
    if !p.lost() {
        None
    } else if version < 2 {
        Some(LossSide::Unknown)
    } else if p.latency.is_some() {
        Some(LossSide::ClientMissed)
    } else {
        Some(LossSide::ServerMissed)
    }
}

/// The runs of consecutive pings with the chosen latency, as
/// `(sent, latency)` points; a ping without it ends the run.
pub open spec fn segments(pings: Seq<RawPing>, leg: Leg) -> Seq<Seq<(u64, u64)>>
    decreases pings.len(),
{
    if pings.len() == 0 {
        Seq::empty()
    } else {
        let rest = segments(pings.drop_last(), leg);
        let p = pings.last();
        match leg_value(p, leg) {
            None => rest,
            Some(v) => if pings.len() > 1 && leg_value(pings[pings.len() - 2], leg) is Some {
                rest.update(rest.len() - 1, rest.last().push((p.sent, v)))
            } else {
                rest.push(seq![(p.sent, v)])
            },
        }
    }
}

pub open spec fn segment_views(v: Seq<Vec<(u64, u64)>>) -> Seq<Seq<(u64, u64)>> {
    v.map_values(|x: Vec<(u64, u64)>| x@)
}

/// Splits the chosen latency of the pings into runs broken at each ping that
/// lacks it.
pub fn latency_segments(pings: &[RawPing], leg: Leg) -> (r: Vec<Vec<(u64, u64)>>)
    ensures
        segment_views(r@) == segments(pings@, leg),
{
    let mut out: Vec<Vec<(u64, u64)>> = Vec::new();
    let mut cur: Vec<(u64, u64)> = Vec::new();
    let mut i: usize = 0;
    while i < pings.len()
        invariant
            i <= pings@.len(),
            cur@.len() > 0 <==> (i > 0 && leg_value(pings@[i - 1], leg) is Some),
            segments(pings@.subrange(0, i as int), leg) == if cur@.len() > 0 {
                segment_views(out@).push(cur@)
            } else {
                segment_views(out@)
            },
        decreases pings@.len() - i,
    {
        let ghost pre = pings@.subrange(0, i as int);
        let ghost next = pings@.subrange(0, i + 1);
        assert(next.drop_last() =~= pre);
        assert(next.last() == pings@[i as int]);
        if i > 0 {
            assert(next[next.len() - 2] == pings@[i - 1]);
        }
        match leg_of(&pings[i], leg) {
            Some(v) => {
                let ghost oc = cur@;
                let x = (pings[i].sent, v);
                cur.push(x);
                proof {
                    let rest = segments(pre, leg);
                    if oc.len() > 0 {
                        assert(rest == segment_views(out@).push(oc));
                        assert(rest.update(rest.len() - 1, rest.last().push(x)) =~= segment_views(
                            out@,
                        ).push(cur@));
                    } else {
                        assert(rest == segment_views(out@));
                        assert(cur@ =~= seq![x]);
                    }
                }
            },
            None => {
                if cur.len() > 0 {
                    let ghost before = out@;
                    let c = cur;
                    out.push(c);
                    cur = Vec::new();
                    proof {
                        assert(segment_views(out@) =~= segment_views(before).push(c@));
                    }
                }
            },
        }
        i = i + 1;
    }
    assert(pings@.subrange(0, i as int) =~= pings@);
    if cur.len() > 0 {
        let ghost before = out@;
        let c = cur;
        out.push(c);
        assert(segment_views(out@) =~= segment_views(before).push(c@));
    }
    out
}

/// Options of the composite plot.
#[derive(Clone, Copy, Debug, PartialEq, Eq)]
pub struct PlotConfig {
    pub split_bandwidth: bool,
    pub transferred: bool,
    pub width: Option<u64>,
    pub height: Option<u64>,
}

impl PlotConfig {
    /// One bandwidth panel, no transferred bytes, and the default image size.
    pub fn new() -> (r: PlotConfig)
        ensures
            !r.split_bandwidth && !r.transferred && r.width is None && r.height is None,
    {
        PlotConfig { split_bandwidth: false, transferred: false, width: None, height: None }
    }
}

impl Default for PlotConfig {
    fn default() -> (r: PlotConfig)
        ensures
            !r.split_bandwidth && !r.transferred && r.width is None && r.height is None,
    {
        PlotConfig::new()
    }
}

/// A panel of the composite plot.
#[derive(Clone, Copy, Debug, PartialEq, Eq)]
pub enum Panel {
    Bandwidth,
    Download,
    Upload,
    Latency,
    Transferred,
}

/// The panels from top to bottom, above the packet loss strip: bandwidth
/// (one panel, or one per direction when split) where the test had streams,
/// then latency, then bytes transferred where asked for.
pub open spec fn panels(config: PlotConfig, r: RawResult) -> Seq<Panel> {
    let g = r.stream_groups@;
    let has_streams = streams_in(g, g.len() as int) > 0;
    let down = any_group(g, true, false) || any_both(g);
    let up = any_group(g, false, false) || any_both(g);
    let bandwidth = if !has_streams {
        Seq::empty()
    } else if config.split_bandwidth {
        (if down {
            seq![Panel::Download]
        } else {
            Seq::empty()
        }) + (if up {
            seq![Panel::Upload]
        } else {
            Seq::empty()
        })
    } else {
        seq![Panel::Bandwidth]
    };
    bandwidth + seq![Panel::Latency] + if has_streams && config.transferred {
        seq![Panel::Transferred]
    } else {
        Seq::empty()
    }
}

pub fn plot_panels(config: &PlotConfig, r: &RawResult) -> (p: Vec<Panel>)
    ensures
        p@ == panels(*config, *r),
{
    let has_streams = r.streams() > 0;
    let both = r.both();
    let down = r.download() || both;
    let up = r.upload() || both;
    let mut p: Vec<Panel> = Vec::new();
    if has_streams {
        if config.split_bandwidth {
            if down {
                p.push(Panel::Download);
            }
            if up {
                p.push(Panel::Upload);
            }
        } else {
            p.push(Panel::Bandwidth);
        }
    }
    p.push(Panel::Latency);
    if has_streams && config.transferred {
        p.push(Panel::Transferred);
    }
    assert(p@ =~= panels(*config, *r));
    p
}

/// How a stream's line is drawn in a split bandwidth panel.
#[derive(Clone, Copy, Debug, PartialEq, Eq)]
pub enum Shade {
    /// The group's last line, which sums all its streams.
    Main,
    Even,
    Odd,
}

pub fn stream_shade(i: usize, n: usize) -> (r: Shade)
    requires
        i < n,
    ensures
        r == (if i == n - 1 {
            Shade::Main
        } else if i % 2 == 0 {
            Shade::Even
        } else {
            Shade::Odd
        }),
{
    if i == n - 1 {
        Shade::Main
    } else if i % 2 == 0 {
        Shade::Even
    } else {
        Shade::Odd
    }
}

/// A line of the combined bandwidth panel.
#[derive(Clone, Copy, Debug, PartialEq, Eq)]
pub enum Direction {
    Both,
    Upload,
    Download,
}

/// The lines of the combined bandwidth panel, in drawing order: both
/// directions at once where measured, then each direction that has a group.
pub fn bandwidth_lines(t: &TestResult) -> (r: Vec<Direction>)
    ensures
        r@ == (if t.both_bytes is Some {
            seq![Direction::Both]
        } else {
            Seq::empty()
        }) + (if t.upload_bytes is Some || t.both_upload_bytes is Some {
            seq![Direction::Upload]
        } else {
            Seq::empty()
        }) + (if t.download_bytes is Some || t.both_download_bytes is Some {
            seq![Direction::Download]
        } else {
            Seq::empty()
        }),
{
    let mut r: Vec<Direction> = Vec::new();
    if t.both_bytes.is_some() {
        r.push(Direction::Both);
    }
    if t.upload_bytes.is_some() || t.both_upload_bytes.is_some() {
        r.push(Direction::Upload);
    }
    if t.download_bytes.is_some() || t.both_download_bytes.is_some() {
        r.push(Direction::Download);
    }
    assert(r@ =~= (if t.both_bytes is Some {
        seq![Direction::Both]
    } else {
        Seq::empty()
    }) + (if t.upload_bytes is Some || t.both_upload_bytes is Some {
        seq![Direction::Upload]
    } else {
        Seq::empty()
    }) + (if t.download_bytes is Some || t.both_download_bytes is Some {
        seq![Direction::Download]
    } else {
        Seq::empty()
    }));
    r
}

} // verus!
