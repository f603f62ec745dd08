use crusader::model::{plan_groups, GroupPlan, RawConfig, RawLatency, RawPing};

fn config(download: bool, upload: bool, both: bool, streams: u64) -> RawConfig {
    RawConfig {
        download,
        upload,
        both,
        streams,
        stagger: 0,
        load_duration: 2_000_000,
        grace_duration: 1_000_000,
        ping_interval: 5_000,
        bandwidth_interval: 20_000,
    }
}

#[test]
fn answered_latency_adds_both_legs() {
    let l = RawLatency::answered(50_000, 30_000).unwrap();
    assert_eq!(l.up, 50_000);
    assert_eq!(l.down(), Some(30_000));
    assert_eq!(l.total, Some(80_000));
    assert!(RawLatency::answered(u64::MAX, 1).is_none());
}

#[test]
fn lost_reply_has_no_round_trip() {
    let l = RawLatency::reply_lost(50_000);
    assert_eq!(l.down, None);
    assert_eq!(l.total, None);
    let p = RawPing { index: 0, sent: 0, latency: Some(l) };
    assert!(p.lost());
    let q = RawPing { index: 1, sent: 0, latency: None };
    assert!(q.lost());
    let r = RawPing { index: 2, sent: 0, latency: RawLatency::answered(1, 1) };
    assert!(!r.lost());
}

#[test]
fn stream_plan_counts_both_twice() {
    let plan = plan_groups(&config(true, true, true, 4));
    let total: u64 = plan.iter().map(|g| g.streams).sum();
    assert_eq!(total, 16);
    assert_eq!(plan.len(), 4);
    assert_eq!(plan[2], GroupPlan { download: true, both: true, streams: 4 });
}

#[test]
fn stream_plan_single_direction() {
    let plan = plan_groups(&config(false, true, false, 3));
    assert_eq!(plan, vec![GroupPlan { download: false, both: false, streams: 3 }]);
    assert!(plan_groups(&config(false, false, false, 3)).is_empty());
}
