use crusader::gui::{ClientAction, ClientEvent, ClientState, Outcome, ServerAction, ServerEvent, ServerState, Tab, tab_after, TestResult};
use crusader::model::{RawConfig, RawLatency, RawPing, RawResult, RawStreamGroup};
use crusader::plot::{
    bandwidth_lines, latency_segments, loss_mark, plot_panels, stream_shade, Direction, Leg,
    LossSide, Panel, PlotConfig, Shade,
};

fn raw(version: u64, groups: Vec<RawStreamGroup>, pings: Vec<RawPing>) -> RawResult {
    RawResult {
        version,
        generated_by: "crusader test".to_string(),
        config: RawConfig {
            download: true,
            upload: true,
            both: true,
            streams: 2,
            stagger: 0,
            load_duration: 2_000_000,
            grace_duration: 1_000_000,
            ping_interval: 5_000,
            bandwidth_interval: 1000,
        },
        ipv6: false,
        server_latency: 1_000,
        server_overload: false,
        load_termination_timeout: false,
        start: 1000,
        duration: 2000,
        stream_groups: groups,
        pings,
    }
}

fn group(download: bool, both: bool, streams: Vec<Vec<(u64, u64)>>) -> RawStreamGroup {
    RawStreamGroup { download, both, streams }
}

fn ping(index: u64, sent: u64, latency: Option<RawLatency>) -> RawPing {
    RawPing { index, sent, latency }
}

#[test]
fn downward_tick_for_reply_lost_in_version_two() {
    let p = ping(0, 0, Some(RawLatency { up: 50_000, down: None, total: None }));
    assert_eq!(loss_mark(2, &p), Some(LossSide::ClientMissed));
    assert_eq!(loss_mark(1, &p), Some(LossSide::Unknown));
    let q = ping(1, 0, None);
    assert_eq!(loss_mark(2, &q), Some(LossSide::ServerMissed));
    let r = ping(2, 0, RawLatency::answered(1, 2));
    assert_eq!(loss_mark(2, &r), None);
}

#[test]
fn reduction_sums_groups_and_directions() {
    let groups = vec![
        group(true, false, vec![vec![(0, 0), (2000, 200)], vec![(1000, 0), (2000, 100)]]),
        group(false, false, vec![vec![(0, 0), (1000, 50)]]),
        group(true, true, vec![vec![(0, 0), (1000, 10)]]),
        group(false, true, vec![vec![(0, 0), (1000, 20)]]),
    ];
    let r = raw(2, groups, vec![]);
    assert!(r.is_reducible());
    assert!(r.download() && r.upload() && r.both());
    assert_eq!(r.streams(), 5);
    let t = r.to_test_result();
    assert_eq!(t.download_bytes, Some(vec![(0, 0), (1000, 100), (2000, 300)]));
    assert_eq!(t.upload_bytes, Some(vec![(0, 0), (1000, 50)]));
    assert_eq!(t.both_download_bytes, Some(vec![(0, 0), (1000, 10)]));
    assert_eq!(t.both_upload_bytes, Some(vec![(0, 0), (1000, 20)]));
    assert_eq!(t.combined_download_bytes, vec![(0, 0), (1000, 110), (2000, 310)]);
    assert_eq!(t.combined_upload_bytes, vec![(0, 0), (1000, 70)]);
    assert_eq!(t.both_bytes, Some(vec![(0, 0), (1000, 30)]));
    assert_eq!(t.stream_groups.len(), 4);
    assert_eq!(t.stream_groups[0].streams[0].data, vec![(0, 0), (1000, 100), (2000, 200)]);
    assert_eq!(t.stream_groups[0].streams[1].data, vec![(0, 0), (1000, 100), (2000, 300)]);
    assert_eq!(t.start, 1000);
    assert_eq!(t.raw_result.version, 2);
}

#[test]
fn reduction_without_streams_is_empty() {
    let r = raw(2, vec![], vec![]);
    assert!(r.is_reducible());
    let t = r.to_test_result();
    assert!(t.combined_download_bytes.is_empty());
    assert!(t.combined_upload_bytes.is_empty());
    assert_eq!(t.both_bytes, None);
    assert_eq!(t.download_bytes, None);
}

#[test]
fn unreducible_results_are_detected() {
    let mut r = raw(2, vec![group(true, false, vec![vec![(10, 0), (5, 1)]])], vec![]);
    assert!(!r.is_reducible());
    r.stream_groups = vec![group(true, false, vec![vec![(0, 0)]])];
    assert!(r.is_reducible());
    r.config.bandwidth_interval = 0;
    assert!(!r.is_reducible());
    let big = raw(
        2,
        vec![group(true, false, vec![vec![(0, u64::MAX)], vec![(0, 1)]])],
        vec![],
    );
    assert!(!big.is_reducible());
}

#[test]
fn all_pings_lost_leaves_no_latency_and_full_loss() {
    let pings = vec![ping(0, 1000, None), ping(1, 2000, None), ping(2, 3000, None)];
    let r = raw(2, vec![], pings);
    let t = TestResult::new(r.to_test_result());
    assert!(t.latency.is_empty());
    assert!(t.up_latency.is_empty());
    assert_eq!(
        t.loss,
        vec![
            (0, LossSide::ServerMissed),
            (1000, LossSide::ServerMissed),
            (2000, LossSide::ServerMissed)
        ]
    );
}

#[test]
fn view_series_start_at_the_test_start() {
    let pings = vec![
        ping(0, 500, RawLatency::answered(1, 1)),
        ping(1, 1500, RawLatency::answered(10, 20)),
        ping(2, 2500, Some(RawLatency::reply_lost(7))),
    ];
    let r = raw(1, vec![group(true, false, vec![vec![(1000, 0), (2000, 125)]])], pings);
    let t = TestResult::new(r.to_test_result());
    assert_eq!(t.latency, vec![(500, 30)]);
    assert_eq!(t.up_latency, vec![(500, 10), (1500, 7)]);
    assert_eq!(t.down_latency, vec![(500, 20)]);
    assert_eq!(t.loss, vec![(1500, LossSide::Unknown)]);
    assert_eq!(t.download.len(), 4);
    assert_eq!(t.download[2].bits, 1000);
    assert!(t.upload.is_empty());
}

#[test]
fn latency_runs_break_at_gaps() {
    let pings = vec![
        ping(0, 10, RawLatency::answered(1, 1)),
        ping(1, 20, RawLatency::answered(2, 2)),
        ping(2, 30, None),
        ping(3, 40, RawLatency::answered(3, 3)),
        ping(4, 50, Some(RawLatency::reply_lost(4))),
    ];
    let total = latency_segments(&pings, Leg::Total);
    assert_eq!(total, vec![vec![(10, 2), (20, 4)], vec![(40, 6)]]);
    let up = latency_segments(&pings, Leg::Up);
    assert_eq!(up, vec![vec![(10, 1), (20, 2)], vec![(40, 3), (50, 4)]]);
    assert!(latency_segments(&[], Leg::Down).is_empty());
}

#[test]
fn panels_follow_the_configuration() {
    let r = raw(2, vec![group(true, false, vec![vec![(0, 0)]])], vec![]);
    let mut c = PlotConfig::new();
    assert_eq!(plot_panels(&c, &r), vec![Panel::Bandwidth, Panel::Latency]);
    c.split_bandwidth = true;
    c.transferred = true;
    assert_eq!(plot_panels(&c, &r), vec![Panel::Download, Panel::Latency, Panel::Transferred]);
    let both = raw(2, vec![group(true, true, vec![vec![(0, 0)]])], vec![]);
    assert_eq!(
        plot_panels(&c, &both),
        vec![Panel::Download, Panel::Upload, Panel::Latency, Panel::Transferred]
    );
    let empty = raw(2, vec![], vec![]);
    assert_eq!(plot_panels(&c, &empty), vec![Panel::Latency]);
}

#[test]
fn shades_of_split_bandwidth_lines() {
    assert_eq!(stream_shade(3, 4), Shade::Main);
    assert_eq!(stream_shade(0, 4), Shade::Even);
    assert_eq!(stream_shade(1, 4), Shade::Odd);
}

#[test]
fn bandwidth_lines_of_a_result() {
    let r = raw(2, vec![group(true, false, vec![vec![(0, 0)]]), group(false, true, vec![vec![(0, 0)]])], vec![]);
    let t = r.to_test_result();
    assert_eq!(bandwidth_lines(&t), vec![Direction::Both, Direction::Upload, Direction::Download]);
}

#[test]
fn server_control_cycle() {
    let (s, a) = ServerState::Stopped(None).step(ServerEvent::StartPressed);
    assert_eq!((s.clone(), a), (ServerState::Starting, ServerAction::Start));
    let (s, a) = s.step(ServerEvent::Started(Err("port in use".to_string())));
    assert_eq!((s.clone(), a), (ServerState::Stopped(Some("port in use".to_string())), ServerAction::Nothing));
    let (s, _) = s.step(ServerEvent::StartPressed);
    let (s, _) = s.step(ServerEvent::Started(Ok(())));
    assert_eq!(s, ServerState::Running);
    let (s, a) = s.step(ServerEvent::StopPressed);
    assert_eq!((s.clone(), a), (ServerState::Stopping, ServerAction::Stop));
    let (s, a) = s.step(ServerEvent::Done);
    assert_eq!((s, a), (ServerState::Stopped(None), ServerAction::Nothing));
}

#[test]
fn client_control_cycle() {
    let (s, a) = ClientState::Stopped.step(ClientEvent::StartPressed);
    assert_eq!((s, a), (ClientState::Running, ClientAction::Start));
    let (s, a) = s.step(ClientEvent::StopPressed);
    assert_eq!((s, a), (ClientState::Stopping, ClientAction::Abort));
    let (s, a) = s.step(ClientEvent::Finished(Outcome::Aborted));
    assert_eq!((s, a), (ClientState::Stopped, ClientAction::Report(Outcome::Aborted)));
    let (s, a) = s.step(ClientEvent::StopPressed);
    assert_eq!((s, a), (ClientState::Stopped, ClientAction::Nothing));
    assert_eq!(tab_after(Tab::Client, &Outcome::Completed), Tab::Result);
    assert_eq!(tab_after(Tab::Server, &Outcome::Completed), Tab::Server);
    assert_eq!(tab_after(Tab::Client, &Outcome::Failed("x".to_string())), Tab::Client);
}
