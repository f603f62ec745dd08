use crusader::monitor::{monitor_loss, monitor_series, MonitorPoint, MonitorState, PingHistory};
use crusader::plot::{Leg, LossSide};

fn point(sent: u64, up: Option<u64>, total: Option<u64>, pending: bool) -> MonitorPoint {
    MonitorPoint { sent, up, total, pending }
}

#[test]
fn history_keeps_the_most_recent_pings() {
    let mut h = PingHistory::new(2);
    assert_eq!(h.limit(), 2);
    h.push(point(1, None, None, true));
    h.push(point(2, None, None, true));
    h.push(point(3, None, None, true));
    assert_eq!(h.len(), 2);
    let sent: Vec<u64> = h.points().iter().map(|p| p.sent).collect();
    assert_eq!(sent, vec![2, 3]);
    h.set(0, point(2, Some(5), Some(9), false));
    assert_eq!(h.points()[0], point(2, Some(5), Some(9), false));
}

#[test]
fn history_without_room_stays_empty() {
    let mut h = PingHistory::new(0);
    h.push(point(1, None, None, true));
    assert_eq!(h.len(), 0);
}

#[test]
fn monitor_series_and_losses() {
    let points = vec![
        point(10, Some(4), Some(10), false),
        point(20, Some(4), None, false),
        point(30, None, None, false),
        point(40, None, None, true),
        point(50, Some(8), Some(5), false),
    ];
    assert_eq!(monitor_series(&points, Leg::Up), vec![(10, 4), (20, 4), (50, 8)]);
    assert_eq!(monitor_series(&points, Leg::Down), vec![(10, 6), (50, 0)]);
    assert_eq!(monitor_series(&points, Leg::Total), vec![(10, 10), (50, 5)]);
    assert_eq!(
        monitor_loss(&points),
        vec![(20, LossSide::ClientMissed), (30, LossSide::ServerMissed)]
    );
}

#[test]
fn monitor_status_text() {
    assert_eq!(MonitorState::Connecting.status(), "Connecting..");
    assert_eq!(MonitorState::Syncing.status(), "Synchronizing clocks..");
    assert_eq!(MonitorState::Monitoring.status(), "");
}
