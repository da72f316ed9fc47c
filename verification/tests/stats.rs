use concurrent_pqueue::{PQueueStats, PQueueStatsTracker, PriorityQueue, VERSION};

fn seconds_ago(seconds: i64) -> chrono::NaiveDateTime {
    chrono::Utc::now().naive_utc() - chrono::Duration::seconds(seconds)
}

#[test]
fn the_version_is_fixed() {
    assert_eq!(VERSION, "0.1.0");
}

#[test]
fn a_snapshot_copies_the_counters() {
    let tracker = PQueueStatsTracker { start_time: seconds_ago(0), updates: 12, items: 5, pools: 3 };
    let stats = PQueueStats::at(&tracker, 77);
    assert_eq!(stats.uptime, 77);
    assert_eq!(stats.version, "0.1.0");
    assert_eq!(stats.updates, 12);
    assert_eq!(stats.items, 5);
    assert_eq!(stats.pools, 3);
}

#[test]
fn uptime_counts_whole_seconds_from_the_start() {
    let tracker = PQueueStatsTracker { start_time: seconds_ago(100), updates: 0, items: 0, pools: 0 };
    let uptime = tracker.uptime();
    assert!((100..=102).contains(&uptime), "{}", uptime);
    let stats = PQueueStats::from(&tracker);
    assert!((100..=102).contains(&stats.uptime), "{}", stats.uptime);
    assert_eq!(stats.updates, 0);
}

#[test]
fn uptime_is_negative_for_a_start_in_the_future() {
    let tracker = PQueueStatsTracker { start_time: seconds_ago(-50), updates: 0, items: 0, pools: 0 };
    let uptime = tracker.uptime();
    assert!((-50..=-48).contains(&uptime), "{}", uptime);
}

#[test]
fn a_queue_counts_its_uptime_from_its_start() {
    let start = seconds_ago(3600);
    let mut queue = PriorityQueue::since(start);
    assert_eq!(queue.start_time(), start);
    queue.update("a".to_string(), 1).unwrap();
    queue.next();
    assert_eq!(queue.start_time(), start);
    let stats = queue.stats();
    assert!((3600..=3602).contains(&stats.uptime), "{}", stats.uptime);
    assert_eq!((stats.updates, stats.items, stats.pools), (1, 0, 0));
}

#[test]
fn snapshots_can_be_cloned_and_shown() {
    let stats = PQueueStats { uptime: 1, version: "v".to_string(), updates: 2, items: 3, pools: 4 };
    let copy = stats.clone();
    assert_eq!(format!("{:?}", copy), format!("{:?}", stats));
    assert!(format!("{:?}", copy).contains("updates: 2"));
}
