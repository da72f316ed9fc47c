use concurrent_pqueue::{PriorityQueue, UpdateError, VERSION};

fn id(text: &str) -> String {
    text.to_string()
}

#[test]
fn new_queue_is_empty() {
    let mut queue = PriorityQueue::new();
    assert_eq!(queue.peek(), None);
    assert_eq!(queue.next(), None);
    assert_eq!(queue.score(&id("ghost")), None);
    let stats = queue.stats();
    assert_eq!(stats.updates, 0);
    assert_eq!(stats.items, 0);
    assert_eq!(stats.pools, 0);
    assert_eq!(stats.version, VERSION);
}

#[test]
fn update_inserts_then_adds() {
    let mut queue = PriorityQueue::new();
    assert_eq!(queue.update(id("x"), 10), Ok((None, 10)));
    assert_eq!(queue.update(id("x"), 20), Ok((Some(10), 30)));
    assert_eq!(queue.update(id("x"), -45), Ok((Some(30), -15)));
    assert_eq!(queue.score(&id("x")), Some(-15));
}

#[test]
fn score_is_the_sum_of_the_updates() {
    let mut queue = PriorityQueue::new();
    let deltas: [i64; 6] = [7, -3, 0, 1000, -2000, 5];
    let mut sum: i64 = 0;
    for delta in deltas {
        queue.update(id("a"), delta).unwrap();
        queue.update(id("other"), 1).unwrap();
        sum += delta;
    }
    assert_eq!(sum, -991);
    assert_eq!(queue.score(&id("a")), Some(-991));
}

#[test]
fn highest_score_leaves_first() {
    let mut queue = PriorityQueue::new();
    queue.update(id("low"), -5).unwrap();
    queue.update(id("high"), 50).unwrap();
    queue.update(id("mid"), 7).unwrap();
    assert_eq!(queue.next(), Some(id("high")));
    assert_eq!(queue.next(), Some(id("mid")));
    assert_eq!(queue.next(), Some(id("low")));
    assert_eq!(queue.next(), None);
}

#[test]
fn one_tier_is_first_come_first_served() {
    let mut queue = PriorityQueue::new();
    queue.update(id("p"), 5).unwrap();
    queue.update(id("q"), 5).unwrap();
    queue.update(id("r"), 5).unwrap();
    assert_eq!(queue.next(), Some(id("p")));
    assert_eq!(queue.next(), Some(id("q")));
    assert_eq!(queue.next(), Some(id("r")));
}

#[test]
fn an_item_that_comes_back_to_a_tier_goes_last() {
    let mut queue = PriorityQueue::new();
    queue.update(id("p"), 5).unwrap();
    queue.update(id("q"), 5).unwrap();
    queue.update(id("r"), 5).unwrap();
    queue.update(id("p"), 5).unwrap();
    assert_eq!(queue.peek(), Some(id("p")));
    queue.update(id("p"), -5).unwrap();
    assert_eq!(queue.next(), Some(id("q")));
    assert_eq!(queue.next(), Some(id("r")));
    assert_eq!(queue.next(), Some(id("p")));
}

#[test]
fn an_update_by_zero_moves_the_item_to_the_tail() {
    let mut queue = PriorityQueue::new();
    queue.update(id("p"), 5).unwrap();
    queue.update(id("q"), 5).unwrap();
    assert_eq!(queue.update(id("p"), 0), Ok((Some(5), 5)));
    assert_eq!(queue.next(), Some(id("q")));
    assert_eq!(queue.next(), Some(id("p")));
}

#[test]
fn peek_shows_what_next_returns() {
    let mut queue = PriorityQueue::new();
    queue.update(id("a"), 3).unwrap();
    queue.update(id("b"), 9).unwrap();
    queue.update(id("c"), 9).unwrap();
    while let Some(shown) = queue.peek() {
        assert_eq!(queue.peek(), Some(shown.clone()));
        assert_eq!(queue.next(), Some(shown));
    }
    assert_eq!(queue.stats().items, 0);
}

#[test]
fn an_item_never_updated_has_no_score_and_never_leaves() {
    let mut queue = PriorityQueue::new();
    queue.update(id("a"), 1).unwrap();
    queue.update(id("b"), 2).unwrap();
    assert_eq!(queue.score(&id("ghost")), None);
    while let Some(item) = queue.next() {
        assert_ne!(item, id("ghost"));
    }
    assert_eq!(queue.score(&id("ghost")), None);
}

#[test]
fn counters_follow_items_and_pools() {
    let mut queue = PriorityQueue::new();
    queue.update(id("a"), 10).unwrap();
    queue.update(id("b"), 10).unwrap();
    queue.update(id("c"), 20).unwrap();
    let stats = queue.stats();
    assert_eq!((stats.updates, stats.items, stats.pools), (3, 3, 2));
    queue.update(id("a"), 10).unwrap();
    let stats = queue.stats();
    assert_eq!((stats.updates, stats.items, stats.pools), (4, 3, 2));
    queue.update(id("b"), 5).unwrap();
    let stats = queue.stats();
    assert_eq!((stats.updates, stats.items, stats.pools), (5, 3, 2));
    assert_eq!(queue.next(), Some(id("c")));
    assert_eq!(queue.next(), Some(id("a")));
    let stats = queue.stats();
    assert_eq!((stats.updates, stats.items, stats.pools), (5, 1, 1));
    assert_eq!(queue.next(), Some(id("b")));
    let stats = queue.stats();
    assert_eq!((stats.updates, stats.items, stats.pools), (5, 0, 0));
}

#[test]
fn an_update_that_overflows_changes_nothing() {
    let mut queue = PriorityQueue::new();
    queue.update(id("big"), i64::MAX).unwrap();
    queue.update(id("small"), i64::MIN).unwrap();
    assert_eq!(queue.update(id("big"), 1), Err(UpdateError::ScoreOverflow));
    assert_eq!(queue.update(id("small"), -1), Err(UpdateError::ScoreOverflow));
    assert_eq!(queue.score(&id("big")), Some(i64::MAX));
    assert_eq!(queue.score(&id("small")), Some(i64::MIN));
    let stats = queue.stats();
    assert_eq!((stats.updates, stats.items, stats.pools), (2, 2, 2));
    assert_eq!(queue.update(id("big"), -1), Ok((Some(i64::MAX), i64::MAX - 1)));
    assert_eq!(queue.peek(), Some(id("big")));
}

#[test]
fn uptime_is_read_off_the_clock() {
    let queue = PriorityQueue::new();
    let stats = queue.stats();
    assert!(stats.uptime >= 0);
    assert!(stats.uptime < 60);
}
