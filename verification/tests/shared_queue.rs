use concurrent_pqueue::PQueue;

#[test]
fn test_update_and_peek() {
    let queue = PQueue::new();
    queue.update("item1".to_string(), 10).unwrap();
    queue.update("item2".to_string(), 20).unwrap();
    assert_eq!(queue.peek(), Some("item2".to_string()));
}

#[test]
fn test_next() {
    let queue = PQueue::new();
    queue.update("item1".to_string(), 10).unwrap();
    queue.update("item2".to_string(), 20).unwrap();
    assert_eq!(queue.next(), Some("item2".to_string()));
    assert_eq!(queue.peek(), Some("item1".to_string()));
}

#[test]
fn test_update_existing_item() {
    let queue = PQueue::new();
    let (old_score, new_score) = queue.update("item1".to_string(), 10).unwrap();
    assert_eq!(old_score, None);
    assert_eq!(new_score, 10);

    let (old_score, new_score) = queue.update("item1".to_string(), 20).unwrap();
    assert_eq!(old_score, Some(10));
    assert_eq!(new_score, 30);

    assert_eq!(queue.score(&"item1".to_string()), Some(new_score));
}

#[test]
fn test_next_on_empty() {
    let queue = PQueue::new();
    assert_eq!(queue.next(), None);
}

#[test]
fn test_score_retrieval() {
    let queue = PQueue::new();
    queue.update("item1".to_string(), 10).unwrap();
    queue.update("item2".to_string(), 20).unwrap();
    assert_eq!(queue.score(&"item1".to_string()), Some(10));
    assert_eq!(queue.score(&"item2".to_string()), Some(20));
}

#[test]
fn test_score_after_update() {
    let queue = PQueue::new();
    queue.update("item1".to_string(), 10).unwrap();
    queue.update("item1".to_string(), 20).unwrap();
    assert_eq!(queue.score(&"item1".to_string()), Some(30));
}

#[test]
fn test_stats_after_operations() {
    let queue = PQueue::new();
    queue.update("item1".to_string(), 10).unwrap();
    queue.update("item2".to_string(), 20).unwrap();
    queue.next();
    let stats = queue.stats();
    assert_eq!(stats.updates, 2);
    assert_eq!(stats.items, 1);
    assert_eq!(stats.pools, 1);
}

#[test]
fn test_removal_of_items() {
    let queue = PQueue::new();
    queue.update("item1".to_string(), 10).unwrap();
    queue.update("item2".to_string(), 20).unwrap();
    queue.next();
    assert_eq!(queue.score(&"item2".to_string()), None);
}

#[test]
fn test_complex_scenario() {
    let queue = PQueue::new();
    let queue2 = queue.clone();
    queue.update("item1".to_string(), 10).unwrap();
    queue.update("item2".to_string(), 15).unwrap();
    queue2.update("item3".to_string(), 22).unwrap();
    queue2.update("item4".to_string(), 15).unwrap();
    queue.update("item1".to_string(), 6).unwrap();
    assert_eq!(queue.peek(), Some("item3".to_string()));
    queue.next();
    assert_eq!(queue.peek(), Some("item1".to_string()));
    queue.next();
    assert_eq!(queue.peek(), Some("item2".to_string()));
    queue.next();
    assert_eq!(queue.peek(), Some("item4".to_string()));
}
