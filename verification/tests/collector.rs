use bft_sync::collector::Collector;

#[test]
fn first_vote_counts_and_repeat_does_not() {
    let mut c = Collector::new();
    assert_eq!(c.count(1), 0);
    assert!(c.record(7, 1));
    assert_eq!(c.count(1), 1);
    assert!(!c.record(7, 1));
    assert_eq!(c.count(1), 1);
    assert!(!c.record(7, 1));
    assert_eq!(c.count(1), 1);
}

#[test]
fn count_is_the_number_of_distinct_senders() {
    let mut c = Collector::new();
    let deliveries = [3u32, 1, 3, 2, 1, 1, 3, 0, 2];
    let mut last = 0;
    let mut seen: Vec<u32> = Vec::new();
    for sender in deliveries {
        c.record(sender, 9);
        if !seen.contains(&sender) {
            seen.push(sender);
        }
        let now = c.count(9);
        assert!(now >= last);
        assert_eq!(now, seen.len());
        last = now;
    }
    assert_eq!(c.count(9), 4);
    assert_eq!(c.senders_of(9), vec![3, 1, 2, 0]);
}

#[test]
fn views_are_counted_apart() {
    let mut c = Collector::new();
    assert!(c.record(1, 5));
    assert!(c.record(1, 6));
    assert!(c.record(2, 6));
    assert_eq!(c.count(5), 1);
    assert_eq!(c.count(6), 2);
    assert_eq!(c.count(7), 0);
    assert_eq!(c.senders_of(6), vec![1, 2]);
    assert_eq!(c.senders_of(7), Vec::<u32>::new());
}

#[test]
fn reset_forgets_every_vote() {
    let mut c = Collector::new();
    c.record(1, 5);
    c.record(2, 5);
    c.record(2, 6);
    c.reset();
    assert_eq!(c.count(5), 0);
    assert_eq!(c.count(6), 0);
    assert!(c.record(1, 5));
    assert_eq!(c.count(5), 1);
}
