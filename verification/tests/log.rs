use bft_sync::log::{Log, LogEntry};

fn entry(seq: u64, digest: u64) -> LogEntry {
    LogEntry { seq, view: 0, digest }
}

fn contents(log: &Log) -> Vec<LogEntry> {
    let mut out = Vec::new();
    let mut i = 0;
    while let Some(e) = log.get(i) {
        out.push(e);
        i += 1;
    }
    assert_eq!(out.len(), log.len());
    out
}

fn sample() -> Log {
    let mut log = Log::new();
    for seq in [1u64, 2, 3, 5, 8] {
        assert!(log.append_accepted(entry(seq, seq * 10)));
    }
    log
}

#[test]
fn empty_log() {
    let log = Log::new();
    assert_eq!(log.len(), 0);
    assert_eq!(log.decided_len(), 0);
    assert_eq!(log.get(0), None);
    assert_eq!(log.last_accepted_proof(), None);
    assert_eq!(log.decided_up_to(), None);
}

#[test]
fn append_needs_a_higher_sequence_number() {
    let mut log = sample();
    assert!(!log.append_accepted(entry(8, 1)));
    assert!(!log.append_accepted(entry(4, 1)));
    assert!(log.append_accepted(entry(9, 90)));
    assert_eq!(log.len(), 6);
    assert_eq!(log.last_accepted_proof(), Some(entry(9, 90)));
}

#[test]
fn deciding_marks_a_prefix() {
    let mut log = sample();
    log.decide_through(3);
    assert_eq!(log.decided_len(), 3);
    assert_eq!(log.decided_up_to(), Some(3));
    log.decide_through(2);
    assert_eq!(log.decided_len(), 3);
    log.decide_through(7);
    assert_eq!(log.decided_len(), 4);
    assert_eq!(log.decided_up_to(), Some(5));
    log.decide_through(u64::MAX);
    assert_eq!(log.decided_len(), 5);
    assert_eq!(log.decided_up_to(), Some(8));
}

#[test]
fn discard_spares_what_is_decided() {
    let mut log = sample();
    log.decide_through(2);
    log.discard_after(3);
    assert_eq!(contents(&log), vec![entry(1, 10), entry(2, 20), entry(3, 30)]);
    log.discard_after(0);
    assert_eq!(contents(&log), vec![entry(1, 10), entry(2, 20)]);
    assert_eq!(log.decided_len(), 2);
    let mut other = sample();
    other.discard_after(u64::MAX);
    assert_eq!(other.len(), 5);
    other.discard_after(4);
    assert_eq!(other.len(), 3);
}

#[test]
fn reconcile_without_a_value_changes_nothing() {
    let mut log = sample();
    log.decide_through(2);
    log.reconcile(None);
    assert_eq!(contents(&log), contents(&sample()));
    assert_eq!(log.decided_len(), 2);
}

#[test]
fn reconcile_replaces_a_conflicting_entry() {
    let mut log = sample();
    log.decide_through(2);
    log.reconcile(Some(entry(5, 77)));
    assert_eq!(contents(&log), vec![entry(1, 10), entry(2, 20), entry(3, 30), entry(5, 77)]);
    assert_eq!(log.decided_len(), 2);
    assert_eq!(log.last_accepted_proof(), Some(entry(5, 77)));
}

#[test]
fn reconcile_appends_a_missing_value() {
    let mut log = sample();
    log.reconcile(Some(entry(12, 5)));
    assert_eq!(log.len(), 6);
    assert_eq!(log.get(5), Some(entry(12, 5)));
    let mut empty = Log::new();
    empty.reconcile(Some(entry(0, 1)));
    assert_eq!(contents(&empty), vec![entry(0, 1)]);
}

#[test]
fn reconcile_fills_a_gap_and_drops_what_lies_beyond() {
    let mut log = sample();
    log.reconcile(Some(entry(4, 44)));
    assert_eq!(contents(&log), vec![entry(1, 10), entry(2, 20), entry(3, 30), entry(4, 44)]);
    let mut first = sample();
    first.reconcile(Some(entry(0, 9)));
    assert_eq!(contents(&first), vec![entry(0, 9)]);
}

#[test]
fn reconcile_keeps_decided_entries() {
    let mut log = sample();
    log.decide_through(5);
    log.reconcile(Some(entry(5, 77)));
    assert_eq!(contents(&log), contents(&sample()));
    log.reconcile(Some(entry(2, 77)));
    assert_eq!(contents(&log), contents(&sample()));
    log.reconcile(Some(entry(4, 77)));
    assert_eq!(contents(&log), contents(&sample()));
    log.reconcile(Some(entry(6, 66)));
    assert_eq!(
        contents(&log),
        vec![entry(1, 10), entry(2, 20), entry(3, 30), entry(5, 50), entry(6, 66)]
    );
    assert_eq!(log.decided_len(), 4);
}

#[test]
fn reconcile_twice_is_reconcile_once() {
    let mut log = sample();
    log.decide_through(1);
    log.reconcile(Some(entry(3, 33)));
    let once = contents(&log);
    log.reconcile(Some(entry(3, 33)));
    assert_eq!(contents(&log), once);
    assert_eq!(once, vec![entry(1, 10), entry(2, 20), entry(3, 33)]);
}

#[test]
fn reconciled_logs_agree_up_to_the_value() {
    let mut a = Log::new();
    let mut b = Log::new();
    for seq in [1u64, 2, 3] {
        a.append_accepted(entry(seq, seq));
        b.append_accepted(entry(seq, seq));
    }
    a.append_accepted(entry(4, 100));
    a.append_accepted(entry(5, 101));
    b.append_accepted(entry(4, 200));
    a.decide_through(2);
    b.decide_through(3);
    a.reconcile(Some(entry(4, 300)));
    b.reconcile(Some(entry(4, 300)));
    assert_eq!(contents(&a), contents(&b));
    assert_eq!(contents(&a), vec![entry(1, 1), entry(2, 2), entry(3, 3), entry(4, 300)]);
}
