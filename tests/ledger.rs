use lockstep_udp::ledger::RecvLog;

fn ledger_of(label: &str, nos: &[u32]) -> RecvLog {
    let mut log = RecvLog::new(label);
    for &n in nos {
        log.record(n);
    }
    log
}

#[test]
fn ranges_text_of_mixed_runs() {
    let log = ledger_of("T", &[12, 1, 8, 2, 3, 5, 7, 9]);
    assert_eq!(log.build_ranges_summary(), "1-3, 5, 7-9, 12");
    assert_eq!(log.ranges(), vec![(1, 3), (5, 5), (7, 9), (12, 12)]);
}

#[test]
fn empty_ledger_reports_fallback() {
    let log = RecvLog::new("EMPTY");
    assert_eq!(log.build_ranges_summary(), "");
    let s = log.summary();
    assert_eq!(s.label, "EMPTY");
    assert_eq!(s.min, 0);
    assert_eq!(s.max, 0);
    assert_eq!(s.total, 0);
    assert_eq!(s.ranges, "");
    assert!(log.ranges().is_empty());
}

#[test]
fn single_number_is_one_token() {
    let log = ledger_of("T", &[4]);
    assert_eq!(log.build_ranges_summary(), "4");
}

#[test]
fn record_reports_summary() {
    let mut log = RecvLog::new("SERVER-RECV");
    log.record(10);
    log.record(3);
    let s = log.record(4);
    assert_eq!(s.label, "SERVER-RECV");
    assert_eq!(s.min, 3);
    assert_eq!(s.max, 10);
    assert_eq!(s.total, 3);
    assert_eq!(s.ranges, "3-4, 10");
    assert_eq!(log.label(), "SERVER-RECV");
}

#[test]
fn recording_twice_changes_nothing() {
    let mut once = ledger_of("T", &[1, 2, 7]);
    let mut twice = ledger_of("T", &[1, 2, 7]);
    let a = once.record(5);
    twice.record(5);
    let b = twice.record(5);
    assert_eq!(a, b);
    assert_eq!(b.total, 4);
    assert_eq!(b.ranges, "1-2, 5, 7");
}

#[test]
fn extreme_values_render_in_decimal() {
    let log = ledger_of("T", &[0, u32::MAX, u32::MAX - 1, 1]);
    assert_eq!(log.build_ranges_summary(), "0-1, 4294967294-4294967295");
    let s = log.summary();
    assert_eq!(s.min, 0);
    assert_eq!(s.max, u32::MAX);
}

#[test]
fn ranges_reexpand_to_the_recorded_set() {
    let nos: Vec<u32> = vec![40, 41, 42, 44, 46, 47, 99, 100, 98, 2];
    let log = ledger_of("T", &nos);
    let mut expanded: Vec<u32> = Vec::new();
    let runs = log.ranges();
    for w in runs.windows(2) {
        assert!(w[0].1 + 1 < w[1].0);
    }
    for (a, b) in runs {
        for x in a..=b {
            expanded.push(x);
        }
    }
    let mut sorted = nos.clone();
    sorted.sort();
    assert_eq!(expanded, sorted);
}
