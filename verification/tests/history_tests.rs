use allmux::history::{parse_history_line, History, HISTORY_WINDOW_SECS, MAX_TIMESTAMPS_PER_ENTRY};

const NOW: u64 = 1_700_000_000;

#[test]
fn parse_line_reads_key_and_timestamps() {
    let (key, ts) = parse_history_line("ssh:web\t1,2,x,3").unwrap();
    assert_eq!(key, "ssh:web");
    assert_eq!(ts.into_iter().collect::<Vec<_>>(), vec![1, 2, 3]);
}

#[test]
fn parse_line_rejects_bad_lines() {
    assert!(parse_history_line("no tab here").is_none());
    assert!(parse_history_line("\t1,2").is_none());
    assert!(parse_history_line("key\tx,y").is_none());
    assert!(parse_history_line("key\t").is_none());
    // A second tab ends the timestamps.
    let (_, ts) = parse_history_line("key\t5\t6").unwrap();
    assert_eq!(ts.into_iter().collect::<Vec<_>>(), vec![5]);
}

#[test]
fn from_text_later_lines_win_and_bad_lines_are_skipped() {
    let h = History::from_text("a\t1\ngarbage\nb\t2,3\na\t9\n");
    assert_eq!(h.recent_access_ages("a", 9), vec![0]);
    assert_eq!(h.recent_access_ages("b", 3), vec![0, 1]);
    assert!(h.recent_access_ages("garbage", 3).is_empty());
}

#[test]
fn record_access_appends_now() {
    let mut h = History::new();
    h.record_access("k", NOW);
    h.record_access("k", NOW + 10);
    assert_eq!(h.recent_access_ages("k", NOW + 10), vec![0, 10]);
}

#[test]
fn record_access_drops_accesses_older_than_thirty_days() {
    let mut h = History::new();
    h.record_access("k", NOW - HISTORY_WINDOW_SECS - 1);
    h.record_access("k", NOW - 100);
    h.record_access("k", NOW);
    assert_eq!(h.to_text(), format!("k\t{},{}", NOW - 100, NOW));
}

#[test]
fn record_access_keeps_at_most_128() {
    let mut h = History::new();
    for i in 0..200u64 {
        h.record_access("k", NOW + i);
    }
    let ages = h.recent_access_ages("k", NOW + 199);
    assert_eq!(ages.len(), MAX_TIMESTAMPS_PER_ENTRY);
    assert_eq!(ages[0], 0);
    assert_eq!(*ages.last().unwrap(), 127);
}

#[test]
fn recent_ages_stop_at_first_old_access() {
    // An old access in the middle stops the count; the ones before it do not count.
    let h = History::from_text(&format!("k\t{},{},{}", NOW - 10, NOW - 40 * 86_400, NOW - 5));
    assert_eq!(h.recent_access_ages("k", NOW), vec![5]);
    // A clock before the accesses gives age 0.
    assert_eq!(h.recent_access_ages("k", NOW - 6), vec![0]);
}

#[test]
fn to_text_sorts_lines() {
    let mut h = History::new();
    h.record_access("tmux:/b", 5);
    h.record_access("ssh:a", 7);
    h.record_access("docker:c", 6);
    assert_eq!(h.to_text(), "docker:c\t6\nssh:a\t7\ntmux:/b\t5");
    assert_eq!(History::new().to_text(), "");
}

#[test]
fn written_history_reads_back() {
    let mut h = History::new();
    h.record_access("ssh:web", NOW);
    h.record_access("ssh:web", NOW + 1);
    h.record_access("tmux:/home/u/x y", NOW + 2);
    let text = h.to_text();
    let back = History::from_text(&text);
    assert_eq!(back.to_text(), text);
    assert_eq!(back.recent_access_ages("ssh:web", NOW + 1), vec![0, 1]);
}

#[test]
fn default_is_empty() {
    assert_eq!(History::default().to_text(), "");
}
