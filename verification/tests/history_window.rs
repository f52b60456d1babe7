use dashdust::history::{push_hist, record_snapshot, HISTORY, HISTORY_SIZE};
use std::collections::VecDeque;

#[test]
fn push_hist_appends_until_full() {
    let mut h: Vec<f32> = Vec::new();
    push_hist(&mut h, 1.5);
    push_hist(&mut h, 2.5);
    assert_eq!(h, vec![1.5, 2.5]);
}

#[test]
fn push_hist_keeps_the_latest_sixty() {
    let mut h: Vec<u32> = Vec::new();
    for v in 0..150u32 {
        push_hist(&mut h, v);
        assert!(h.len() <= HISTORY);
        assert_eq!(*h.last().unwrap(), v);
    }
    assert_eq!(h.len(), 60);
    assert_eq!(h, (90..150).collect::<Vec<u32>>());
}

#[test]
fn record_snapshot_drops_the_oldest() {
    let mut hist: VecDeque<String> = VecDeque::new();
    for i in 0..61 {
        record_snapshot(&mut hist, format!("m{}", i));
    }
    assert_eq!(hist.len(), HISTORY_SIZE);
    assert_eq!(hist.front().unwrap(), "m1");
    assert_eq!(hist.back().unwrap(), "m60");
}
