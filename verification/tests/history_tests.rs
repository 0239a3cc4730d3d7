use rpi_monitor::history::{History, HISTORY_SIZE};

#[test]
fn history_keeps_the_last_samples() {
    let mut h: History<u32> = History::new();
    assert_eq!(h.len(), 0);
    for i in 0..305u32 {
        h.push(i);
        assert!(h.len() <= HISTORY_SIZE);
    }
    assert_eq!(h.len(), 300);
    let kept: Vec<u32> = h.samples().iter().copied().collect();
    assert_eq!(kept.first(), Some(&5));
    assert_eq!(kept.last(), Some(&304));
    assert_eq!(kept, (5..305).collect::<Vec<u32>>());
}

#[test]
fn history_below_capacity_keeps_all() {
    let mut h: History<&str> = History::new();
    h.push("a");
    h.push("b");
    let kept: Vec<&str> = h.samples().iter().copied().collect();
    assert_eq!(kept, vec!["a", "b"]);
}
