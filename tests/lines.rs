use pipedash::lines::{Lines, Timestamp};
use pipedash::timeline::BeatPosition;

#[test]
fn insert_twice_is_idempotent() {
    let mut lines: Lines<BeatPosition> = Lines::new();
    assert!(lines.insert(BeatPosition::from_beats(3)));
    assert_eq!(lines.len(), 1);
    assert!(!lines.insert(BeatPosition::from_beats(3)));
    assert_eq!(lines.len(), 1);
    assert_eq!(lines.get_positions().len(), 1);
}

#[test]
fn positions_come_out_ascending() {
    let mut lines: Lines<Timestamp> = Lines::new();
    for n in [50i64, -3, 20, 7, 20, 0] {
        lines.insert(Timestamp::from_nanos(n));
    }
    let got: Vec<i64> = lines.get_positions().iter().map(|t| t.as_nanos()).collect();
    assert_eq!(got, vec![-3, 0, 7, 20, 50]);
}

#[test]
fn remove_reports_presence() {
    let mut lines: Lines<BeatPosition> = Lines::new();
    assert!(lines.empty());
    lines.insert(BeatPosition::from_ticks(10));
    lines.insert(BeatPosition::from_ticks(20));
    assert!(!lines.remove(BeatPosition::from_ticks(15)));
    assert!(lines.remove(BeatPosition::from_ticks(10)));
    assert!(!lines.remove(BeatPosition::from_ticks(10)));
    assert_eq!(lines.len(), 1);
    assert!(lines.remove(BeatPosition::from_ticks(20)));
    assert!(lines.empty());
}
