use pipedash::music::{BeatRate, StaticBeatRate, StaticTimeSignature, TimeSignature};
use pipedash::timeline::{BeatPosition, TICKS_PER_BEAT};

fn beat(b: i32) -> BeatPosition {
    BeatPosition::from_beats(b)
}

#[test]
fn rate_when_no_changes() {
    let rate = BeatRate::new(StaticBeatRate::from_bpm(100));
    assert_eq!(rate.at_beat(beat(5)), StaticBeatRate::from_bpm(100));
}

#[test]
fn rate_before_changes() {
    let mut rate = BeatRate::new(StaticBeatRate::from_bpm(100));
    rate.add_change(beat(5), StaticBeatRate::from_bpm(120));
    assert_eq!(rate.at_beat(beat(3)), StaticBeatRate::from_bpm(100));
}

#[test]
fn rate_after_change() {
    let mut rate = BeatRate::new(StaticBeatRate::from_bpm(100));
    rate.add_change(beat(5), StaticBeatRate::from_bpm(120));
    rate.add_change(beat(10), StaticBeatRate::from_bpm(140));
    assert_eq!(rate.at_beat(beat(6)), StaticBeatRate::from_bpm(120));
}

#[test]
fn rate_at_change() {
    let mut rate = BeatRate::new(StaticBeatRate::from_bpm(100));
    rate.add_change(beat(5), StaticBeatRate::from_bpm(120));
    rate.add_change(beat(10), StaticBeatRate::from_bpm(140));
    assert_eq!(rate.at_beat(beat(5)), StaticBeatRate::from_bpm(120));
}

#[test]
fn rate_scenario_across_two_changes() {
    let mut rate = BeatRate::new(StaticBeatRate::from_bpm(100));
    rate.add_change(beat(5), StaticBeatRate::from_bpm(120));
    rate.add_change(beat(10), StaticBeatRate::from_bpm(140));
    assert_eq!(rate.at_beat(beat(3)), StaticBeatRate::from_bpm(100));
    assert_eq!(rate.at_beat(beat(5)), StaticBeatRate::from_bpm(120));
    assert_eq!(rate.at_beat(beat(6)), StaticBeatRate::from_bpm(120));
    assert_eq!(rate.at_beat(beat(10)), StaticBeatRate::from_bpm(140));
    assert_eq!(rate.at_beat(beat(11)), StaticBeatRate::from_bpm(140));
}

#[test]
fn rate_changes_added_out_of_order() {
    let mut rate = BeatRate::new(StaticBeatRate::from_bpm(100));
    rate.add_change(beat(10), StaticBeatRate::from_bpm(140));
    rate.add_change(beat(5), StaticBeatRate::from_bpm(120));
    assert_eq!(rate.at_beat(beat(7)), StaticBeatRate::from_bpm(120));
    assert_eq!(rate.at_beat(beat(12)), StaticBeatRate::from_bpm(140));
    assert_eq!(rate.at_beat(beat(-2)), StaticBeatRate::from_bpm(100));
}

#[test]
fn rate_change_overwritten_at_same_position() {
    let mut rate = BeatRate::new(StaticBeatRate::from_bpm(100));
    rate.add_change(beat(5), StaticBeatRate::from_bpm(120));
    rate.add_change(beat(5), StaticBeatRate::from_bpm(90));
    assert_eq!(rate.at_beat(beat(5)), StaticBeatRate::from_bpm(90));
    assert_eq!(rate.at_beat(beat(4)), StaticBeatRate::from_bpm(100));
}

#[test]
fn bpm_gives_beat_length() {
    assert_eq!(StaticBeatRate::from_bpm(120).nanos_per_beat(), 500_000_000);
    assert_eq!(StaticBeatRate::from_bpm(100).nanos_per_beat(), 600_000_000);
    assert_eq!(StaticBeatRate::from_bpm(140).nanos_per_beat(), 428_571_428);
    assert!(StaticBeatRate::from_bpm(140) < StaticBeatRate::from_bpm(100));
}

#[test]
fn signature_accessors() {
    let sig = StaticTimeSignature::new(3, 8);
    assert_eq!(sig.numerator(), 3);
    assert_eq!(sig.denominator(), 8);
}

#[test]
fn signature_at_beat() {
    let mut sig = TimeSignature::new(StaticTimeSignature::new(4, 4));
    sig.add_change(beat(8), StaticTimeSignature::new(3, 4));
    assert_eq!(sig.at_beat(beat(7)), StaticTimeSignature::new(4, 4));
    assert_eq!(sig.at_beat(beat(8)), StaticTimeSignature::new(3, 4));
    assert_eq!(sig.at_beat(beat(100)), StaticTimeSignature::new(3, 4));
}

#[test]
fn position_in_bar_before_any_change() {
    let sig = TimeSignature::new(StaticTimeSignature::new(4, 4));
    assert_eq!(sig.position_in_bar(beat(5)), beat(1));
    assert_eq!(sig.position_in_bar(beat(8)), beat(0));
    assert_eq!(
        sig.position_in_bar(BeatPosition::from_ticks(2 * TICKS_PER_BEAT + 480)).ticks(),
        2 * TICKS_PER_BEAT + 480
    );
}

#[test]
fn position_in_bar_resets_at_change() {
    let mut sig = TimeSignature::new(StaticTimeSignature::new(4, 4));
    sig.add_change(beat(6), StaticTimeSignature::new(3, 4));
    assert_eq!(sig.position_in_bar(beat(5)), beat(1));
    assert_eq!(sig.position_in_bar(beat(6)), beat(0));
    assert_eq!(sig.position_in_bar(beat(10)), beat(1));
    assert_eq!(sig.position_in_bar(beat(12)), beat(0));
}

#[test]
fn position_in_bar_negative_is_never_negative() {
    let sig = TimeSignature::new(StaticTimeSignature::new(4, 4));
    assert_eq!(sig.position_in_bar(beat(-1)), beat(3));
    assert_eq!(sig.position_in_bar(BeatPosition::from_ticks(-1)).ticks(), 4 * TICKS_PER_BEAT - 1);
}

#[test]
fn position_in_bar_stays_in_range() {
    let mut sig = TimeSignature::new(StaticTimeSignature::new(5, 4));
    sig.add_change(beat(7), StaticTimeSignature::new(2, 4));
    for t in -3000i64..3000 {
        let p = BeatPosition::from_ticks(t * 7);
        let bar = sig.at_beat(p).numerator() as i64 * TICKS_PER_BEAT;
        let r = sig.position_in_bar(p).ticks();
        assert!(0 <= r && r < bar);
    }
}

#[test]
fn position_in_bar_is_zero_at_each_change() {
    let mut sig = TimeSignature::new(StaticTimeSignature::new(4, 4));
    sig.add_change(beat(7), StaticTimeSignature::new(3, 4));
    sig.add_change(beat(15), StaticTimeSignature::new(5, 4));
    assert_eq!(sig.position_in_bar(beat(7)), beat(0));
    assert_eq!(sig.position_in_bar(beat(15)), beat(0));
    assert_eq!(sig.position_in_bar(beat(14)), beat(1));
    assert_eq!(sig.position_in_bar(beat(21)), beat(1));
}
