//! Tempo and time signature along the beat axis.
use crate::timeline::{
    change_reaches, in_force_after_change, lemma_add_change_in_force,
    lemma_change_in_force_at_its_position, lemma_in_force, lemma_initial_before_changes,
    last_change_at_or_before, BeatPosition, Timeline, TICKS_PER_BEAT,
};
use vstd::prelude::*;

verus! {

/// Nanoseconds in a minute.
pub const NANOS_PER_MINUTE: u64 = 60_000_000_000;

/// A fixed tempo, as the wall-clock length of one beat in nanoseconds.
#[derive(Clone, Copy, Debug, PartialEq, Eq, Structural, PartialOrd, Ord, Hash)]
pub struct StaticBeatRate {
    pub nanos_per_beat: u64,
}

impl StaticBeatRate {
    /// The tempo of `bpm` beats per minute (the beat length rounded down to whole nanoseconds).
    pub fn from_bpm(bpm: u32) -> (r: StaticBeatRate)
        requires
            bpm > 0,
        ensures
            r.nanos_per_beat == NANOS_PER_MINUTE / (bpm as u64),
    {
        StaticBeatRate { nanos_per_beat: NANOS_PER_MINUTE / (bpm as u64) }
    }

    /// The tempo whose beat lasts `nanos` nanoseconds.
    pub fn from_nanos_per_beat(nanos: u64) -> (r: StaticBeatRate)
        ensures
            r.nanos_per_beat == nanos,
    {
        StaticBeatRate { nanos_per_beat: nanos }
    }

    /// The length of one beat in nanoseconds.
    pub fn nanos_per_beat(&self) -> (r: u64)
        ensures
            r == self.nanos_per_beat,
    {
        self.nanos_per_beat
    }
}

/// A tempo that starts at an initial rate and jumps at given beat positions.
#[derive(Debug)]
pub struct BeatRate {
    timeline: Timeline<StaticBeatRate>,
}

impl BeatRate {
    /// The change points are in order.
    pub closed spec fn wf(&self) -> bool {
        self.timeline.wf()
    }

    /// The rate before the first change.
    pub closed spec fn initial_rate(&self) -> StaticBeatRate {
        self.timeline.initial_value()
    }

    /// The changes, from tick to the rate that starts there.
    pub closed spec fn changes(&self) -> Map<int, StaticBeatRate> {
        self.timeline.change_map()
    }

    /// The rate in force at tick `p`: that of the last change at or before `p`, or the
    /// initial rate.
    pub closed spec fn rate_at(&self, p: int) -> StaticBeatRate {
        self.timeline.value_at(p)
    }

    /// A tempo fixed at `initial`.
    pub fn new(initial: StaticBeatRate) -> (r: BeatRate)
        ensures
            r.wf(),
            r.initial_rate() == initial,
            r.changes() == Map::<int, StaticBeatRate>::empty(),
            forall|p: int| r.rate_at(p) == initial,
    {
        let r = BeatRate { timeline: Timeline::new(initial) };
        assert forall|p: int| r.rate_at(p) == initial by {
            reveal_with_fuel(crate::timeline::active_in, 1);
        }
        r
    }

    /// The rate in force at `pos`.
    pub fn at_beat(&self, pos: BeatPosition) -> (r: StaticBeatRate)
        requires
            self.wf(),
        ensures
            r == self.rate_at(pos.ticks as int),
    {
        self.timeline.at(pos)
    }

    /// Sets the rate from `pos` on, replacing a change already at `pos`.
    pub fn add_change(&mut self, new_pos: BeatPosition, new_rate: StaticBeatRate)
        requires
            old(self).wf(),
        ensures
            final(self).wf(),
            final(self).initial_rate() == old(self).initial_rate(),
            final(self).changes() == old(self).changes().insert(new_pos.ticks as int, new_rate),
            forall|q: int|
                #[trigger] final(self).rate_at(q) == in_force_after_change(
                    old(self).rate_at(q),
                    old(self).changes(),
                    new_pos.ticks as int,
                    new_rate,
                    q,
                ),
    {
        let ghost before = self.timeline;
        self.timeline.add_change(new_pos, new_rate);
        proof {
            assert forall|q: int|
                #[trigger] self.rate_at(q) == in_force_after_change(
                    before.value_at(q),
                    before.change_map(),
                    new_pos.ticks as int,
                    new_rate,
                    q,
                ) by {
                lemma_add_change_in_force(before, self.timeline, new_pos.ticks as int, new_rate, q);
            }
        }
    }

    /// The rate in force at tick `p`: the initial rate when no change is at or before `p`;
    /// otherwise there is a last change at or before `p`, and its rate holds.
    pub proof fn lemma_rate_in_force(&self, p: int)
        requires
            self.wf(),
        ensures
            (forall|k: int| #[trigger] self.changes().contains_key(k) ==> p < k) ==> self.rate_at(p)
                == self.initial_rate(),
            (exists|k: int| #[trigger] self.changes().contains_key(k) && k <= p) ==> exists|k: int|
                #[trigger] last_change_at_or_before(self.changes(), p, k),
            forall|k: int| #[trigger]
                last_change_at_or_before(self.changes(), p, k) ==> self.rate_at(p)
                    == self.changes()[k],
    {
        if forall|k: int| #[trigger] self.changes().contains_key(k) ==> p < k {
            assert forall|k: int| #[trigger] self.timeline.change_map().contains_key(k) implies p
                < k by {
                assert(self.changes().contains_key(k));
            }
        }
        lemma_in_force(self.timeline, p);
    }

    /// Before the first change the initial rate is in force.
    pub proof fn lemma_initial_before_first_change(&self, p: int)
        requires
            self.wf(),
            forall|k: int| self.changes().contains_key(k) ==> p < k,
        ensures
            self.rate_at(p) == self.initial_rate(),
    {
        assert forall|k: int| self.timeline.change_map().contains_key(k) implies p < k by {
            assert(self.changes().contains_key(k));
        }
        lemma_initial_before_changes(self.timeline, p);
    }

    /// A change is in force exactly from its own position on.
    pub proof fn lemma_change_in_force_at_its_key(&self, k: int)
        requires
            self.wf(),
            self.changes().contains_key(k),
        ensures
            self.rate_at(k) == self.changes()[k],
    {
        lemma_change_in_force_at_its_position(self.timeline, k);
    }
}

/// A fixed time signature: `numerator` beats to the bar, each a `1/denominator` note.
#[derive(Clone, Copy, Debug, PartialEq, Eq, Structural, Hash)]
pub struct StaticTimeSignature {
    numerator: u32,
    denominator: u32,
}

impl StaticTimeSignature {
    #[verifier::type_invariant]
    spec fn positive(&self) -> bool {
        self.numerator > 0 && self.denominator > 0
    }

    /// Beats to the bar.
    pub closed spec fn beats(&self) -> nat {
        self.numerator as nat
    }

    /// The note value of one beat.
    pub closed spec fn note_value(&self) -> nat {
        self.denominator as nat
    }

    /// The length of a bar in ticks.
    pub open spec fn bar_ticks(&self) -> int {
        self.beats() * TICKS_PER_BEAT
    }

    /// The signature `numerator / denominator`.
    pub fn new(numerator: u32, denominator: u32) -> (r: StaticTimeSignature)
        requires
            numerator > 0,
            denominator > 0,
        ensures
            r.beats() == numerator,
            r.note_value() == denominator,
    {
        StaticTimeSignature { numerator, denominator }
    }

    /// Beats to the bar.
    pub fn numerator(&self) -> (r: u32)
        ensures
            r == self.beats(),
            r > 0,
    {
        proof {
            use_type_invariant(self);
        }
        self.numerator
    }

    /// The note value of one beat.
    pub fn denominator(&self) -> (r: u32)
        ensures
            r == self.note_value(),
            r > 0,
    {
        proof {
            use_type_invariant(self);
        }
        self.denominator
    }

    /// The length of a bar in ticks.
    fn beats_per_bar(&self) -> (r: i128)
        ensures
            r == self.bar_ticks(),
            r > 0,
    {
        proof {
            use_type_invariant(self);
            let n = self.numerator as int;
            assert(0 < n * 960 <= 4294967295 * 960) by (nonlinear_arith)
                requires
                    0 < n <= 4294967295,
            ;
        }
        self.numerator as i128 * TICKS_PER_BEAT as i128
    }
}

/// A time signature that starts at an initial signature and changes at given beat positions.
/// Each change starts a new bar.
#[derive(Debug)]
pub struct TimeSignature {
    timeline: Timeline<StaticTimeSignature>,
}

impl TimeSignature {
    /// The change points are in order.
    pub closed spec fn wf(&self) -> bool {
        self.timeline.wf()
    }

    /// The signature before the first change.
    pub closed spec fn initial_signature(&self) -> StaticTimeSignature {
        self.timeline.initial_value()
    }

    /// The changes, from tick to the signature that starts there.
    pub closed spec fn changes(&self) -> Map<int, StaticTimeSignature> {
        self.timeline.change_map()
    }

    /// The signature in force at tick `p`: that of the last change at or before `p`, or the
    /// initial signature.
    pub closed spec fn signature_at(&self, p: int) -> StaticTimeSignature {
        self.timeline.value_at(p)
    }

    /// Where the bar count restarts for tick `p`: the last change at or before `p`, or zero.
    pub closed spec fn segment_start(&self, p: int) -> int {
        self.timeline.segment_start(p)
    }

    /// A time signature fixed at `initial`.
    pub fn new(initial: StaticTimeSignature) -> (r: TimeSignature)
        ensures
            r.wf(),
            r.initial_signature() == initial,
            r.changes() == Map::<int, StaticTimeSignature>::empty(),
            forall|p: int| r.signature_at(p) == initial && r.segment_start(p) == 0,
    {
        let r = TimeSignature { timeline: Timeline::new(initial) };
        assert forall|p: int| r.signature_at(p) == initial && r.segment_start(p) == 0 by {
            reveal_with_fuel(crate::timeline::active_in, 1);
            reveal_with_fuel(crate::timeline::segment_start_in, 1);
        }
        r
    }

    /// Sets the signature from `position` on, replacing a change already there.
    pub fn add_change(&mut self, position: BeatPosition, signature: StaticTimeSignature)
        requires
            old(self).wf(),
        ensures
            final(self).wf(),
            final(self).initial_signature() == old(self).initial_signature(),
            final(self).changes() == old(self).changes().insert(position.ticks as int, signature),
            forall|q: int|
                #[trigger] final(self).signature_at(q) == in_force_after_change(
                    old(self).signature_at(q),
                    old(self).changes(),
                    position.ticks as int,
                    signature,
                    q,
                ),
            forall|q: int|
                #[trigger] final(self).segment_start(q) == if change_reaches(
                    old(self).changes(),
                    position.ticks as int,
                    q,
                ) {
                    position.ticks as int
                } else {
                    old(self).segment_start(q)
                },
    {
        let ghost before = self.timeline;
        self.timeline.add_change(position, signature);
        proof {
            assert forall|q: int|
                #[trigger] self.signature_at(q) == in_force_after_change(
                    before.value_at(q),
                    before.change_map(),
                    position.ticks as int,
                    signature,
                    q,
                ) && self.segment_start(q) == (if change_reaches(
                    before.change_map(),
                    position.ticks as int,
                    q,
                ) {
                    position.ticks as int
                } else {
                    before.segment_start(q)
                }) by {
                lemma_add_change_in_force(before, self.timeline, position.ticks as int, signature, q);
            }
            assert forall|q: int|
                #[trigger] self.segment_start(q) == (if change_reaches(
                    before.change_map(),
                    position.ticks as int,
                    q,
                ) {
                    position.ticks as int
                } else {
                    before.segment_start(q)
                }) by {
                lemma_add_change_in_force(before, self.timeline, position.ticks as int, signature, q);
            }
        }
    }

    /// The signature in force at tick `p` and where its bars start: the initial signature,
    /// counted from zero, when no change is at or before `p`; otherwise there is a last
    /// change at or before `p`, whose signature holds and whose key starts the bars.
    pub proof fn lemma_signature_in_force(&self, p: int)
        requires
            self.wf(),
        ensures
            (forall|k: int| #[trigger] self.changes().contains_key(k) ==> p < k) ==> self.signature_at(p)
                == self.initial_signature() && self.segment_start(p) == 0,
            (exists|k: int| #[trigger] self.changes().contains_key(k) && k <= p) ==> exists|k: int|
                #[trigger] last_change_at_or_before(self.changes(), p, k),
            forall|k: int| #[trigger]
                last_change_at_or_before(self.changes(), p, k) ==> self.signature_at(p)
                    == self.changes()[k] && self.segment_start(p) == k,
    {
        if forall|k: int| #[trigger] self.changes().contains_key(k) ==> p < k {
            assert forall|k: int| #[trigger] self.timeline.change_map().contains_key(k) implies p
                < k by {
                assert(self.changes().contains_key(k));
            }
        }
        lemma_in_force(self.timeline, p);
    }

    /// Before the first change the initial signature holds, with bars counted from zero.
    pub proof fn lemma_initial_before_first_change(&self, p: int)
        requires
            self.wf(),
            forall|k: int| self.changes().contains_key(k) ==> p < k,
        ensures
            self.signature_at(p) == self.initial_signature(),
            self.segment_start(p) == 0,
    {
        if forall|k: int| #[trigger] self.changes().contains_key(k) ==> p < k {
            assert forall|k: int| #[trigger] self.timeline.change_map().contains_key(k) implies p
                < k by {
                assert(self.changes().contains_key(k));
            }
        }
        lemma_in_force(self.timeline, p);
    }

    /// A change is in force exactly from its own position on, and a new bar starts there.
    pub proof fn lemma_change_in_force_at_its_key(&self, k: int)
        requires
            self.wf(),
            self.changes().contains_key(k),
        ensures
            self.signature_at(k) == self.changes()[k],
            self.segment_start(k) == k,
    {
        lemma_in_force(self.timeline, k);
        assert(last_change_at_or_before(self.changes(), k, k));
    }

    /// The signature in force at `pos`.
    pub fn at_beat(&self, pos: BeatPosition) -> (r: StaticTimeSignature)
        requires
            self.wf(),
        ensures
            r == self.signature_at(pos.ticks as int),
    {
        self.timeline.at(pos)
    }

    /// How far into its bar `pos` lies: the distance from the start of the segment in force
    /// (zero before the first change) taken modulo the bar length, never negative.
    pub fn position_in_bar(&self, pos: BeatPosition) -> (r: BeatPosition)
        requires
            self.wf(),
        ensures
            r.ticks == (pos.ticks - self.segment_start(pos.ticks as int)) % self.signature_at(
                pos.ticks as int,
            ).bar_ticks(),
            0 <= r.ticks < self.signature_at(pos.ticks as int).bar_ticks(),
    {
        let (start, signature) = self.timeline.segment_at(pos);
        let bar = signature.beats_per_bar();
        let offset: i128 = pos.ticks as i128 - start as i128;
        match offset.checked_rem_euclid(bar) {
            Some(m) => BeatPosition { ticks: m as i64 },
            None => {
                proof {
                    assert(false);
                }
                BeatPosition { ticks: 0 }
            },
        }
    }
}

} // verus!
