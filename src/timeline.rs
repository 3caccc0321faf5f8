//! Piecewise-constant values over a beat axis: tempo and time-signature changes.
use crate::lines::Position;
use vstd::prelude::*;

verus! {

/// Subdivisions of one beat that a `BeatPosition` counts in.
pub const TICKS_PER_BEAT: i64 = 960;

/// An offset on the beat axis, counted in ticks (`TICKS_PER_BEAT` per beat).
#[derive(Clone, Copy, Debug, PartialEq, Eq, Structural, Hash)]
pub struct BeatPosition {
    pub ticks: i64,
}

impl BeatPosition {
    /// The position `ticks` ticks in.
    pub fn from_ticks(ticks: i64) -> (r: BeatPosition)
        ensures
            r.ticks == ticks,
    {
        BeatPosition { ticks }
    }

    /// The position at the start of beat number `beats`.
    pub fn from_beats(beats: i32) -> (r: BeatPosition)
        ensures
            r.ticks == beats * TICKS_PER_BEAT,
    {
        BeatPosition { ticks: beats as i64 * TICKS_PER_BEAT }
    }

    /// The ticks of this position.
    pub fn ticks(&self) -> (r: i64)
        ensures
            r == self.ticks,
    {
        self.ticks
    }
}

impl Position for BeatPosition {
    open spec fn rank(&self) -> int {
        self.ticks as int
    }

    fn rank_of(&self) -> (r: i64) {
        self.ticks
    }

    proof fn lemma_rank_determines(a: Self, b: Self) {
    }
}

/// Change points in strictly increasing order of position.
pub open spec fn sorted_changes<V>(s: Seq<(BeatPosition, V)>) -> bool {
    forall|i: int, j: int|
        0 <= i < j < s.len() ==> (#[trigger] s[i]).0.ticks < (#[trigger] s[j]).0.ticks
}

/// The value in force at tick `p`: that of the last change at or before `p`, or `initial`
/// when no change is at or before `p`.
pub open spec fn active_in<V>(initial: V, s: Seq<(BeatPosition, V)>, p: int) -> V
    decreases s.len(),
{
    if s.len() == 0 {
        initial
    } else if s.last().0.ticks <= p {
        s.last().1
    } else {
        active_in(initial, s.drop_last(), p)
    }
}

/// Where the segment in force at tick `p` starts: at the last change at or before `p`, or
/// at zero when there is none.
pub open spec fn segment_start_in<V>(s: Seq<(BeatPosition, V)>, p: int) -> int
    decreases s.len(),
{
    if s.len() == 0 {
        0
    } else if s.last().0.ticks <= p {
        s.last().0.ticks as int
    } else {
        segment_start_in(s.drop_last(), p)
    }
}

/// Whether a change sits at tick `k`.
pub open spec fn has_change_at<V>(s: Seq<(BeatPosition, V)>, k: int) -> bool {
    exists|i: int| 0 <= i < s.len() && (#[trigger] s[i]).0.ticks == k
}

/// The changes as a map from tick to value.
pub open spec fn change_map_of<V>(s: Seq<(BeatPosition, V)>) -> Map<int, V> {
    Map::new(
        |k: int| has_change_at(s, k),
        |k: int| s[choose|i: int| 0 <= i < s.len() && (#[trigger] s[i]).0.ticks == k].1,
    )
}

proof fn lemma_active_prefix<V>(initial: V, s: Seq<(BeatPosition, V)>, n: int, p: int)
    requires
        0 <= n <= s.len(),
        forall|k: int| n <= k < s.len() ==> p < (#[trigger] s[k]).0.ticks,
    ensures
        active_in(initial, s, p) == active_in(initial, s.take(n), p),
        segment_start_in(s, p) == segment_start_in(s.take(n), p),
    decreases s.len() - n,
{
    if n < s.len() {
        assert(s.drop_last().take(n) =~= s.take(n));
        lemma_active_prefix(initial, s.drop_last(), n, p);
    } else {
        assert(s.take(n) =~= s);
    }
}

proof fn lemma_active_before_all<V>(initial: V, s: Seq<(BeatPosition, V)>, p: int)
    requires
        forall|k: int| 0 <= k < s.len() ==> p < (#[trigger] s[k]).0.ticks,
    ensures
        active_in(initial, s, p) == initial,
    decreases s.len(),
{
    if s.len() > 0 {
        lemma_active_before_all(initial, s.drop_last(), p);
    }
}

proof fn lemma_active_at_change<V>(initial: V, s: Seq<(BeatPosition, V)>, i: int)
    requires
        sorted_changes(s),
        0 <= i < s.len(),
    ensures
        active_in(initial, s, s[i].0.ticks as int) == s[i].1,
    decreases s.len(),
{
    if i < s.len() - 1 {
        assert(s.last().0.ticks > s[i].0.ticks);
        assert(s.drop_last()[i] == s[i]);
        lemma_active_at_change(initial, s.drop_last(), i);
    }
}

/// A value that starts at `initial` and changes at given beat positions.
///
/// The changes are held in a vector sorted by tick rather than a `BTreeMap`: the lookup it
/// needs is "the last change at or before a position", and the map's range queries
/// (`range`, `first_key_value`) carry no specification the proofs could use.
#[derive(Debug)]
pub struct Timeline<V> {
    initial: V,
    changes: Vec<(BeatPosition, V)>,
}

impl<V: Copy> Timeline<V> {
    /// The change points are in strictly increasing order.
    pub closed spec fn wf(&self) -> bool {
        sorted_changes(self.changes@)
    }

    /// The value before the first change.
    pub closed spec fn initial_value(&self) -> V {
        self.initial
    }

    /// The change points, in increasing order.
    pub closed spec fn change_seq(&self) -> Seq<(BeatPosition, V)> {
        self.changes@
    }

    /// The change points as a map from tick to value.
    pub open spec fn change_map(&self) -> Map<int, V> {
        change_map_of(self.change_seq())
    }

    /// The value in force at tick `p`.
    pub open spec fn value_at(&self, p: int) -> V {
        active_in(self.initial_value(), self.change_seq(), p)
    }

    /// Where the segment in force at tick `p` starts.
    pub open spec fn segment_start(&self, p: int) -> int {
        segment_start_in(self.change_seq(), p)
    }

    /// A timeline with no changes.
    pub fn new(initial: V) -> (r: Self)
        ensures
            r.wf(),
            r.initial_value() == initial,
            r.change_seq().len() == 0,
            r.change_map() == Map::<int, V>::empty(),
    {
        let r = Timeline { initial, changes: Vec::new() };
        assert(r.change_map() =~= Map::<int, V>::empty());
        r
    }

    /// The number of changes before the first one after `pos`.
    fn count_at_or_before(&self, pos: BeatPosition) -> (r: usize)
        requires
            self.wf(),
        ensures
            r <= self.changes@.len(),
            forall|k: int| 0 <= k < r ==> (#[trigger] self.changes@[k]).0.ticks <= pos.ticks,
            forall|k: int| r <= k < self.changes@.len() ==> pos.ticks < (
            #[trigger] self.changes@[k]).0.ticks,
    {
        let mut i: usize = 0;
        while i < self.changes.len() && self.changes[i].0.ticks <= pos.ticks
            invariant
                self.wf(),
                i <= self.changes@.len(),
                forall|k: int| 0 <= k < i ==> (#[trigger] self.changes@[k]).0.ticks <= pos.ticks,
            decreases self.changes@.len() - i,
        {
            i += 1;
        }
        proof {
            if i < self.changes@.len() {
                assert forall|k: int| i <= k < self.changes@.len() implies pos.ticks < (
                #[trigger] self.changes@[k]).0.ticks by {
                    if k > i {
                        assert(self.changes@[i as int].0.ticks < self.changes@[k].0.ticks);
                    }
                }
            }
        }
        i
    }

    /// The value in force at `pos`: that of the last change at or before it, else the
    /// initial value.
    pub fn at(&self, pos: BeatPosition) -> (r: V)
        requires
            self.wf(),
        ensures
            r == self.value_at(pos.ticks as int),
    {
        let n = self.count_at_or_before(pos);
        proof {
            lemma_active_prefix(self.initial, self.changes@, n as int, pos.ticks as int);
        }
        if n == 0 {
            self.initial
        } else {
            proof {
                assert(self.changes@.take(n as int).drop_last() =~= self.changes@.take(n as int - 1));
            }
            self.changes[n - 1].1
        }
    }

    /// The start of the segment in force at `pos` and its value.
    pub fn segment_at(&self, pos: BeatPosition) -> (r: (i64, V))
        requires
            self.wf(),
        ensures
            r.0 == self.segment_start(pos.ticks as int),
            r.1 == self.value_at(pos.ticks as int),
            r.0 <= pos.ticks || r.0 == 0,
    {
        let n = self.count_at_or_before(pos);
        proof {
            lemma_active_prefix(self.initial, self.changes@, n as int, pos.ticks as int);
        }
        if n == 0 {
            (0, self.initial)
        } else {
            let (start, value) = self.changes[n - 1];
            (start.ticks, value)
        }
    }

    /// Sets the value from `pos` on to `value`, replacing a change already at `pos`.
    pub fn add_change(&mut self, pos: BeatPosition, value: V)
        requires
            old(self).wf(),
        ensures
            final(self).wf(),
            final(self).initial_value() == old(self).initial_value(),
            final(self).change_map() == old(self).change_map().insert(pos.ticks as int, value),
    {
        let n = self.count_at_or_before(pos);
        let ghost before = self.changes@;
        if n > 0 && self.changes[n - 1].0.ticks == pos.ticks {
            self.changes.set(n - 1, (pos, value));
            proof {
                let after = self.changes@;
                let j = n - 1;
                assert(after =~= before.update(j as int, (pos, value)));
                assert(sorted_changes(after)) by {
                    assert forall|a: int, b: int| 0 <= a < b < after.len() implies (
                    #[trigger] after[a]).0.ticks < (#[trigger] after[b]).0.ticks by {
                        assert(before[a].0.ticks < before[b].0.ticks);
                    }
                }
                lemma_map_after_update(before, after, j as int, pos, value);
            }
        } else {
            self.changes.insert(n, (pos, value));
            proof {
                let after = self.changes@;
                assert(after =~= before.insert(n as int, (pos, value)));
                assert(sorted_changes(after)) by {
                    assert forall|a: int, b: int| 0 <= a < b < after.len() implies (
                    #[trigger] after[a]).0.ticks < (#[trigger] after[b]).0.ticks by {
                        if b < n {
                            assert(after[a] == before[a] && after[b] == before[b]);
                        } else if b == n {
                            assert(after[a] == before[a]);
                            if a < n - 1 {
                                assert(before[a].0.ticks < before[n - 1].0.ticks);
                            }
                        } else if a < n {
                            assert(after[a] == before[a] && after[b] == before[b - 1]);
                        } else if a == n {
                            assert(after[b] == before[b - 1]);
                        } else {
                            assert(after[a] == before[a - 1] && after[b] == before[b - 1]);
                        }
                    }
                }
                lemma_map_after_insert(before, after, n as int, pos, value);
            }
        }
    }
}

proof fn lemma_map_after_update<V>(
    before: Seq<(BeatPosition, V)>,
    after: Seq<(BeatPosition, V)>,
    j: int,
    pos: BeatPosition,
    value: V,
)
    requires
        sorted_changes(before),
        sorted_changes(after),
        0 <= j < before.len(),
        before[j].0.ticks == pos.ticks,
        after == before.update(j, (pos, value)),
    ensures
        change_map_of(after) == change_map_of(before).insert(pos.ticks as int, value),
{
    let m_after = change_map_of(after);
    let m_expected = change_map_of(before).insert(pos.ticks as int, value);
    assert forall|k: int| #[trigger] m_after.contains_key(k) <==> m_expected.contains_key(k) by {
        if has_change_at(after, k) {
            let i = choose|i: int| 0 <= i < after.len() && (#[trigger] after[i]).0.ticks == k;
            if i != j {
                assert(before[i] == after[i]);
            }
        }
        if has_change_at(before, k) {
            let i = choose|i: int| 0 <= i < before.len() && (#[trigger] before[i]).0.ticks == k;
            if i != j {
                assert(before[i] == after[i]);
            } else {
                assert(after[j].0.ticks == k);
            }
        }
        if k == pos.ticks {
            assert(after[j].0.ticks == k);
        }
    }
    assert forall|k: int| m_after.contains_key(k) implies #[trigger] m_after[k] == m_expected[k] by {
        let i = choose|i: int| 0 <= i < after.len() && (#[trigger] after[i]).0.ticks == k;
        if k == pos.ticks {
            assert(i == j);
        } else {
            let i0 = choose|i0: int| 0 <= i0 < before.len() && (#[trigger] before[i0]).0.ticks == k;
            assert(before[i] == after[i]);
            assert(i0 == i);
        }
    }
    assert(m_after =~= m_expected);
}

proof fn lemma_map_after_insert<V>(
    before: Seq<(BeatPosition, V)>,
    after: Seq<(BeatPosition, V)>,
    n: int,
    pos: BeatPosition,
    value: V,
)
    requires
        sorted_changes(before),
        sorted_changes(after),
        0 <= n <= before.len(),
        after == before.insert(n, (pos, value)),
    ensures
        change_map_of(after) == change_map_of(before).insert(pos.ticks as int, value),
{
    let m_after = change_map_of(after);
    let m_expected = change_map_of(before).insert(pos.ticks as int, value);
    assert forall|k: int| #[trigger] m_after.contains_key(k) <==> m_expected.contains_key(k) by {
        if has_change_at(after, k) {
            let i = choose|i: int| 0 <= i < after.len() && (#[trigger] after[i]).0.ticks == k;
            if i < n {
                assert(before[i] == after[i]);
            } else if i > n {
                assert(before[i - 1] == after[i]);
            }
        }
        if has_change_at(before, k) {
            let i = choose|i: int| 0 <= i < before.len() && (#[trigger] before[i]).0.ticks == k;
            if i < n {
                assert(before[i] == after[i]);
            } else {
                assert(before[i] == after[i + 1]);
            }
        }
        if k == pos.ticks {
            assert(after[n].0.ticks == k);
        }
    }
    assert forall|k: int| m_after.contains_key(k) implies #[trigger] m_after[k] == m_expected[k] by {
        let i = choose|i: int| 0 <= i < after.len() && (#[trigger] after[i]).0.ticks == k;
        if k == pos.ticks {
            assert(after[n].0.ticks == k);
            assert(i == n);
        } else {
            let i0 = choose|i0: int| 0 <= i0 < before.len() && (#[trigger] before[i0]).0.ticks == k;
            if i < n {
                assert(before[i] == after[i]);
                assert(i0 == i);
            } else {
                assert(i != n);
                assert(before[i - 1] == after[i]);
                assert(i0 == i - 1);
            }
        }
    }
    assert(m_after =~= m_expected);
}

/// Before every change the initial value is in force.
pub proof fn lemma_initial_before_changes<V: Copy>(t: Timeline<V>, p: int)
    requires
        t.wf(),
        forall|k: int| t.change_map().contains_key(k) ==> p < k,
    ensures
        t.value_at(p) == t.initial_value(),
{
    let s = t.change_seq();
    assert forall|k: int| 0 <= k < s.len() implies p < (#[trigger] s[k]).0.ticks by {
        assert(has_change_at(s, s[k].0.ticks as int));
        assert(t.change_map().contains_key(s[k].0.ticks as int));
    }
    lemma_active_before_all(t.initial_value(), s, p);
}

/// A change takes effect exactly at its position.
pub proof fn lemma_change_in_force_at_its_position<V: Copy>(t: Timeline<V>, k: int)
    requires
        t.wf(),
        t.change_map().contains_key(k),
    ensures
        t.value_at(k) == t.change_map()[k],
{
    let s = t.change_seq();
    let i = choose|i: int| 0 <= i < s.len() && (#[trigger] s[i]).0.ticks == k;
    lemma_active_at_change(t.initial_value(), s, i);
}

/// `k` is the last change at or before tick `p`: a key of `m`, at most `p`, and no smaller
/// than any other key at most `p`.
pub open spec fn last_change_at_or_before<V>(m: Map<int, V>, p: int, k: int) -> bool {
    &&& m.contains_key(k)
    &&& k <= p
    &&& forall|j: int| #[trigger] m.contains_key(j) && j <= p ==> j <= k
}

proof fn lemma_active_by_count<V>(initial: V, s: Seq<(BeatPosition, V)>, p: int, n: int)
    requires
        0 <= n <= s.len(),
        forall|k: int| 0 <= k < n ==> (#[trigger] s[k]).0.ticks <= p,
        forall|k: int| n <= k < s.len() ==> p < (#[trigger] s[k]).0.ticks,
    ensures
        active_in(initial, s, p) == if n == 0 {
            initial
        } else {
            s[n - 1].1
        },
        segment_start_in(s, p) == if n == 0 {
            0
        } else {
            s[n - 1].0.ticks as int
        },
{
    lemma_active_prefix(initial, s, n, p);
    if n == 0 {
        assert(s.take(0).len() == 0);
    } else {
        assert(s.take(n).last() == s[n - 1]);
    }
}

proof fn lemma_count_exists<V>(s: Seq<(BeatPosition, V)>, p: int) -> (n: int)
    requires
        sorted_changes(s),
    ensures
        0 <= n <= s.len(),
        forall|k: int| 0 <= k < n ==> (#[trigger] s[k]).0.ticks <= p,
        forall|k: int| n <= k < s.len() ==> p < (#[trigger] s[k]).0.ticks,
    decreases s.len(),
{
    if s.len() == 0 {
        0
    } else if s.last().0.ticks <= p {
        s.len() as int
    } else {
        let n = lemma_count_exists(s.drop_last(), p);
        assert forall|k: int| n <= k < s.len() implies p < (#[trigger] s[k]).0.ticks by {
            if k < s.len() - 1 {
                assert(s.drop_last()[k] == s[k]);
            }
        }
        assert forall|k: int| 0 <= k < n implies (#[trigger] s[k]).0.ticks <= p by {
            assert(s.drop_last()[k] == s[k]);
        }
        n
    }
}

/// The value in force at tick `p`, and where its segment starts. With no change at or
/// before `p`, the initial value holds and bars count from zero. Otherwise there is a last
/// change at or before `p`; its value holds and its key starts the segment.
pub proof fn lemma_in_force<V: Copy>(t: Timeline<V>, p: int)
    requires
        t.wf(),
    ensures
        (forall|k: int| #[trigger] t.change_map().contains_key(k) ==> p < k) ==> t.value_at(p)
            == t.initial_value() && t.segment_start(p) == 0,
        (exists|k: int| #[trigger] t.change_map().contains_key(k) && k <= p) ==> exists|k: int|
            #[trigger] last_change_at_or_before(t.change_map(), p, k),
        forall|k: int| #[trigger]
            last_change_at_or_before(t.change_map(), p, k) ==> t.value_at(p) == t.change_map()[k]
                && t.segment_start(p) == k,
{
    let s = t.change_seq();
    let m = t.change_map();
    let n = lemma_count_exists(s, p);
    lemma_active_by_count(t.initial_value(), s, p, n);
    if n == 0 {
        assert forall|k: int| #[trigger] m.contains_key(k) implies p < k by {
            let i = choose|i: int| 0 <= i < s.len() && (#[trigger] s[i]).0.ticks == k;
        }
    } else {
        let g = s[n - 1].0.ticks as int;
        assert(has_change_at(s, g));
        assert(m.contains_key(g));
        assert(m[g] == s[n - 1].1) by {
            let i = choose|i: int| 0 <= i < s.len() && (#[trigger] s[i]).0.ticks == g;
            if i < n - 1 {
                assert(s[i].0.ticks < s[n - 1].0.ticks);
            } else if i > n - 1 {
                assert(s[n - 1].0.ticks < s[i].0.ticks);
            }
        }
        assert forall|j: int| #[trigger] m.contains_key(j) && j <= p implies j <= g by {
            let i = choose|i: int| 0 <= i < s.len() && (#[trigger] s[i]).0.ticks == j;
            if i > n - 1 {
                assert(s[n - 1].0.ticks < s[i].0.ticks);
            }
        }
        assert(last_change_at_or_before(m, p, g));
        assert forall|k: int| #[trigger] last_change_at_or_before(m, p, k) implies t.value_at(p)
            == m[k] && t.segment_start(p) == k by {
            assert(k <= g && g <= k);
        }
    }
}

/// Whether a change added at `pos` to the changes `m` is the one in force at tick `q`:
/// `pos` is at or before `q` and no key of `m` lies in `(pos, q]`.
pub open spec fn change_reaches<V>(m: Map<int, V>, pos: int, q: int) -> bool {
    pos <= q && (forall|j: int| #[trigger] m.contains_key(j) ==> !(pos < j <= q))
}

/// What `add_change(pos, value)` does at tick `q`: where the new change reaches, its value
/// holds; everywhere else the value is the one before.
pub open spec fn in_force_after_change<V>(
    before: V,
    m: Map<int, V>,
    pos: int,
    value: V,
    q: int,
) -> V {
    if change_reaches(m, pos, q) {
        value
    } else {
        before
    }
}

/// The value and segment start at every tick after a change is added, in terms of those
/// before.
pub proof fn lemma_add_change_in_force<V: Copy>(old_t: Timeline<V>, new_t: Timeline<V>, pos: int, value: V, q: int)
    requires
        old_t.wf(),
        new_t.wf(),
        new_t.initial_value() == old_t.initial_value(),
        new_t.change_map() == old_t.change_map().insert(pos, value),
    ensures
        new_t.value_at(q) == in_force_after_change(old_t.value_at(q), old_t.change_map(), pos, value, q),
        new_t.segment_start(q) == if change_reaches(old_t.change_map(), pos, q) {
            pos
        } else {
            old_t.segment_start(q)
        },
{
    let mo = old_t.change_map();
    let mn = new_t.change_map();
    lemma_in_force(old_t, q);
    lemma_in_force(new_t, q);
    if pos <= q && (forall|j: int| #[trigger] mo.contains_key(j) ==> !(pos < j <= q)) {
        assert(mn.contains_key(pos));
        let g = choose|k: int| #[trigger] last_change_at_or_before(mn, q, k);
        assert(g >= pos);
        if g != pos {
            assert(mo.contains_key(g));
        }
        assert(g == pos);
    } else if exists|k: int| #[trigger] mn.contains_key(k) && k <= q {
        let g = choose|k: int| #[trigger] last_change_at_or_before(mn, q, k);
        if g == pos {
            assert(pos <= q);
            let j = choose|j: int| #[trigger] mo.contains_key(j) && pos < j <= q;
            assert(mn.contains_key(j));
            assert(false);
        }
        assert(mo.contains_key(g));
        assert(last_change_at_or_before(mo, q, g)) by {
            assert forall|j: int| #[trigger] mo.contains_key(j) && j <= q implies j <= g by {
                assert(mn.contains_key(j));
            }
        }
    } else {
        assert forall|k: int| #[trigger] mo.contains_key(k) implies q < k by {
            assert(mn.contains_key(k));
        }
        assert forall|k: int| #[trigger] mn.contains_key(k) implies q < k by {
        }
    }
}

} // verus!
