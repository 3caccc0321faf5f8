//! An ordered, duplicate-free set of marker positions, generic over the position unit.
use vstd::prelude::*;

verus! {

/// A position on a line: a value totally ordered by an integer rank that determines it.
pub trait Position: Copy {
    /// The rank that orders positions.
    spec fn rank(&self) -> int;

    /// The rank, computed.
    fn rank_of(&self) -> (r: i64)
        ensures
            r as int == self.rank(),
    ;

    /// Two positions of equal rank are the same position.
    proof fn lemma_rank_determines(a: Self, b: Self)
        ensures
            a.rank() == b.rank() ==> a == b,
    ;
}

/// A wall-clock offset in nanoseconds.
#[derive(Clone, Copy, Debug, PartialEq, Eq, Structural, Hash)]
pub struct Timestamp {
    pub nanos: i64,
}

impl Timestamp {
    /// The timestamp `nanos` nanoseconds in.
    pub fn from_nanos(nanos: i64) -> (r: Timestamp)
        ensures
            r.nanos == nanos,
    {
        Timestamp { nanos }
    }

    /// The nanoseconds of this timestamp.
    pub fn as_nanos(&self) -> (r: i64)
        ensures
            r == self.nanos,
    {
        self.nanos
    }
}

impl Position for Timestamp {
    open spec fn rank(&self) -> int {
        self.nanos as int
    }

    fn rank_of(&self) -> (r: i64) {
        self.nanos
    }

    proof fn lemma_rank_determines(a: Self, b: Self) {
    }
}

/// Positions in strictly increasing order of rank.
pub open spec fn strictly_sorted<T: Position>(s: Seq<T>) -> bool {
    forall|i: int, j: int| 0 <= i < j < s.len() ==> (#[trigger] s[i]).rank() < (#[trigger] s[j]).rank()
}

/// An ordered set of unique positions.
///
/// The positions are held in a vector sorted by rank rather than a `BTreeSet`: the set's
/// order is stated over `Position::rank`, while a `BTreeSet<T>` orders by `T`'s `Ord`,
/// whose behaviour the proofs cannot see for a generic position type.
#[derive(Debug)]
pub struct Lines<T: Position> {
    positions: Vec<T>,
}

impl<T: Position> View for Lines<T> {
    type V = Set<T>;

    closed spec fn view(&self) -> Set<T> {
        self.positions@.to_set()
    }
}

impl<T: Position> Lines<T> {
    /// The positions are kept in strictly increasing order.
    pub closed spec fn wf(&self) -> bool {
        strictly_sorted(self.positions@)
    }

    /// The positions, in ascending order.
    pub closed spec fn sorted_view(&self) -> Seq<T> {
        self.positions@
    }

    /// No positions.
    pub fn new() -> (r: Self)
        ensures
            r.wf(),
            r@ == Set::<T>::empty(),
    {
        let r = Lines { positions: Vec::new() };
        assert(r@ =~= Set::<T>::empty());
        r
    }

    /// Adds `pos`; returns whether it was not there before.
    pub fn insert(&mut self, pos: T) -> (r: bool)
        requires
            old(self).wf(),
        ensures
            final(self).wf(),
            r == !old(self)@.contains(pos),
            final(self)@ == old(self)@.insert(pos),
    {
        let key = pos.rank_of();
        let mut i: usize = 0;
        while i < self.positions.len() && self.positions[i].rank_of() < key
            invariant
                self.wf(),
                i <= self.positions@.len(),
                key == pos.rank(),
                forall|k: int| 0 <= k < i ==> (#[trigger] self.positions@[k]).rank() < pos.rank(),
            decreases self.positions@.len() - i,
        {
            i += 1;
        }
        if i < self.positions.len() && self.positions[i].rank_of() == key {
            proof {
                T::lemma_rank_determines(self.positions@[i as int], pos);
                assert(self.positions@.contains(pos));
                assert(self@.insert(pos) =~= self@);
            }
            return false;
        }
        let ghost before = self.positions@;
        proof {
            assert forall|k: int| 0 <= k < before.len() implies before[k] != pos by {
                if k >= i {
                    assert(before[k].rank() >= before[i as int].rank());
                }
            }
        }
        self.positions.insert(i, pos);
        proof {
            let after = self.positions@;
            assert(after =~= before.insert(i as int, pos));
            assert forall|a: int, b: int| 0 <= a < b < after.len() implies (#[trigger] after[a]).rank()
                < (#[trigger] after[b]).rank() by {
                if b < i {
                    assert(after[a] == before[a] && after[b] == before[b]);
                } else if b == i {
                    assert(after[a] == before[a]);
                } else if a < i {
                    assert(after[a] == before[a] && after[b] == before[b - 1]);
                    assert(before[b - 1].rank() >= before[i as int].rank());
                } else if a == i {
                    assert(after[b] == before[b - 1]);
                    assert(before[b - 1].rank() >= before[i as int].rank());
                } else {
                    assert(after[a] == before[a - 1] && after[b] == before[b - 1]);
                }
            }
            assert forall|x: T| #[trigger] after.to_set().contains(x) <==> before.to_set().insert(
                pos,
            ).contains(x) by {
                if after.contains(x) {
                    let k = choose|k: int| 0 <= k < after.len() && after[k] == x;
                    if k < i {
                        assert(before[k] == x);
                    } else if k > i {
                        assert(before[k - 1] == x);
                    }
                }
                if before.contains(x) {
                    let k = choose|k: int| 0 <= k < before.len() && before[k] == x;
                    if k < i {
                        assert(after[k] == x);
                    } else {
                        assert(after[k + 1] == x);
                    }
                }
                if x == pos {
                    assert(after[i as int] == x);
                }
            }
            assert(after.to_set() =~= before.to_set().insert(pos));
        }
        true
    }

    /// Removes `pos`; returns whether it was there.
    pub fn remove(&mut self, pos: T) -> (r: bool)
        requires
            old(self).wf(),
        ensures
            final(self).wf(),
            r == old(self)@.contains(pos),
            final(self)@ == old(self)@.remove(pos),
    {
        let key = pos.rank_of();
        let mut i: usize = 0;
        while i < self.positions.len() && self.positions[i].rank_of() != key
            invariant
                self.wf(),
                i <= self.positions@.len(),
                key == pos.rank(),
                forall|k: int| 0 <= k < i ==> (#[trigger] self.positions@[k]).rank() != pos.rank(),
            decreases self.positions@.len() - i,
        {
            i += 1;
        }
        if i == self.positions.len() {
            proof {
                assert(!self.positions@.contains(pos));
                assert(self@.remove(pos) =~= self@);
            }
            return false;
        }
        let ghost before = self.positions@;
        proof {
            T::lemma_rank_determines(before[i as int], pos);
            assert(before.contains(pos));
        }
        self.positions.remove(i);
        proof {
            let after = self.positions@;
            assert(after =~= before.remove(i as int));
            assert forall|a: int, b: int| 0 <= a < b < after.len() implies (
            #[trigger] after[a]).rank() < (#[trigger] after[b]).rank() by {
                if b < i {
                    assert(after[a] == before[a] && after[b] == before[b]);
                } else if a < i {
                    assert(after[a] == before[a] && after[b] == before[b + 1]);
                } else {
                    assert(after[a] == before[a + 1] && after[b] == before[b + 1]);
                }
            }
            assert forall|x: T| #[trigger] after.to_set().contains(x) <==> before.to_set().remove(
                pos,
            ).contains(x) by {
                if after.contains(x) {
                    let k = choose|k: int| 0 <= k < after.len() && after[k] == x;
                    if k < i {
                        assert(before[k] == x);
                        assert(before[k].rank() < before[i as int].rank());
                    } else {
                        assert(before[k + 1] == x);
                        assert(before[k + 1].rank() > before[i as int].rank());
                    }
                }
                if before.contains(x) && x != pos {
                    let k = choose|k: int| 0 <= k < before.len() && before[k] == x;
                    if k < i {
                        assert(after[k] == x);
                    } else {
                        assert(k != i);
                        assert(after[k - 1] == x);
                    }
                }
            }
            assert(after.to_set() =~= before.to_set().remove(pos));
        }
        true
    }

    /// The positions, in ascending order.
    pub fn get_positions(&self) -> (r: &Vec<T>)
        requires
            self.wf(),
        ensures
            r@ == self.sorted_view(),
            r@.to_set() == self@,
            strictly_sorted(r@),
    {
        &self.positions
    }

    /// Whether there are no positions.
    pub fn empty(&self) -> (r: bool)
        ensures
            r == (self@ == Set::<T>::empty()),
    {
        let r = self.positions.len() == 0;
        proof {
            if r {
                assert(self@ =~= Set::<T>::empty());
            } else {
                assert(self@.contains(self.positions@[0]));
            }
        }
        r
    }

    /// The number of positions.
    pub fn len(&self) -> (r: usize)
        requires
            self.wf(),
        ensures
            r == self@.len(),
    {
        proof {
            assert(self.positions@.no_duplicates()) by {
                assert forall|a: int, b: int| 0 <= a < self.positions@.len() && 0 <= b
                    < self.positions@.len() && a != b implies self.positions@[a]
                    != self.positions@[b] by {
                    if a < b {
                        assert(self.positions@[a].rank() < self.positions@[b].rank());
                    } else {
                        assert(self.positions@[b].rank() < self.positions@[a].rank());
                    }
                }
            }
            self.positions@.unique_seq_to_set();
        }
        self.positions.len()
    }
}

/// Inserting a position that is already there changes nothing: a second insertion of the
/// same position leaves the set, and so its size, as the first left it.
pub proof fn lemma_insert_idempotent<T: Position>(before: Set<T>, pos: T)
    requires
        before.finite(),
    ensures
        before.insert(pos).contains(pos),
        before.insert(pos).insert(pos) == before.insert(pos),
        before.insert(pos).insert(pos).len() == before.insert(pos).len(),
{
    assert(before.insert(pos).insert(pos) =~= before.insert(pos));
}

} // verus!
