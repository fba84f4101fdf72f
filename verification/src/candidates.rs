//! Candidate placements and the set of them that is still open.

use vstd::prelude::*;

use crate::square::SquareItem;

verus! {

/// Cost measures the quality of a placement.
pub type Cost = u32;

/// A candidate is a plausible element of a solution. In a Latin square
/// this is a treatment in a specific cell.
#[derive(Clone, Copy, PartialEq, Eq, Structural, Hash, Debug)]
pub struct Candidate {
    pub row: usize,
    pub col: usize,
    pub treatment: SquareItem,
}

impl Candidate {
    /// Create a new candidate.
    pub fn new(row: usize, col: usize, treatment: SquareItem) -> (candidate: Candidate)
        ensures
            candidate == (Candidate { row, col, treatment }),
    {
        Candidate { row, col, treatment }
    }
}

/// The candidate that places the symbol `v` at (`r`, `c`).
pub open spec fn placement(r: int, c: int, v: int) -> Candidate {
    Candidate { row: r as usize, col: c as usize, treatment: SquareItem::Treatment(v as u32) }
}

/// The symbol that a candidate places; meaningful where it places one.
pub open spec fn placed(candidate: Candidate) -> int {
    match candidate.treatment {
        SquareItem::Treatment(v) => v as int,
        _ => -1,
    }
}

/// Whether a candidate places a symbol of `0..n` in a cell of an `n` by `n` grid.
pub open spec fn fits(candidate: Candidate, n: int) -> bool {
    &&& candidate.row < n
    &&& candidate.col < n
    &&& candidate.treatment is Treatment
    &&& placed(candidate) < n
}

/// Whether (`r1`, `c1`, `v1`) comes before (`r2`, `c2`, `v2`) when the cells
/// are walked row by row and the symbols of each cell in rising order.
pub open spec fn earlier(r1: int, c1: int, v1: int, r2: int, c2: int, v2: int) -> bool {
    r1 < r2 || (r1 == r2 && (c1 < c2 || (c1 == c2 && v1 < v2)))
}

/// Whether candidate `a` comes before candidate `b` in that walk.
pub open spec fn precedes(a: Candidate, b: Candidate) -> bool {
    earlier(a.row as int, a.col as int, placed(a), b.row as int, b.col as int, placed(b))
}

/// Whether the set holds a candidate at all.
pub open spec fn inhabited(m: Map<Candidate, Cost>) -> bool {
    exists|cand: Candidate| m.contains_key(cand)
}

/// A set of all candidates that are still open, each with its cost.
#[derive(Debug)]
pub struct CandidateSet {
    size: usize,
    costs: Vec<Vec<Vec<Option<Cost>>>>,
}

impl View for CandidateSet {
    type V = Map<Candidate, Cost>;

    closed spec fn view(&self) -> Map<Candidate, Cost> {
        Map::new(
            |cand: Candidate| fits(cand, self.size as int) && self.slot(cand.row as int, cand.col as int, placed(cand)) is Some,
            |cand: Candidate| self.slot(cand.row as int, cand.col as int, placed(cand))->0,
        )
    }
}

impl CandidateSet {
    /// The side of the grid that the candidates are for.
    pub closed spec fn side(&self) -> int {
        self.size as int
    }

    /// What is recorded for the symbol `v` at (`r`, `c`).
    closed spec fn slot(&self, r: int, c: int, v: int) -> Option<Cost> {
        self.costs@[r]@[c]@[v]
    }

    /// The record has a slot for every symbol at every cell.
    pub closed spec fn wf(&self) -> bool {
        &&& self.size <= u32::MAX
        &&& self.costs@.len() == self.size
        &&& forall|r: int| 0 <= r < self.size ==> (#[trigger] self.costs@[r])@.len() == self.size
        &&& forall|r: int, c: int| 0 <= r < self.size && 0 <= c < self.size ==> (#[trigger] self.costs@[r]@[c])@.len() == self.size
    }

    /// Only candidates that fit the grid are in the set.
    pub proof fn lemma_members_fit(&self)
        ensures
            forall|cand: Candidate| #[trigger] self@.contains_key(cand) ==> fits(cand, self.side()),
    {
    }

    /// The side of the grid fits the range of the symbols.
    pub proof fn lemma_side_bound(&self)
        requires
            self.wf(),
        ensures
            self.side() <= u32::MAX,
    {
    }

    /// The side of the grid that the candidates are for.
    pub fn size(&self) -> (size: usize)
        ensures
            size == self.side(),
    {
        self.size
    }

    /// The empty set of candidates for a grid of the given size.
    pub fn new(size: usize) -> (set: CandidateSet)
        requires
            size <= u32::MAX,
        ensures
            set.wf(),
            set.side() == size,
            set@ == Map::<Candidate, Cost>::empty(),
    {
        let mut costs: Vec<Vec<Vec<Option<Cost>>>> = Vec::new();
        let mut r: usize = 0;
        while r < size
            invariant
                r <= size,
                costs@.len() == r,
                forall|i: int| 0 <= i < r ==> (#[trigger] costs@[i])@.len() == size,
                forall|i: int, j: int| 0 <= i < r && 0 <= j < size ==> (#[trigger] costs@[i]@[j])@.len() == size,
                forall|i: int, j: int, v: int| 0 <= i < r && 0 <= j < size && 0 <= v < size ==> (#[trigger] costs@[i]@[j]@[v]) is None,
            decreases size - r,
        {
            let mut plane: Vec<Vec<Option<Cost>>> = Vec::new();
            let mut c: usize = 0;
            while c < size
                invariant
                    c <= size,
                    plane@.len() == c,
                    forall|j: int| 0 <= j < c ==> (#[trigger] plane@[j])@.len() == size,
                    forall|j: int, v: int| 0 <= j < c && 0 <= v < size ==> (#[trigger] plane@[j]@[v]) is None,
                decreases size - c,
            {
                let mut line: Vec<Option<Cost>> = Vec::new();
                let mut v: usize = 0;
                while v < size
                    invariant
                        v <= size,
                        line@.len() == v,
                        forall|k: int| 0 <= k < v ==> (#[trigger] line@[k]) is None,
                    decreases size - v,
                {
                    line.push(None);
                    v += 1;
                }
                plane.push(line);
                c += 1;
            }
            costs.push(plane);
            r += 1;
        }
        let set = CandidateSet { size, costs };
        assert(set@ =~= Map::<Candidate, Cost>::empty());
        set
    }

    /// Reads the slot of the symbol `v` at (`r`, `c`).
    fn slot_at(&self, r: usize, c: usize, v: usize) -> (found: Option<Cost>)
        requires
            self.wf(),
            r < self.size,
            c < self.size,
            v < self.size,
        ensures
            found == self.slot(r as int, c as int, v as int),
    {
        self.costs[r][c][v]
    }

    /// Writes the slot of the symbol `v` at (`r`, `c`).
    fn set_slot(&mut self, r: usize, c: usize, v: usize, entry: Option<Cost>)
        requires
            old(self).wf(),
            r < old(self).size,
            c < old(self).size,
            v < old(self).size,
        ensures
            final(self).wf(),
            final(self).size == old(self).size,
            final(self).slot(r as int, c as int, v as int) == entry,
            forall|i: int, j: int, k: int|
                0 <= i < old(self).size && 0 <= j < old(self).size && 0 <= k < old(self).size && !(i == r && j == c && k == v)
                    ==> final(self).slot(i, j, k) == old(self).slot(i, j, k),
    {
        self.costs[r][c][v] = entry;
    }

    /// Where a candidate's slot is, if it fits the grid.
    fn locate(&self, cand: &Candidate) -> (place: Option<(usize, usize, usize)>)
        ensures
            place is Some <==> fits(*cand, self.size as int),
            place is Some ==> place->0 == (cand.row, cand.col, placed(*cand) as usize),
    {
        match cand.treatment {
            SquareItem::Treatment(v) => {
                if cand.row < self.size && cand.col < self.size && (v as usize) < self.size {
                    Some((cand.row, cand.col, v as usize))
                } else {
                    None
                }
            },
            _ => None,
        }
    }

    /// The cost recorded for a candidate, if it is in the set.
    pub fn get(&self, cand: &Candidate) -> (cost: Option<Cost>)
        requires
            self.wf(),
        ensures
            cost == if self@.contains_key(*cand) { Some(self@[*cand]) } else { None },
    {
        match self.locate(cand) {
            Some((r, c, v)) => self.slot_at(r, c, v),
            None => None,
        }
    }

    /// Puts a candidate into the set with the given cost, and returns the cost
    /// that it had there before.
    pub fn insert(&mut self, cand: Candidate, cost: Cost) -> (previous: Option<Cost>)
        requires
            old(self).wf(),
            fits(cand, old(self).side()),
        ensures
            final(self).wf(),
            final(self).side() == old(self).side(),
            final(self)@ == old(self)@.insert(cand, cost),
            previous == if old(self)@.contains_key(cand) { Some(old(self)@[cand]) } else { None },
    {
        match self.locate(&cand) {
            Some((r, c, v)) => {
                let previous = self.slot_at(r, c, v);
                self.set_slot(r, c, v, Some(cost));
                assert(self@ =~= old(self)@.insert(cand, cost));
                previous
            },
            None => None,
        }
    }

    /// Takes a candidate out of the set, and returns the cost that it had there.
    pub fn remove(&mut self, cand: &Candidate) -> (previous: Option<Cost>)
        requires
            old(self).wf(),
        ensures
            final(self).wf(),
            final(self).side() == old(self).side(),
            final(self)@ == old(self)@.remove(*cand),
            previous == if old(self)@.contains_key(*cand) { Some(old(self)@[*cand]) } else { None },
    {
        match self.locate(cand) {
            Some((r, c, v)) => {
                let previous = self.slot_at(r, c, v);
                self.set_slot(r, c, v, None);
                assert(self@ =~= old(self)@.remove(*cand));
                previous
            },
            None => {
                assert(self@ =~= old(self)@.remove(*cand));
                None
            },
        }
    }

    /// Raises the cost of a candidate by one, if it is in the set.
    pub fn bump(&mut self, cand: &Candidate)
        requires
            old(self).wf(),
            old(self)@.contains_key(*cand) ==> old(self)@[*cand] < u32::MAX,
        ensures
            final(self).wf(),
            final(self).side() == old(self).side(),
            final(self)@ == if old(self)@.contains_key(*cand) {
                old(self)@.insert(*cand, (old(self)@[*cand] + 1) as u32)
            } else {
                old(self)@
            },
    {
        match self.get(cand) {
            Some(cost) => {
                self.insert(*cand, cost + 1);
            },
            None => {},
        }
    }
}

impl CandidateSet {
    /// The candidates of the set with their costs, in the order of the walk
    /// row by row, each once.
    pub fn entries(&self) -> (list: Vec<(Candidate, Cost)>)
        requires
            self.wf(),
        ensures
            forall|i: int| 0 <= i < list@.len() ==> self@.contains_key((#[trigger] list@[i]).0) && self@[list@[i].0] == list@[i].1,
            forall|cand: Candidate| self@.contains_key(cand) ==> exists|i: int| 0 <= i < list@.len() && (#[trigger] list@[i]).0 == cand,
            forall|i: int, j: int| 0 <= i < j < list@.len() ==> precedes((#[trigger] list@[i]).0, (#[trigger] list@[j]).0),
    {
        let n = self.size;
        let mut list: Vec<(Candidate, Cost)> = Vec::new();
        let mut r: usize = 0;
        while r < n
            invariant
                self.wf(),
                n == self.size,
                r <= n,
                forall|i: int| 0 <= i < list@.len() ==> self@.contains_key((#[trigger] list@[i]).0) && self@[list@[i].0] == list@[i].1,
                forall|i: int| 0 <= i < list@.len() ==> (#[trigger] list@[i]).0.row < r,
                forall|i: int, j: int| 0 <= i < j < list@.len() ==> precedes((#[trigger] list@[i]).0, (#[trigger] list@[j]).0),
                forall|i: int, j: int, k: int| 0 <= i < r && 0 <= j < n && 0 <= k < n && (#[trigger] self.slot(i, j, k)) is Some
                    ==> exists|x: int| 0 <= x < list@.len() && (#[trigger] list@[x]).0 == placement(i, j, k),
            decreases n - r,
        {
            let mut c: usize = 0;
            while c < n
                invariant
                    self.wf(),
                    n == self.size,
                    r < n,
                    c <= n,
                    forall|i: int| 0 <= i < list@.len() ==> self@.contains_key((#[trigger] list@[i]).0) && self@[list@[i].0] == list@[i].1,
                    forall|i: int| 0 <= i < list@.len() ==> earlier((#[trigger] list@[i]).0.row as int, list@[i].0.col as int, placed(list@[i].0), r as int, c as int, 0),
                    forall|i: int, j: int| 0 <= i < j < list@.len() ==> precedes((#[trigger] list@[i]).0, (#[trigger] list@[j]).0),
                    forall|i: int, j: int, k: int| 0 <= i < n && 0 <= j < n && 0 <= k < n && earlier(i, j, k, r as int, c as int, 0) && (#[trigger] self.slot(i, j, k)) is Some
                        ==> exists|x: int| 0 <= x < list@.len() && (#[trigger] list@[x]).0 == placement(i, j, k),
                decreases n - c,
            {
                let mut v: usize = 0;
                while v < n
                    invariant
                        self.wf(),
                        n == self.size,
                        r < n,
                        c < n,
                        v <= n,
                        forall|i: int| 0 <= i < list@.len() ==> self@.contains_key((#[trigger] list@[i]).0) && self@[list@[i].0] == list@[i].1,
                        forall|i: int| 0 <= i < list@.len() ==> earlier((#[trigger] list@[i]).0.row as int, list@[i].0.col as int, placed(list@[i].0), r as int, c as int, v as int),
                        forall|i: int, j: int| 0 <= i < j < list@.len() ==> precedes((#[trigger] list@[i]).0, (#[trigger] list@[j]).0),
                        forall|i: int, j: int, k: int| 0 <= i < n && 0 <= j < n && 0 <= k < n && earlier(i, j, k, r as int, c as int, v as int) && (#[trigger] self.slot(i, j, k)) is Some
                            ==> exists|x: int| 0 <= x < list@.len() && (#[trigger] list@[x]).0 == placement(i, j, k),
                    decreases n - v,
                {
                    let ghost before = list@;
                    match self.slot_at(r, c, v) {
                        Some(cost) => {
                            let cand = Candidate::new(r, c, SquareItem::Treatment(v as u32));
                            assert(cand == placement(r as int, c as int, v as int));
                            list.push((cand, cost));
                        },
                        None => {},
                    }
                    proof {
                        assert forall|i: int, j: int, k: int| 0 <= i < n && 0 <= j < n && 0 <= k < n && earlier(i, j, k, r as int, c as int, v as int + 1) && (#[trigger] self.slot(i, j, k)) is Some
                            implies exists|x: int| 0 <= x < list@.len() && (#[trigger] list@[x]).0 == placement(i, j, k) by {
                            if earlier(i, j, k, r as int, c as int, v as int) {
                                let x = choose|x: int| 0 <= x < before.len() && (#[trigger] before[x]).0 == placement(i, j, k);
                                assert(list@[x] == before[x]);
                            } else {
                                assert(i == r && j == c && k == v);
                                assert(list@[list@.len() - 1].0 == placement(i, j, k));
                            }
                        }
                    }
                    v += 1;
                }
                c += 1;
            }
            r += 1;
        }
        proof {
            assert forall|cand: Candidate| self@.contains_key(cand) implies exists|i: int| 0 <= i < list@.len() && (#[trigger] list@[i]).0 == cand by {
                assert(self.slot(cand.row as int, cand.col as int, placed(cand)) is Some);
                assert(cand == placement(cand.row as int, cand.col as int, placed(cand)));
            }
        }
        list
    }

    /// The number of candidates in the set.
    pub fn len(&self) -> (len: usize)
        requires
            self.wf(),
        ensures
            self@.dom().finite(),
            len == self@.dom().len(),
    {
        let list = self.entries();
        proof {
            let keys = Seq::new(list@.len(), |i: int| list@[i].0);
            assert forall|i: int, j: int| 0 <= i < keys.len() && 0 <= j < keys.len() && i != j implies keys[i] != keys[j] by {
                if i < j {
                    assert(precedes(list@[i].0, list@[j].0));
                } else {
                    assert(precedes(list@[j].0, list@[i].0));
                }
            }
            assert forall|cand: Candidate| self@.dom().contains(cand) <==> keys.to_set().contains(cand) by {
                if self@.contains_key(cand) {
                    let i = choose|i: int| 0 <= i < list@.len() && (#[trigger] list@[i]).0 == cand;
                    assert(keys[i] == cand);
                }
                if keys.contains(cand) {
                    let i = choose|i: int| 0 <= i < keys.len() && keys[i] == cand;
                    assert(self@.contains_key(list@[i].0));
                }
            }
            assert(self@.dom() =~= keys.to_set());
            vstd::seq_lib::seq_to_set_is_finite(keys);
            keys.unique_seq_to_set();
        }
        list.len()
    }

    /// Whether no candidate is left.
    pub fn is_empty(&self) -> (empty: bool)
        requires
            self.wf(),
        ensures
            empty == (self@ == Map::<Candidate, Cost>::empty()),
            empty == !inhabited(self@),
    {
        let list = self.entries();
        proof {
            if list@.len() == 0 {
                assert(self@ =~= Map::<Candidate, Cost>::empty());
            } else {
                assert(self@.contains_key(list@[0].0));
            }
        }
        list.len() == 0
    }
}


} // verus!
