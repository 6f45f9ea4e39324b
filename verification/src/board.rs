//! The sparse board: a set of live positions on the unbounded lattice,
//! with point-membership queries, idempotent insertion, neighbor counting,
//! and the generation step.

use vstd::prelude::*;

use crate::position::adjacent;
use crate::position::Around;
use crate::position::Position;

verus! {

/// 1 if `q` is live on `b`, else 0.
pub open spec fn cell_ind(b: Set<(int, int)>, q: (int, int)) -> int {
    if b.contains(q) {
        1
    } else {
        0
    }
}

/// How many of the eight neighbors of `p` are live on `b`. Defined over the
/// whole lattice, whether or not `p` itself is live.
pub open spec fn neighbor_count_spec(b: Set<(int, int)>, p: (int, int)) -> int {
    cell_ind(b, (p.0 - 1, p.1 - 1)) + cell_ind(b, (p.0, p.1 - 1)) + cell_ind(
        b,
        (p.0 + 1, p.1 - 1),
    ) + cell_ind(b, (p.0 - 1, p.1)) + cell_ind(b, (p.0 + 1, p.1)) + cell_ind(
        b,
        (p.0 - 1, p.1 + 1),
    ) + cell_ind(b, (p.0, p.1 + 1)) + cell_ind(b, (p.0 + 1, p.1 + 1))
}

/// The birth/survival rule: whether `p` is live in the generation after `b`.
/// A live cell survives with two or three live neighbors; a dead cell is
/// born with exactly three.
pub open spec fn alive_next(b: Set<(int, int)>, p: (int, int)) -> bool {
    if b.contains(p) {
        neighbor_count_spec(b, p) == 2 || neighbor_count_spec(b, p) == 3
    } else {
        neighbor_count_spec(b, p) == 3
    }
}

/// The next generation of `b`: every lattice point the rule makes live,
/// all judged against the one snapshot `b`.
pub open spec fn step_spec(b: Set<(int, int)>) -> Set<(int, int)> {
    Set::new(|p: (int, int)| alive_next(b, p))
}

/// The set of lattice points that a sequence of positions covers.
pub open spec fn seq_set(s: Seq<Position>) -> Set<(int, int)> {
    Set::new(|q: (int, int)| exists|i: int| 0 <= i < s.len() && #[trigger] s[i]@ == q)
}

/// Whether every live cell of `b` is far enough from the extremes of the
/// 32-bit coordinate range that all eight of its neighbors are
/// representable.
pub open spec fn all_can_move(b: Set<(int, int)>) -> bool {
    forall|q: (int, int)|
        #[trigger] b.contains(q) ==> (i32::MIN as int) < q.0 && q.0 < (i32::MAX as int) && (
        i32::MIN as int) < q.1 && q.1 < (i32::MAX as int)
}

/// A positive neighbor count names a live neighbor: one of the eight cells
/// around `p` is a member of `b`.
proof fn lemma_neighbor_witness(b: Set<(int, int)>, p: (int, int))
    requires
        neighbor_count_spec(b, p) >= 1,
    ensures
        exists|q: (int, int)| #[trigger] b.contains(q) && adjacent(p, q),
{
    if b.contains((p.0 - 1, p.1 - 1)) {
        assert(b.contains((p.0 - 1, p.1 - 1)) && adjacent(p, (p.0 - 1, p.1 - 1)));
    } else if b.contains((p.0, p.1 - 1)) {
        assert(b.contains((p.0, p.1 - 1)) && adjacent(p, (p.0, p.1 - 1)));
    } else if b.contains((p.0 + 1, p.1 - 1)) {
        assert(b.contains((p.0 + 1, p.1 - 1)) && adjacent(p, (p.0 + 1, p.1 - 1)));
    } else if b.contains((p.0 - 1, p.1)) {
        assert(b.contains((p.0 - 1, p.1)) && adjacent(p, (p.0 - 1, p.1)));
    } else if b.contains((p.0 + 1, p.1)) {
        assert(b.contains((p.0 + 1, p.1)) && adjacent(p, (p.0 + 1, p.1)));
    } else if b.contains((p.0 - 1, p.1 + 1)) {
        assert(b.contains((p.0 - 1, p.1 + 1)) && adjacent(p, (p.0 - 1, p.1 + 1)));
    } else if b.contains((p.0, p.1 + 1)) {
        assert(b.contains((p.0, p.1 + 1)) && adjacent(p, (p.0, p.1 + 1)));
    } else {
        assert(b.contains((p.0 + 1, p.1 + 1)) && adjacent(p, (p.0 + 1, p.1 + 1)));
    }
}

/// Appending one position to a sequence adds exactly its lattice point to
/// the covered set.
proof fn lemma_seq_set_push(s: Seq<Position>, p: Position)
    ensures
        seq_set(s.push(p)) == seq_set(s).insert(p@),
{
    let t = s.push(p);
    assert forall|q: (int, int)| seq_set(t).contains(q) implies seq_set(s).insert(p@).contains(
        q,
    ) by {
        let i = choose|i: int| 0 <= i < t.len() && #[trigger] t[i]@ == q;
        if i < s.len() {
            assert(s[i]@ == q);
        }
    }
    assert forall|q: (int, int)| seq_set(s).insert(p@).contains(q) implies seq_set(t).contains(
        q,
    ) by {
        if seq_set(s).contains(q) {
            let i = choose|i: int| 0 <= i < s.len() && #[trigger] s[i]@ == q;
            assert(t[i]@ == q);
        } else {
            assert(t[s.len() as int]@ == q);
        }
    }
    assert(seq_set(s.push(p)) =~= seq_set(s).insert(p@));
}

/// A sequence of pairwise distinct positions covers a finite set of
/// exactly its own length.
proof fn lemma_seq_set_len(s: Seq<Position>)
    requires
        forall|i: int, j: int| 0 <= i < j < s.len() ==> #[trigger] s[i]@ != #[trigger] s[j]@,
    ensures
        seq_set(s).finite(),
        seq_set(s).len() == s.len(),
    decreases s.len(),
{
    if s.len() == 0 {
        assert(seq_set(s) =~= Set::<(int, int)>::empty());
    } else {
        let s0 = s.drop_last();
        lemma_seq_set_len(s0);
        assert(s =~= s0.push(s.last()));
        lemma_seq_set_push(s0, s.last());
        assert(!seq_set(s0).contains(s.last()@));
    }
}

/// A sparse board: exactly the live cells are stored, each once; every
/// position absent from `cells` is dead. The universe is unbounded.
pub struct Board {
    cells: Vec<Position>,
}

impl View for Board {
    type V = Set<(int, int)>;

    closed spec fn view(&self) -> Set<(int, int)> {
        seq_set(self.cells@)
    }
}

impl Board {
    /// No position is stored twice: the vector is a faithful set.
    pub closed spec fn wf(&self) -> bool {
        forall|i: int, j: int|
            0 <= i < j < self.cells@.len() ==> #[trigger] self.cells@[i]@ != #[trigger] self.cells@[j]@
    }

    /// The empty board: every cell of the lattice is dead.
    pub fn new() -> (r: Board)
        ensures
            r.wf(),
            r@ == Set::<(int, int)>::empty(),
    {
        let r = Board { cells: Vec::new() };
        proof {
            assert(r@ =~= Set::<(int, int)>::empty());
        }
        r
    }

    /// Membership at arbitrary 64-bit coordinates. Coordinates outside the
    /// 32-bit range are never live, so neighbor counting near the extremes
    /// of the coordinate type needs no special case.
    fn contains_xy(&self, x: i64, y: i64) -> (r: bool)
        ensures
            r == self@.contains((x as int, y as int)),
    {
        let n = self.cells.len();
        let mut i: usize = 0;
        while i < n
            invariant
                n == self.cells@.len(),
                0 <= i <= n,
                forall|j: int| 0 <= j < i ==> #[trigger] self.cells@[j]@ != (x as int, y as int),
            decreases n - i,
        {
            let c = self.cells[i];
            if c.x as i64 == x && c.y as i64 == y {
                proof {
                    assert(self.cells@[i as int]@ == (x as int, y as int));
                }
                return true;
            }
            i = i + 1;
        }
        proof {
            assert(!self@.contains((x as int, y as int)));
        }
        false
    }

    /// How many cells are live: the cardinality of the board's set.
    pub fn len(&self) -> (r: usize)
        requires
            self.wf(),
        ensures
            self@.finite(),
            r == self@.len(),
    {
        proof {
            lemma_seq_set_len(self.cells@);
        }
        self.cells.len()
    }

    /// Whether every live cell is far enough from the extremes of the
    /// coordinate range that `advance` may be called: its precondition,
    /// decided at run time.
    pub fn can_advance(&self) -> (r: bool)
        ensures
            r == all_can_move(self@),
    {
        let n = self.cells.len();
        let mut i: usize = 0;
        while i < n
            invariant
                n == self.cells@.len(),
                0 <= i <= n,
                forall|j: int|
                    0 <= j < i ==> (i32::MIN as int) < #[trigger] self.cells@[j]@.0
                        && self.cells@[j]@.0 < (i32::MAX as int) && (i32::MIN as int)
                        < self.cells@[j]@.1 && self.cells@[j]@.1 < (i32::MAX as int),
            decreases n - i,
        {
            let c = self.cells[i];
            if !(c.x > i32::MIN && c.x < i32::MAX && c.y > i32::MIN && c.y < i32::MAX) {
                proof {
                    assert(self@.contains(self.cells@[i as int]@));
                }
                return false;
            }
            i = i + 1;
        }
        proof {
            assert forall|q: (int, int)| #[trigger] self@.contains(q) implies (i32::MIN as int)
                < q.0 && q.0 < (i32::MAX as int) && (i32::MIN as int) < q.1 && q.1 < (
            i32::MAX as int) by {
                let j = choose|j: int|
                    0 <= j < self.cells@.len() && #[trigger] self.cells@[j]@ == q;
            }
        }
        true
    }

    /// Live-cell query: is `point` a member of the board?
    pub fn contains(&self, point: &Position) -> (r: bool)
        ensures
            r == self@.contains(point@),
    {
        self.contains_xy(point.x as i64, point.y as i64)
    }

    /// Idempotent insertion: make `point` live, leaving the board otherwise
    /// unchanged. Inserting a cell that is already live changes nothing.
    pub fn set_alive(&mut self, point: Position)
        requires
            old(self).wf(),
        ensures
            final(self).wf(),
            final(self)@ == old(self)@.insert(point@),
    {
        if !self.contains(&point) {
            proof {
                lemma_seq_set_push(self.cells@, point);
            }
            self.cells.push(point);
        } else {
            proof {
                assert(old(self)@.insert(point@) =~= old(self)@);
            }
        }
    }

    /// The count (0 to 8) of the eight neighbors of `point` that are live.
    /// Total over the entire lattice: near the extremes of the coordinate
    /// type, out-of-range neighbors are simply dead.
    pub fn neighbours(&self, point: &Position) -> (r: u8)
        ensures
            r as int == neighbor_count_spec(self@, point@),
            r <= 8,
    {
        let x = point.x as i64;
        let y = point.y as i64;
        let mut r: u8 = 0;
        if self.contains_xy(x - 1, y - 1) {
            r = r + 1;
        }
        if self.contains_xy(x, y - 1) {
            r = r + 1;
        }
        if self.contains_xy(x + 1, y - 1) {
            r = r + 1;
        }
        if self.contains_xy(x - 1, y) {
            r = r + 1;
        }
        if self.contains_xy(x + 1, y) {
            r = r + 1;
        }
        if self.contains_xy(x - 1, y + 1) {
            r = r + 1;
        }
        if self.contains_xy(x, y + 1) {
            r = r + 1;
        }
        if self.contains_xy(x + 1, y + 1) {
            r = r + 1;
        }
        r
    }

    /// The next generation, as a fresh board. Only the candidate set — the
    /// live cells and their neighborhoods — is evaluated, and every
    /// neighbor count reads this board, the pre-step snapshot.
    #[verifier::loop_isolation(false)]
    fn next_generation(&self) -> (r: Board)
        requires
            self.wf(),
            all_can_move(self@),
        ensures
            r.wf(),
            r@ == step_spec(self@),
    {
        let n = self.cells.len();
        let mut cands: Vec<Position> = Vec::new();
        let mut i: usize = 0;
        while i < n
            invariant
                0 <= i <= n,
                forall|j: int| 0 <= j < i ==> seq_set(cands@).contains(#[trigger] self.cells@[j]@),
                forall|j: int, q: (int, int)|
                    0 <= j < i && #[trigger] adjacent(self.cells@[j]@, q) ==> seq_set(
                        cands@,
                    ).contains(q),
            decreases n - i,
        {
            let c = self.cells[i];
            proof {
                assert(self@.contains(self.cells@[i as int]@));
                lemma_seq_set_push(cands@, c);
            }
            cands.push(c);
            let nbrs = c.around();
            let mut m: usize = 0;
            while m < 8
                invariant
                    0 <= m <= 8,
                    forall|j: int|
                        0 <= j <= i ==> seq_set(cands@).contains(#[trigger] self.cells@[j]@),
                    forall|j: int, q: (int, int)|
                        0 <= j < i && #[trigger] adjacent(self.cells@[j]@, q) ==> seq_set(
                            cands@,
                        ).contains(q),
                    forall|k: int| 0 <= k < m ==> seq_set(cands@).contains(#[trigger] nbrs@[k]@),
                decreases 8 - m,
            {
                proof {
                    lemma_seq_set_push(cands@, nbrs@[m as int]);
                }
                cands.push(nbrs[m]);
                m = m + 1;
            }
            i = i + 1;
        }
        let mut next: Board = Board::new();
        proof {
            assert(next@ =~= step_spec(self@).intersect(seq_set(cands@.take(0))));
        }
        let total = cands.len();
        let mut k: usize = 0;
        while k < total
            invariant
                0 <= k <= total,
                total == cands@.len(),
                next.wf(),
                next@ == step_spec(self@).intersect(seq_set(cands@.take(k as int))),
            decreases total - k,
        {
            let c = cands[k];
            let count = self.neighbours(&c);
            let alive = self.contains(&c);
            let lives = if alive {
                count == 2 || count == 3
            } else {
                count == 3
            };
            if lives {
                next.set_alive(c);
            }
            proof {
                assert(cands@.take(k as int + 1) =~= cands@.take(k as int).push(
                    cands@[k as int],
                ));
                lemma_seq_set_push(cands@.take(k as int), c);
                assert(lives == alive_next(self@, c@));
                assert(next@ =~= step_spec(self@).intersect(seq_set(cands@.take(k as int + 1))));
            }
            k = k + 1;
        }
        proof {
            assert(cands@.take(total as int) =~= cands@);
            assert forall|p: (int, int)| step_spec(self@).contains(p) implies seq_set(
                cands@,
            ).contains(p) by {
                if self@.contains(p) {
                    let j = choose|j: int|
                        0 <= j < self.cells@.len() && #[trigger] self.cells@[j]@ == p;
                    assert(seq_set(cands@).contains(self.cells@[j]@));
                } else {
                    lemma_neighbor_witness(self@, p);
                    let q = choose|q: (int, int)| #[trigger] self@.contains(q) && adjacent(p, q);
                    let j = choose|j: int|
                        0 <= j < self.cells@.len() && #[trigger] self.cells@[j]@ == q;
                    assert(adjacent(self.cells@[j]@, p));
                }
            }
            assert(next@ =~= step_spec(self@));
        }
        next
    }

    /// Advance the board one generation in place, by the standard rule:
    /// a live cell survives exactly with two or three live neighbors, a
    /// dead cell is born exactly with three, everything judged against the
    /// board as it stood before the call.
    pub fn advance(&mut self)
        requires
            old(self).wf(),
            all_can_move(old(self)@),
        ensures
            final(self).wf(),
            final(self)@ == step_spec(old(self)@),
    {
        let r = self.next_generation();
        *self = r;
    }
}

} // verus!
