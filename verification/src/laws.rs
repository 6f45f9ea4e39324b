//! General laws of the simulation, stated over the same spec-level model
//! that the board's contracts use: the empty board is a fixed point, a
//! lone cell has no neighbors and dies, insertion is idempotent, and the
//! step of two well-separated clusters is the step of each on its own.

use vstd::prelude::*;

use crate::board::alive_next;
use crate::board::neighbor_count_spec;
use crate::board::step_spec;
use crate::position::adjacent;

verus! {

/// Stepping the empty board yields the empty board: with no live cell,
/// every neighbor count is zero, so nothing survives and nothing is born.
pub proof fn lemma_step_empty()
    ensures
        step_spec(Set::<(int, int)>::empty()) == Set::<(int, int)>::empty(),
{
    assert(step_spec(Set::<(int, int)>::empty()) =~= Set::<(int, int)>::empty());
}

/// A lone live cell has zero live neighbors, and a board holding only that
/// cell steps to the empty board: isolated cells die.
pub proof fn lemma_lone_cell(p: (int, int))
    ensures
        neighbor_count_spec(Set::<(int, int)>::empty().insert(p), p) == 0,
        step_spec(Set::<(int, int)>::empty().insert(p)) == Set::<(int, int)>::empty(),
{
    let b = Set::<(int, int)>::empty().insert(p);
    assert(step_spec(b) =~= Set::<(int, int)>::empty());
}

/// Making a cell live is idempotent at the level of the board's set: the
/// cell is live afterwards, and inserting it again changes nothing — not
/// the membership and not the cardinality.
pub proof fn lemma_set_alive_idempotent(s: Set<(int, int)>, p: (int, int))
    ensures
        s.insert(p).contains(p),
        s.insert(p).insert(p) == s.insert(p),
{
    assert(s.insert(p).insert(p) =~= s.insert(p));
}

/// Whether `q` lies within Chebyshev distance one of `p`: `q` is `p`
/// itself or one of its eight neighbors. Only such cells enter `p`'s
/// membership test or neighbor count.
pub open spec fn within_one(p: (int, int), q: (int, int)) -> bool {
    &&& -1 <= p.0 - q.0 <= 1
    &&& -1 <= p.1 - q.1 <= 1
}

/// Whether every cell of `b1` is more than two apart, on one axis or the
/// other, from every cell of `b2`: no candidate cell of one cluster can
/// see the other.
pub open spec fn well_separated(b1: Set<(int, int)>, b2: Set<(int, int)>) -> bool {
    forall|p: (int, int), q: (int, int)|
        #[trigger] b1.contains(p) && #[trigger] b2.contains(q) ==> (p.0 - q.0 > 2 || q.0 - p.0 > 2
            || p.1 - q.1 > 2 || q.1 - p.1 > 2)
}

/// A board no cell of which lies within distance one of `p` contributes
/// nothing at `p`: the count there is zero and `p` is not live on it.
proof fn lemma_untouched(b: Set<(int, int)>, p: (int, int))
    requires
        forall|q: (int, int)| #[trigger] b.contains(q) ==> !within_one(p, q),
    ensures
        neighbor_count_spec(b, p) == 0,
        !b.contains(p),
{
}

/// On disjoint boards the neighbor count splits: counting against the
/// union is counting against each part and adding.
proof fn lemma_count_disjoint_union(b1: Set<(int, int)>, b2: Set<(int, int)>, p: (int, int))
    requires
        forall|x: (int, int)| !(#[trigger] b1.contains(x) && #[trigger] b2.contains(x)),
    ensures
        neighbor_count_spec(b1.union(b2), p) == neighbor_count_spec(b1, p) + neighbor_count_spec(
            b2,
            p,
        ),
{
}

/// Locality of the step: two well-separated clusters evolve independently.
/// Stepping their union is exactly the union of stepping each alone — a
/// cell far from a cluster neither affects it nor is affected by it.
pub proof fn lemma_step_locality(b1: Set<(int, int)>, b2: Set<(int, int)>)
    requires
        well_separated(b1, b2),
    ensures
        step_spec(b1.union(b2)) == step_spec(b1).union(step_spec(b2)),
{
    let u = b1.union(b2);
    assert forall|x: (int, int)| !(#[trigger] b1.contains(x) && #[trigger] b2.contains(x)) by {
        if b1.contains(x) && b2.contains(x) {
            assert(false);
        }
    }
    assert forall|p: (int, int)|
        alive_next(u, p) == (alive_next(b1, p) || alive_next(b2, p)) by {
        lemma_count_disjoint_union(b1, b2, p);
        if exists|q: (int, int)| #[trigger] b1.contains(q) && within_one(p, q) {
            let q1 = choose|q: (int, int)| #[trigger] b1.contains(q) && within_one(p, q);
            assert forall|q: (int, int)| #[trigger] b2.contains(q) implies !within_one(p, q) by {
                if within_one(p, q) {
                    assert(false);
                }
            }
            lemma_untouched(b2, p);
        } else {
            assert forall|q: (int, int)| #[trigger] b1.contains(q) implies !within_one(p, q) by {
            }
            lemma_untouched(b1, p);
        }
    }
    assert(step_spec(u) =~= step_spec(b1).union(step_spec(b2)));
}

} // verus!
