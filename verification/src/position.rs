//! Positions on the infinite two-dimensional lattice, and the geometry of
//! the Moore neighborhood (the eight cells surrounding a position).

use vstd::prelude::*;

verus! {

/// One cell of the infinite lattice, identified by its signed coordinates.
/// Equality is structural: two positions are the same cell exactly when
/// both coordinates match.
#[derive(Clone, Copy, PartialEq, Eq, Structural, Hash, Debug)]
pub struct Position {
    pub x: i32,
    pub y: i32,
}

impl View for Position {
    type V = (int, int);

    open spec fn view(&self) -> (int, int) {
        (self.x as int, self.y as int)
    }
}

/// Two lattice points are adjacent when they are distinct and differ by at
/// most one in each coordinate: `q` lies in the Moore neighborhood of `p`.
pub open spec fn adjacent(p: (int, int), q: (int, int)) -> bool {
    &&& p != q
    &&& -1 <= p.0 - q.0 <= 1
    &&& -1 <= p.1 - q.1 <= 1
}

impl Position {
    pub fn new(x: i32, y: i32) -> (r: Position)
        ensures
            r@ == (x as int, y as int),
    {
        Position { x, y }
    }
}

/// The eight surrounding cells of a value that stands for a lattice point.
pub trait Around {
    /// The lattice point this value stands for.
    spec fn pos(&self) -> (int, int);

    /// Both coordinates are far enough from the extremes of the coordinate
    /// type that every neighbor is representable.
    spec fn can_move(&self) -> bool;

    /// The Moore neighborhood, as values: eight pairwise distinct positions
    /// that together are exactly `neighborhood(self.pos())`.
    fn around(&self) -> (r: Vec<Position>)
        requires
            self.can_move(),
        ensures
            r@.len() == 8,
            r@[0]@ == (self.pos().0 - 1, self.pos().1 - 1),
            r@[1]@ == (self.pos().0, self.pos().1 - 1),
            r@[2]@ == (self.pos().0 + 1, self.pos().1 - 1),
            r@[3]@ == (self.pos().0 - 1, self.pos().1),
            r@[4]@ == (self.pos().0 + 1, self.pos().1),
            r@[5]@ == (self.pos().0 - 1, self.pos().1 + 1),
            r@[6]@ == (self.pos().0, self.pos().1 + 1),
            r@[7]@ == (self.pos().0 + 1, self.pos().1 + 1),
            forall|i: int| 0 <= i < 8 ==> adjacent(self.pos(), #[trigger] r@[i]@),
            forall|q: (int, int)|
                #[trigger] adjacent(self.pos(), q) ==> q == r@[0]@ || q == r@[1]@ || q == r@[2]@
                    || q == r@[3]@ || q == r@[4]@ || q == r@[5]@ || q == r@[6]@ || q == r@[7]@,
    ;
}

impl Around for Position {
    open spec fn pos(&self) -> (int, int) {
        self@
    }

    open spec fn can_move(&self) -> bool {
        &&& i32::MIN < self.x < i32::MAX
        &&& i32::MIN < self.y < i32::MAX
    }

    fn around(&self) -> (r: Vec<Position>)
    {
        let mut r: Vec<Position> = Vec::new();
        r.push(Position { x: self.x - 1, y: self.y - 1 });
        r.push(Position { x: self.x, y: self.y - 1 });
        r.push(Position { x: self.x + 1, y: self.y - 1 });
        r.push(Position { x: self.x - 1, y: self.y });
        r.push(Position { x: self.x + 1, y: self.y });
        r.push(Position { x: self.x - 1, y: self.y + 1 });
        r.push(Position { x: self.x, y: self.y + 1 });
        r.push(Position { x: self.x + 1, y: self.y + 1 });
        r
    }
}

} // verus!
