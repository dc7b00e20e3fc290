use vstd::prelude::*;

verus! {

/// One of the four cardinal directions on the output grid.
///
/// The integer encoding (see [`Direction::to_index`]) is `Up = 0`,
/// `Right = 1`, `Down = 2`, `Left = 3`; the constraints table relies on it.
#[derive(Debug, Clone, Copy, PartialEq, Eq, Structural, Hash)]
pub enum Direction {
    Up,
    Down,
    Right,
    Left,
}

/// The direction opposite to `d`: `Up <-> Down` and `Left <-> Right`.
pub open spec fn opposite_of(d: Direction) -> Direction {
    match d {
        Direction::Up => Direction::Down,
        Direction::Down => Direction::Up,
        Direction::Right => Direction::Left,
        Direction::Left => Direction::Right,
    }
}

/// The fixed integer encoding of a direction.
pub open spec fn index_of(d: Direction) -> int {
    match d {
        Direction::Up => 0,
        Direction::Right => 1,
        Direction::Down => 2,
        Direction::Left => 3,
    }
}

impl Direction {
    /// Every direction, in encoding order.
    pub fn all() -> (r: [Direction; 4])
        ensures
            r@ == seq![Direction::Up, Direction::Right, Direction::Down, Direction::Left],
    {
        let r = [Direction::Up, Direction::Right, Direction::Down, Direction::Left];
        proof {
            assert(r@ =~= seq![Direction::Up, Direction::Right, Direction::Down, Direction::Left]);
        }
        r
    }

    pub fn opposite(&self) -> (r: Direction)
        ensures
            r == opposite_of(*self),
    {
        match self {
            Direction::Up => Direction::Down,
            Direction::Down => Direction::Up,
            Direction::Right => Direction::Left,
            Direction::Left => Direction::Right,
        }
    }

    /// The position one step in this direction from `pos`.
    ///
    /// `Up` decreases the first (row) coordinate and `Left` decreases the
    /// second (column) coordinate.
    pub fn add_pos(&self, pos: (i32, i32)) -> (r: (i32, i32))
        requires
            i32::MIN < pos.0 < i32::MAX,
            i32::MIN < pos.1 < i32::MAX,
        ensures
            (r.0 as int, r.1 as int) == step_of(*self, pos.0 as int, pos.1 as int),
    {
        let (x, y) = pos;
        match *self {
            Direction::Up => (x - 1, y),
            Direction::Right => (x, y + 1),
            Direction::Down => (x + 1, y),
            Direction::Left => (x, y - 1),
        }
    }

    /// Recovers the direction that leads from `pos` to the orthogonally
    /// adjacent position `npos`.
    pub fn from_neighbors(pos: (usize, usize), npos: (usize, usize)) -> (r: Direction)
        requires
            pos.0 <= i32::MAX,
            pos.1 <= i32::MAX,
            npos.0 <= i32::MAX,
            npos.1 <= i32::MAX,
            is_unit_step(
                npos.0 as int - pos.0 as int,
                npos.1 as int - pos.1 as int,
            ),
        ensures
            (npos.0 as int, npos.1 as int) == step_of(r, pos.0 as int, pos.1 as int),
    {
        let dx = npos.0 as i32 - pos.0 as i32;
        let dy = npos.1 as i32 - pos.1 as i32;

        Direction::from_delta((dx, dy))
    }

    /// The direction whose unit displacement is `delta`.
    pub fn from_delta(delta: (i32, i32)) -> (r: Direction)
        requires
            is_unit_step(delta.0 as int, delta.1 as int),
        ensures
            forall|x: int, y: int|
                step_of(r, x, y) == (x + delta.0 as int, y + delta.1 as int),
    {
        match delta {
            (-1, 0) => Direction::Up,
            (0, 1) => Direction::Right,
            (1, 0) => Direction::Down,
            _ => Direction::Left,
        }
    }

    /// The direction with the given integer encoding.
    pub fn from_index(value: usize) -> (r: Direction)
        requires
            value < 4,
        ensures
            index_of(r) == value as int,
    {
        match value {
            0 => Direction::Up,
            1 => Direction::Right,
            2 => Direction::Down,
            _ => Direction::Left,
        }
    }

    /// The integer encoding of this direction.
    pub fn to_index(&self) -> (r: usize)
        ensures
            r as int == index_of(*self),
    {
        match *self {
            Direction::Up => 0,
            Direction::Right => 1,
            Direction::Down => 2,
            Direction::Left => 3,
        }
    }
}

/// Whether `(dx, dy)` is the displacement of exactly one step in some
/// direction.
pub open spec fn is_unit_step(dx: int, dy: int) -> bool {
    (dx == -1 && dy == 0) || (dx == 0 && dy == 1) || (dx == 1 && dy == 0) || (dx == 0 && dy == -1)
}

/// The position one step in direction `d` from `(x, y)`.
pub open spec fn step_of(d: Direction, x: int, y: int) -> (int, int) {
    match d {
        Direction::Up => (x - 1, y),
        Direction::Right => (x, y + 1),
        Direction::Down => (x + 1, y),
        Direction::Left => (x, y - 1),
    }
}

/// Taking the opposite twice leads back to the same direction.
pub proof fn lemma_opposite_involution(d: Direction)
    ensures
        opposite_of(opposite_of(d)) == d,
{
}

} // verus!
