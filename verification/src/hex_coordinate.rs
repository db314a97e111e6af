use vstd::prelude::*;

verus! {

/// A cell of the hexagonal grid, addressed by axial coordinates.
#[derive(Clone, Copy, Debug, PartialEq, Eq, Hash, Structural)]
pub struct HexCoordinate {
    pub x: i32,
    pub y: i32,
}

/// The six directions in which a cell has a neighbour, clockwise from the upper right.
#[derive(Clone, Copy, Debug, PartialEq, Eq, Structural)]
pub enum HexDirection {
    UpRight,
    Right,
    DownRight,
    DownLeft,
    Left,
    UpLeft,
}

impl HexDirection {
    /// Position of the direction in the clockwise order that starts at `UpRight`.
    pub open spec fn index(self) -> int {
        match self {
            HexDirection::UpRight => 0,
            HexDirection::Right => 1,
            HexDirection::DownRight => 2,
            HexDirection::DownLeft => 3,
            HexDirection::Left => 4,
            HexDirection::UpLeft => 5,
        }
    }

    /// The direction at position `i` (taken modulo six) of the clockwise order.
    pub open spec fn from_index(i: int) -> HexDirection {
        let r: int = i % 6;
        if r == 0 {
            HexDirection::UpRight
        } else if r == 1 {
            HexDirection::Right
        } else if r == 2 {
            HexDirection::DownRight
        } else if r == 3 {
            HexDirection::DownLeft
        } else if r == 4 {
            HexDirection::Left
        } else {
            HexDirection::UpLeft
        }
    }

    /// Change of the `x` coordinate on a step in this direction.
    pub open spec fn dx(self) -> int {
        match self {
            HexDirection::UpRight => 0,
            HexDirection::Right => 1,
            HexDirection::DownRight => 1,
            HexDirection::DownLeft => 0,
            HexDirection::Left => -1,
            HexDirection::UpLeft => -1,
        }
    }

    /// Change of the `y` coordinate on a step in this direction.
    pub open spec fn dy(self) -> int {
        match self {
            HexDirection::UpRight => 1,
            HexDirection::Right => 0,
            HexDirection::DownRight => -1,
            HexDirection::DownLeft => -1,
            HexDirection::Left => 0,
            HexDirection::UpLeft => 1,
        }
    }

    /// The direction one sixth of a turn counter-clockwise of this one.
    pub open spec fn before(self) -> HexDirection {
        HexDirection::from_index(self.index() + 5)
    }

    /// The direction one sixth of a turn clockwise of this one.
    pub open spec fn after(self) -> HexDirection {
        HexDirection::from_index(self.index() + 1)
    }

    /// The two directions that lie a sixth of a turn to either side of this one: first the
    /// counter-clockwise one, then the clockwise one.
    pub fn get_adjacent_directions(&self) -> (sides: [&HexDirection; 2])
        ensures
            *sides[0] == self.before(),
            *sides[1] == self.after(),
    {
        match self {
            HexDirection::UpRight => [&HexDirection::UpLeft, &HexDirection::Right],
            HexDirection::Right => [&HexDirection::UpRight, &HexDirection::DownRight],
            HexDirection::DownRight => [&HexDirection::Right, &HexDirection::DownLeft],
            HexDirection::DownLeft => [&HexDirection::DownRight, &HexDirection::Left],
            HexDirection::Left => [&HexDirection::DownLeft, &HexDirection::UpLeft],
            HexDirection::UpLeft => [&HexDirection::Left, &HexDirection::UpRight],
        }
    }
}

/// The six directions in clockwise order, starting at `UpRight`.
pub fn all_directions() -> (dirs: [HexDirection; 6])
    ensures
        forall|i: int| 0 <= i < 6 ==> dirs[i] == HexDirection::from_index(i),
{
    [
        HexDirection::UpRight,
        HexDirection::Right,
        HexDirection::DownRight,
        HexDirection::DownLeft,
        HexDirection::Left,
        HexDirection::UpLeft,
    ]
}

/// The number as an `i32`, brought back into the range of `i32` from one turn beyond
/// either end of it.
pub open spec fn wrapped(value: int) -> i32 {
    if value > i32::MAX {
        (value - 0x1_0000_0000) as i32
    } else if value < i32::MIN {
        (value + 0x1_0000_0000) as i32
    } else {
        value as i32
    }
}

impl Default for HexCoordinate {
    fn default() -> (c: HexCoordinate)
        ensures
            c.x == 0,
            c.y == 0,
    {
        HexCoordinate { x: 0, y: 0 }
    }
}

impl HexCoordinate {
    /// Every neighbour of the cell can be addressed with `i32` coordinates.
    pub open spec fn has_neighbors(self) -> bool {
        &&& i32::MIN < self.x < i32::MAX
        &&& i32::MIN < self.y < i32::MAX
    }

    /// The neighbouring cell in direction `d`. At the ends of the range of `i32` the
    /// coordinates wrap around.
    pub open spec fn neighbor(self, d: HexDirection) -> HexCoordinate {
        HexCoordinate { x: wrapped(self.x + d.dx()), y: wrapped(self.y + d.dy()) }
    }

    /// `other` is one of the six neighbours of the cell.
    pub open spec fn is_adjacent(self, other: HexCoordinate) -> bool {
        exists|d: HexDirection| self.neighbor(d) == other
    }

    /// The cell with the given axial coordinates.
    pub fn new(x: i32, y: i32) -> (c: HexCoordinate)
        ensures
            c.x == x,
            c.y == y,
    {
        HexCoordinate { x, y }
    }

    /// The cell on which the first piece of a game is placed.
    pub fn origin() -> (c: HexCoordinate)
        ensures
            c.x == 0,
            c.y == 0,
    {
        HexCoordinate { x: 0, y: 0 }
    }

    /// The neighbouring cell in the given direction. At the ends of the range of `i32` the
    /// coordinates wrap around; away from them they are the plain sums.
    pub fn get_relative(&self, direction: &HexDirection) -> (c: HexCoordinate)
        ensures
            c == self.neighbor(*direction),
            self.has_neighbors() ==> c.x == self.x + direction.dx() && c.y == self.y
                + direction.dy(),
    {
        match direction {
            HexDirection::UpRight => HexCoordinate { x: self.x, y: self.y.wrapping_add(1) },
            HexDirection::Right => HexCoordinate { x: self.x.wrapping_add(1), y: self.y },
            HexDirection::UpLeft => HexCoordinate {
                x: self.x.wrapping_sub(1),
                y: self.y.wrapping_add(1),
            },
            HexDirection::Left => HexCoordinate { x: self.x.wrapping_sub(1), y: self.y },
            HexDirection::DownRight => HexCoordinate {
                x: self.x.wrapping_add(1),
                y: self.y.wrapping_sub(1),
            },
            HexDirection::DownLeft => HexCoordinate { x: self.x, y: self.y.wrapping_sub(1) },
        }
    }
}

/// Every direction is the one found at its own index.
pub proof fn lemma_direction_index(d: HexDirection)
    ensures
        0 <= d.index() < 6,
        HexDirection::from_index(d.index()) == d,
{
}

/// The two flanking cells of a step are neighbours both of the cell that the step leaves
/// and of the cell that it reaches.
pub proof fn lemma_gates_touch_both(c: HexCoordinate, d: HexDirection)
    ensures
        c.neighbor(d.before()) == c.neighbor(d).neighbor(d.before().before()),
        c.neighbor(d.after()) == c.neighbor(d).neighbor(d.after().after()),
        c.neighbor(d).is_adjacent(c.neighbor(d.before())),
        c.neighbor(d).is_adjacent(c.neighbor(d.after())),
{
    assert(c.neighbor(d).neighbor(d.before().before()) == c.neighbor(d.before()));
    assert(c.neighbor(d).neighbor(d.after().after()) == c.neighbor(d.after()));
}

/// Being neighbours is symmetric.
pub proof fn lemma_adjacent_symmetric(a: HexCoordinate, b: HexCoordinate)
    requires
        a.is_adjacent(b),
    ensures
        b.is_adjacent(a),
{
    let d = choose|d: HexDirection| a.neighbor(d) == b;
    let back = HexDirection::from_index(d.index() + 3);
    assert(b.neighbor(back) == a);
}

} // verus!
