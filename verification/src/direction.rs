use vstd::prelude::*;

verus! {

/// One of the four moves a snake can make. `Up` increases `y`.
#[derive(Debug, Clone, Copy, PartialEq, Eq, Hash, Structural)]
pub enum Direction {
    Up,
    Down,
    Left,
    Right,
}

/// The step `(dx, dy)` that a direction adds to a point.
pub open spec fn spec_vector(dir: Direction) -> (int, int) {
    match dir {
        Direction::Up => (0, 1),
        Direction::Down => (0, -1),
        Direction::Left => (-1, 0),
        Direction::Right => (1, 0),
    }
}

/// The lower-case name of a direction.
pub open spec fn spec_lower_name(dir: Direction) -> Seq<char> {
    match dir {
        Direction::Up => seq!['u', 'p'],
        Direction::Down => seq!['d', 'o', 'w', 'n'],
        Direction::Left => seq!['l', 'e', 'f', 't'],
        Direction::Right => seq!['r', 'i', 'g', 'h', 't'],
    }
}

/// The upper-case name of a direction.
pub open spec fn spec_upper_name(dir: Direction) -> Seq<char> {
    match dir {
        Direction::Up => seq!['U', 'P'],
        Direction::Down => seq!['D', 'O', 'W', 'N'],
        Direction::Left => seq!['L', 'E', 'F', 'T'],
        Direction::Right => seq!['R', 'I', 'G', 'H', 'T'],
    }
}

/// The index a direction has in move tables (`Up`, `Down`, `Left`, `Right`).
pub open spec fn spec_index(dir: Direction) -> int {
    match dir {
        Direction::Up => 0,
        Direction::Down => 1,
        Direction::Left => 2,
        Direction::Right => 3,
    }
}

impl Direction {
    /// All four directions, in table order.
    pub const ALL: [Direction; 4] = [Direction::Up, Direction::Down, Direction::Left, Direction::Right];

    /// The step that this direction adds to a point.
    pub fn vector(self) -> (v: (i32, i32))
        ensures
            v.0 as int == spec_vector(self).0,
            v.1 as int == spec_vector(self).1,
    {
        match self {
            Direction::Up => (0, 1),
            Direction::Down => (0, -1),
            Direction::Left => (-1, 0),
            Direction::Right => (1, 0),
        }
    }

    /// The position of this direction in `Direction::ALL`.
    pub fn index(self) -> (i: usize)
        ensures
            i as int == spec_index(self),
    {
        match self {
            Direction::Up => 0,
            Direction::Down => 1,
            Direction::Left => 2,
            Direction::Right => 3,
        }
    }

    /// The lower-case name, as used by the move API.
    pub fn as_lower(self) -> (s: &'static str)
        ensures
            s@ == spec_lower_name(self),
    {
        match self {
            Direction::Up => {
                proof { reveal_strlit("up"); }
                "up"
            },
            Direction::Down => {
                proof { reveal_strlit("down"); }
                "down"
            },
            Direction::Left => {
                proof { reveal_strlit("left"); }
                "left"
            },
            Direction::Right => {
                proof { reveal_strlit("right"); }
                "right"
            },
        }
    }

    /// The upper-case name, as shown in reports.
    pub fn as_upper(self) -> (s: &'static str)
        ensures
            s@ == spec_upper_name(self),
    {
        match self {
            Direction::Up => {
                proof { reveal_strlit("UP"); }
                "UP"
            },
            Direction::Down => {
                proof { reveal_strlit("DOWN"); }
                "DOWN"
            },
            Direction::Left => {
                proof { reveal_strlit("LEFT"); }
                "LEFT"
            },
            Direction::Right => {
                proof { reveal_strlit("RIGHT"); }
                "RIGHT"
            },
        }
    }
}

impl Default for Direction {
    fn default() -> (d: Self)
        ensures
            d == Direction::Up,
    {
        Direction::Up
    }
}

} // verus!
