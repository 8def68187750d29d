use vstd::prelude::*;

use crate::coord::Coord;

verus! {

/// One of the eight compass directions. North points towards smaller `y`.
#[derive(Debug, Clone, Copy, PartialEq, Eq, Structural)]
pub enum Direction {
    North,
    NorthEast,
    East,
    SouthEast,
    South,
    SouthWest,
    West,
    NorthWest,
}

/// One of the four directions along a grid axis.
#[derive(Debug, Clone, Copy, PartialEq, Eq, Structural)]
pub enum CardinalDirection {
    North,
    East,
    South,
    West,
}

/// One of the four diagonal directions.
#[derive(Debug, Clone, Copy, PartialEq, Eq, Structural)]
pub enum OrdinalDirection {
    NorthEast,
    SouthEast,
    SouthWest,
    NorthWest,
}

/// The unit step of a direction, as `(dx, dy)`.
pub open spec fn dir_vec(d: Direction) -> (int, int) {
    match d {
        Direction::North => (0, -1),
        Direction::NorthEast => (1, -1),
        Direction::East => (1, 0),
        Direction::SouthEast => (1, 1),
        Direction::South => (0, 1),
        Direction::SouthWest => (-1, 1),
        Direction::West => (-1, 0),
        Direction::NorthWest => (-1, -1),
    }
}

pub open spec fn card_to_dir(c: CardinalDirection) -> Direction {
    match c {
        CardinalDirection::North => Direction::North,
        CardinalDirection::East => Direction::East,
        CardinalDirection::South => Direction::South,
        CardinalDirection::West => Direction::West,
    }
}

pub open spec fn ord_to_dir(o: OrdinalDirection) -> Direction {
    match o {
        OrdinalDirection::NorthEast => Direction::NorthEast,
        OrdinalDirection::SouthEast => Direction::SouthEast,
        OrdinalDirection::SouthWest => Direction::SouthWest,
        OrdinalDirection::NorthWest => Direction::NorthWest,
    }
}

pub open spec fn card_vec(c: CardinalDirection) -> (int, int) {
    dir_vec(card_to_dir(c))
}

pub open spec fn ord_vec(o: OrdinalDirection) -> (int, int) {
    dir_vec(ord_to_dir(o))
}

/// The vector pointing the other way.
pub open spec fn negated(v: (int, int)) -> (int, int) {
    (-v.0, -v.1)
}

/// The vector turned a quarter turn anticlockwise, as seen with north up.
pub open spec fn turned_left(v: (int, int)) -> (int, int) {
    (v.1, -v.0)
}

impl Direction {
    pub fn opposite(self) -> (r: Direction)
        ensures
            dir_vec(r) == negated(dir_vec(self)),
    {
        match self {
            Direction::North => Direction::South,
            Direction::NorthEast => Direction::SouthWest,
            Direction::East => Direction::West,
            Direction::SouthEast => Direction::NorthWest,
            Direction::South => Direction::North,
            Direction::SouthWest => Direction::NorthEast,
            Direction::West => Direction::East,
            Direction::NorthWest => Direction::SouthEast,
        }
    }

    pub fn vector(self) -> (r: Coord)
        ensures
            (r.x as int, r.y as int) == dir_vec(self),
    {
        match self {
            Direction::North => Coord::new(0, -1),
            Direction::NorthEast => Coord::new(1, -1),
            Direction::East => Coord::new(1, 0),
            Direction::SouthEast => Coord::new(1, 1),
            Direction::South => Coord::new(0, 1),
            Direction::SouthWest => Coord::new(-1, 1),
            Direction::West => Coord::new(-1, 0),
            Direction::NorthWest => Coord::new(-1, -1),
        }
    }

    pub fn left90(self) -> (r: Direction)
        ensures
            dir_vec(r) == turned_left(dir_vec(self)),
    {
        match self {
            Direction::North => Direction::West,
            Direction::NorthEast => Direction::NorthWest,
            Direction::East => Direction::North,
            Direction::SouthEast => Direction::NorthEast,
            Direction::South => Direction::East,
            Direction::SouthWest => Direction::SouthEast,
            Direction::West => Direction::South,
            Direction::NorthWest => Direction::SouthWest,
        }
    }
}

impl CardinalDirection {
    pub fn direction(self) -> (r: Direction)
        ensures
            r == card_to_dir(self),
            dir_vec(r) == card_vec(self),
    {
        match self {
            CardinalDirection::North => Direction::North,
            CardinalDirection::East => Direction::East,
            CardinalDirection::South => Direction::South,
            CardinalDirection::West => Direction::West,
        }
    }

    pub fn opposite(self) -> (r: CardinalDirection)
        ensures
            card_vec(r) == negated(card_vec(self)),
    {
        match self {
            CardinalDirection::North => CardinalDirection::South,
            CardinalDirection::East => CardinalDirection::West,
            CardinalDirection::South => CardinalDirection::North,
            CardinalDirection::West => CardinalDirection::East,
        }
    }

    pub fn vector(self) -> (r: Coord)
        ensures
            (r.x as int, r.y as int) == card_vec(self),
    {
        match self {
            CardinalDirection::North => Coord::new(0, -1),
            CardinalDirection::East => Coord::new(1, 0),
            CardinalDirection::South => Coord::new(0, 1),
            CardinalDirection::West => Coord::new(-1, 0),
        }
    }

    pub fn left90(self) -> (r: CardinalDirection)
        ensures
            card_vec(r) == turned_left(card_vec(self)),
    {
        match self {
            CardinalDirection::North => CardinalDirection::West,
            CardinalDirection::East => CardinalDirection::North,
            CardinalDirection::South => CardinalDirection::East,
            CardinalDirection::West => CardinalDirection::South,
        }
    }
}

impl OrdinalDirection {
    pub fn direction(self) -> (r: Direction)
        ensures
            r == ord_to_dir(self),
            dir_vec(r) == ord_vec(self),
    {
        match self {
            OrdinalDirection::NorthEast => Direction::NorthEast,
            OrdinalDirection::SouthEast => Direction::SouthEast,
            OrdinalDirection::SouthWest => Direction::SouthWest,
            OrdinalDirection::NorthWest => Direction::NorthWest,
        }
    }

    pub fn opposite(self) -> (r: OrdinalDirection)
        ensures
            ord_vec(r) == negated(ord_vec(self)),
    {
        match self {
            OrdinalDirection::NorthEast => OrdinalDirection::SouthWest,
            OrdinalDirection::SouthEast => OrdinalDirection::NorthWest,
            OrdinalDirection::SouthWest => OrdinalDirection::NorthEast,
            OrdinalDirection::NorthWest => OrdinalDirection::SouthEast,
        }
    }

    pub fn vector(self) -> (r: Coord)
        ensures
            (r.x as int, r.y as int) == ord_vec(self),
    {
        match self {
            OrdinalDirection::NorthEast => Coord::new(1, -1),
            OrdinalDirection::SouthEast => Coord::new(1, 1),
            OrdinalDirection::SouthWest => Coord::new(-1, 1),
            OrdinalDirection::NorthWest => Coord::new(-1, -1),
        }
    }

    pub fn left90(self) -> (r: OrdinalDirection)
        ensures
            ord_vec(r) == turned_left(ord_vec(self)),
    {
        match self {
            OrdinalDirection::NorthEast => OrdinalDirection::NorthWest,
            OrdinalDirection::SouthEast => OrdinalDirection::NorthEast,
            OrdinalDirection::SouthWest => OrdinalDirection::SouthEast,
            OrdinalDirection::NorthWest => OrdinalDirection::SouthWest,
        }
    }

    /// The diagonal between two cardinal directions of which one is
    /// horizontal and the other vertical, in either order; `None` when both
    /// lie on the same axis.
    pub fn from_cardinals(a: CardinalDirection, b: CardinalDirection) -> (r: Option<Self>)
        ensures
            r.is_some() <==> (card_vec(a).0 == 0) != (card_vec(b).0 == 0),
            r matches Some(o) ==> ord_vec(o) == (
                card_vec(a).0 + card_vec(b).0,
                card_vec(a).1 + card_vec(b).1,
            ),
    {
        match a {
            CardinalDirection::North => {
                match b {
                    CardinalDirection::East => Some(OrdinalDirection::NorthEast),
                    CardinalDirection::West => Some(OrdinalDirection::NorthWest),
                    _ => None,
                }
            },
            CardinalDirection::East => {
                match b {
                    CardinalDirection::North => Some(OrdinalDirection::NorthEast),
                    CardinalDirection::South => Some(OrdinalDirection::SouthEast),
                    _ => None,
                }
            },
            CardinalDirection::South => {
                match b {
                    CardinalDirection::East => Some(OrdinalDirection::SouthEast),
                    CardinalDirection::West => Some(OrdinalDirection::SouthWest),
                    _ => None,
                }
            },
            CardinalDirection::West => {
                match b {
                    CardinalDirection::North => Some(OrdinalDirection::NorthWest),
                    CardinalDirection::South => Some(OrdinalDirection::SouthWest),
                    _ => None,
                }
            },
        }
    }
}

} // verus!
