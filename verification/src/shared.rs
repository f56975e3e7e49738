use vstd::prelude::*;

verus! {

use vstd::string::StringSliceAdditionalSpecFns;

/// A coordinate on the grid: non-negative x and y.
#[derive(Clone, Copy, PartialEq, Eq, Structural, Hash, Debug)]
pub struct Point {
    pub x: usize,
    pub y: usize,
}

impl Point {
    /// Row-major order: first by y, then by x.
    pub open spec fn lt_spec(self, other: Point) -> bool {
        self.y < other.y || (self.y == other.y && self.x < other.x)
    }

    /// Decides the row-major order on points.
    pub fn before(&self, other: &Point) -> (r: bool)
        ensures
            r == self.lt_spec(*other),
    {
        self.y < other.y || (self.y == other.y && self.x < other.x)
    }
}

/// The closed set of cell states a grid position can hold.
#[derive(Clone, Copy, PartialEq, Eq, Structural, Hash, Debug)]
pub enum Tile {
    Wall,
    Empty,
    Current,
    Warp,
    NPC,
    Unknown,
}

/// The tile that a numeric tile-kind code denotes; codes outside the
/// vocabulary denote `Unknown`.
pub open spec fn spec_tile_of_code(code: u8) -> Tile {
    if code == 0 {
        Tile::Wall
    } else if code == 1 {
        Tile::Empty
    } else if code == 2 {
        Tile::Current
    } else if code == 3 {
        Tile::Warp
    } else if code == 4 {
        Tile::NPC
    } else {
        Tile::Unknown
    }
}

/// The tile denoted by a textual tile-kind code: a single decimal digit
/// in ASCII; anything else denotes `Unknown`.
pub open spec fn spec_tile_of_bytes(s: Seq<u8>) -> Tile {
    if s.len() == 1 && 48 <= s[0] <= 52 {
        spec_tile_of_code((s[0] - 48) as u8)
    } else {
        Tile::Unknown
    }
}

impl Tile {
    /// Decodes a textual tile-kind code.
    pub fn from_str(input: &str) -> (r: Tile)
        ensures
            r == spec_tile_of_bytes(input.spec_bytes()),
    {
        let b = input.as_bytes();
        if b.len() == 1 && 48 <= b[0] && b[0] <= 52 {
            Tile::from_u8(&(b[0] - 48))
        } else {
            Tile::Unknown
        }
    }

    /// Decodes a numeric tile-kind code.
    pub fn from_u8(input: &u8) -> (r: Tile)
        ensures
            r == spec_tile_of_code(*input),
    {
        if *input == 0 {
            Tile::Wall
        } else if *input == 1 {
            Tile::Empty
        } else if *input == 2 {
            Tile::Current
        } else if *input == 3 {
            Tile::Warp
        } else if *input == 4 {
            Tile::NPC
        } else {
            Tile::Unknown
        }
    }
}

/// A facing for the player token.
#[derive(Clone, Copy, PartialEq, Eq, Structural, Hash, Debug)]
pub enum Direction {
    Up,
    Down,
    Right,
    Left,
}

/// The small integer code a direction serializes to.
pub open spec fn spec_dir_code(d: Direction) -> u8 {
    match d {
        Direction::Up => 0,
        Direction::Down => 1,
        Direction::Right => 2,
        Direction::Left => 3,
    }
}

/// The direction a small integer code denotes; codes past the vocabulary
/// denote `Left`.
pub open spec fn spec_dir_of_code(code: u8) -> Direction {
    if code == 0 {
        Direction::Up
    } else if code == 1 {
        Direction::Down
    } else if code == 2 {
        Direction::Right
    } else {
        Direction::Left
    }
}

impl Direction {
    /// Serializes the direction to its integer code.
    pub fn to_u8(&self) -> (r: u8)
        ensures
            r == spec_dir_code(*self),
    {
        match self {
            Direction::Up => 0,
            Direction::Down => 1,
            Direction::Right => 2,
            Direction::Left => 3,
        }
    }

    /// Decodes an integer direction code.
    pub fn from_u8(input: u8) -> (r: Direction)
        ensures
            r == spec_dir_of_code(input),
    {
        if input == 0 {
            Direction::Up
        } else if input == 1 {
            Direction::Down
        } else if input == 2 {
            Direction::Right
        } else {
            Direction::Left
        }
    }
}

/// The parsed, static definition of one area, as the map-definition
/// collaborator hands it over: declared cells as
/// (point, (tile-kind code, (primary, secondary) occupant metadata)),
/// exclusive bounds, the default player spawn (x, y, facing code), and
/// per-NPC spawn ranges as inclusive (low, high) pairs on each axis.
pub struct ParsedMap {
    pub area: u8,
    pub part: u8,
    pub grid: Vec<(Point, (u8, (u8, u8)))>,
    pub max: (usize, usize),
    pub player: (usize, usize, u8),
    pub props: Vec<(u8, ((u8, u8), (u8, u8)))>,
}

/// Relies on rand::random_range: a draw from a non-empty inclusive range
/// lies within that range.
#[verifier::external_body]
pub fn rand_range(lo: u8, hi: u8) -> (r: u8)
    requires
        lo <= hi,
    ensures
        lo <= r <= hi,
{
    rand::random_range(lo..=hi)
}

} // verus!
