use vstd::prelude::*;

verus! {

/// One of the four cardinal directions. Used both as the snake's heading and
/// as a per-cell link towards a neighbouring segment.
#[derive(Copy, Clone, PartialEq, Eq, Structural, Debug)]
pub enum Direction {
    Up,
    Down,
    Left,
    Right,
}

impl Direction {
    /// The opposite direction: Up and Down swap, Left and Right swap.
    pub open spec fn spec_reverse(&self) -> Direction {
        match *self {
            Direction::Up => Direction::Down,
            Direction::Down => Direction::Up,
            Direction::Left => Direction::Right,
            Direction::Right => Direction::Left,
        }
    }

    /// Maps a direction to its opposite.
    #[verifier::when_used_as_spec(spec_reverse)]
    pub fn reverse(&self) -> (r: Direction)
        ensures
            r == self.spec_reverse(),
    {
        match *self {
            Direction::Up => Direction::Down,
            Direction::Down => Direction::Up,
            Direction::Left => Direction::Right,
            Direction::Right => Direction::Left,
        }
    }
}

/// The content of one grid cell.
///
/// A `Snake` cell carries the optional directions towards the previous and
/// next snake segments. The tail has only a next direction (so
/// `Snake(None, Some(_))`), the head has only a previous direction (so
/// `Snake(Some(_), None)`), and every interior segment has both set.
#[derive(Copy, Clone, PartialEq, Eq, Debug)]
pub enum Tile {
    Floor,
    Wall,
    Food,
    Snake(Option<Direction>, Option<Direction>),
}

} // verus!
