//! Headings of the snake and the rule for turning.

use vstd::prelude::*;

verus! {

/// Where the snake is heading. A fresh snake has no heading and rests until
/// it is given one.
#[derive(Clone, Copy, Debug, PartialEq, Eq, Structural)]
pub enum Direction {
    Up,
    Down,
    Right,
    Left,
    /// No heading yet: the snake rests.
    Still,
}

impl Direction {
    /// Two headings are opposed when they lie on one axis and point against
    /// each other.
    pub open spec fn opposed(self, other: Direction) -> bool {
        match (self, other) {
            (Direction::Up, Direction::Down) => true,
            (Direction::Down, Direction::Up) => true,
            (Direction::Left, Direction::Right) => true,
            (Direction::Right, Direction::Left) => true,
            _ => false,
        }
    }

    /// Whether this is one of the four headings that move the snake.
    pub open spec fn is_cardinal(self) -> bool {
        self != Direction::Still
    }

    /// Whether a snake heading this way may turn to `other`: any turn but a
    /// reversal onto its own neck.
    pub fn can_move(&self, other: &Direction) -> (allowed: bool)
        ensures
            allowed == !self.opposed(*other),
    {
        match (*self, *other) {
            (Direction::Up, Direction::Down) => false,
            (Direction::Down, Direction::Up) => false,
            (Direction::Left, Direction::Right) => false,
            (Direction::Right, Direction::Left) => false,
            _ => true,
        }
    }
}

} // verus!
