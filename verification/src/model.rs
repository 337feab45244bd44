//! The game as a mathematical value, and the rules as functions on it.
//!
//! Everything the executable game does is stated against `State`: a turn is
//! `State::turn`, the passing of one tick is `State::ticks_to`, and a longer
//! stretch of play is a `Seq<State>` that `is_play` accepts.

use crate::direction::Direction;
use crate::grid::{cell_at, cell_count, free_cells, in_bounds, neighbour, Cell};
use vstd::prelude::*;

verus! {

/// Why a game ended.
#[derive(Clone, Copy, Debug, PartialEq, Eq, Structural)]
pub enum Collision {
    /// The head would have left the board.
    Wall,
    /// The head would have entered a cell that the snake still covers.
    Itself,
}

/// Why a game could not be set up.
#[derive(Clone, Copy, Debug, PartialEq, Eq, Structural)]
pub enum ConfigError {
    /// The board has no columns or no rows.
    EmptyGrid,
    /// No time lies between two ticks.
    ZeroTick,
    /// The food was to lie off the board or under the snake.
    BadFood,
}

/// What a cell of the board shows.
#[derive(Clone, Copy, Debug, PartialEq, Eq, Structural)]
pub enum Tile {
    /// A cell of the snake.
    Body,
    /// The cell with the food.
    Food,
    /// An empty cell.
    Background,
}

/// A game at one moment.
pub struct State {
    /// Columns and rows of the board.
    pub grid: (u8, u8),
    /// The cells of the snake, tail first and head last.
    pub body: Seq<Cell>,
    /// The snake's heading.
    pub dir: Direction,
    /// Time gathered that no tick has used up yet.
    pub elapsed: nat,
    /// The time between two ticks.
    pub tick: u64,
    /// Cells the snake has yet to grow by.
    pub growing: u32,
    /// Cells a meal adds to `growing`.
    pub growth_rate: u32,
    /// Whether a turn was taken since the last tick.
    pub turned: bool,
    /// Where the food lies, if the board has room for any.
    pub food: Option<Cell>,
}

/// `growing` raised by `rate`, held at the largest count a `u32` can show.
pub open spec fn fed(growing: u32, rate: u32) -> u32 {
    if growing + rate > u32::MAX {
        u32::MAX
    } else {
        (growing + rate) as u32
    }
}

/// Whether food may lie at `food` beside a snake covering `body`: on a free
/// cell, or nowhere when no cell is free.
pub open spec fn food_fits(grid: (u8, u8), body: Seq<Cell>, food: Option<Cell>) -> bool {
    match food {
        Some(c) => free_cells(grid, body).contains(c),
        None => free_cells(grid, body).len() == 0,
    }
}

/// The cell in the middle of the board, where a new snake lies.
pub open spec fn center(grid: (u8, u8)) -> Cell {
    (grid.0 / 2, grid.1 / 2)
}

/// What is wrong with the settings of a new game, if anything: the first of
/// a board without cells, a tick of no length, and food that is off the
/// board or on the snake's cell.
pub open spec fn config_fault(grid: (u8, u8), tick: u64, food: Option<Cell>) -> Option<
    ConfigError,
> {
    if grid.0 == 0 || grid.1 == 0 {
        Some(ConfigError::EmptyGrid)
    } else if tick == 0 {
        Some(ConfigError::ZeroTick)
    } else if food is Some && (!in_bounds(grid, food.unwrap()) || food.unwrap() == center(grid)) {
        Some(ConfigError::BadFood)
    } else {
        None
    }
}

impl State {
    /// A game about to begin: a snake of one cell in the middle of the
    /// board, at rest, with `growing` cells of growth to come.
    pub open spec fn fresh(
        grid: (u8, u8),
        tick: u64,
        growth_rate: u32,
        growing: u32,
        food: Option<Cell>,
    ) -> State {
        State {
            grid,
            body: seq![center(grid)],
            dir: Direction::Still,
            elapsed: 0,
            tick,
            growing,
            growth_rate,
            turned: false,
            food,
        }
    }

    /// What the board shows at `cell`: the snake before the food.
    pub open spec fn tile(self, cell: Cell) -> Tile {
        if self.body.contains(cell) {
            Tile::Body
        } else if self.food == Some(cell) {
            Tile::Food
        } else {
            Tile::Background
        }
    }

    /// What the whole board shows, cell by cell in the order of `all_cells`.
    pub open spec fn picture(self) -> Seq<Tile> {
        Seq::new(cell_count(self.grid), |i: int| self.tile(cell_at(self.grid, i)))
    }

    /// What holds of every game in play: a board with cells, a positive tick,
    /// a snake that lies on the board without crossing itself, and food, if
    /// any, on the board and off the snake.
    pub open spec fn valid(self) -> bool {
        &&& self.grid.0 > 0
        &&& self.grid.1 > 0
        &&& self.tick > 0
        &&& self.body.len() > 0
        &&& forall|i: int| 0 <= i < self.body.len() ==> in_bounds(self.grid, #[trigger] self.body[i])
        &&& self.body.no_duplicates()
        &&& match self.food {
            Some(c) => in_bounds(self.grid, c) && !self.body.contains(c),
            None => true,
        }
    }

    /// Whether every tick that was due has been played.
    pub open spec fn settled(self) -> bool {
        self.elapsed < self.tick
    }

    /// The newest cell of the snake.
    pub open spec fn head(self) -> Cell {
        self.body.last()
    }

    /// The game after a request to head towards `requested`. The request
    /// counts unless it asks for no heading, reverses the snake, or comes
    /// after another turn within the same tick.
    pub open spec fn turn(self, requested: Direction) -> State {
        if requested.is_cardinal() && !self.dir.opposed(requested) && !self.turned {
            State { dir: requested, turned: true, ..self }
        } else {
            self
        }
    }

    /// The cell the head moves to at the next tick, if the board has it.
    pub open spec fn ahead(self) -> Option<Cell> {
        neighbour(self.grid, self.head(), self.dir)
    }

    /// Whether the next tick brings the head onto the food.
    pub open spec fn eats(self) -> bool {
        self.ahead() is Some && self.food == self.ahead()
    }

    /// The growth owed once the next tick has counted its meal.
    pub open spec fn owed(self) -> u32 {
        if self.eats() {
            fed(self.growing, self.growth_rate)
        } else {
            self.growing
        }
    }

    /// The body once the next tick has let go of the tail, which it does
    /// when no growth is owed.
    pub open spec fn trimmed(self) -> Seq<Cell> {
        if self.owed() == 0 {
            self.body.drop_first()
        } else {
            self.body
        }
    }

    /// How the next tick ends: a resting snake stays put, a snake at the edge
    /// hits the wall, and a snake that moves onto a cell it still covers,
    /// after the tail has moved on, hits itself.
    pub open spec fn outcome(self) -> Result<(), Collision> {
        if self.dir == Direction::Still {
            Ok(())
        } else {
            match self.ahead() {
                None => Err(Collision::Wall),
                Some(c) => if self.trimmed().contains(c) {
                    Err(Collision::Itself)
                } else {
                    Ok(())
                },
            }
        }
    }

    /// The game after the next tick, with the food left where it was.
    ///
    /// Every tick allows a new turn. A resting snake and one that hits the
    /// wall change nothing else. A moving snake counts its meal, lets go of
    /// its tail or uses up one cell of owed growth, and then takes the cell
    /// ahead, unless it covers that cell still.
    pub open spec fn moved(self) -> State {
        let rested = State { turned: false, ..self };
        if self.dir == Direction::Still || self.ahead() is None {
            rested
        } else {
            let owed = self.owed();
            let growing = if owed == 0 {
                0u32
            } else {
                (owed - 1) as u32
            };
            let body = if self.outcome() is Ok {
                self.trimmed().push(self.ahead().unwrap())
            } else {
                self.trimmed()
            };
            State { body, growing, ..rested }
        }
    }

    /// Whether one tick may lead from this game to `next`. All of `next` is
    /// fixed but the place of new food after a meal, which chance picks among
    /// the cells that the snake then leaves free.
    pub open spec fn ticks_to(self, next: State) -> bool {
        if self.eats() && self.outcome() is Ok {
            &&& next == State { food: next.food, ..self.moved() }
            &&& food_fits(next.grid, next.body, next.food)
        } else {
            next == self.moved()
        }
    }

    /// The game with `dt` more time gathered.
    pub open spec fn later(self, dt: nat) -> State {
        State { elapsed: self.elapsed + dt, ..self }
    }

    /// The game with one tick's time taken from what was gathered.
    pub open spec fn spent(self) -> State {
        State { elapsed: (self.elapsed - self.tick) as nat, ..self }
    }

    /// Whether a tick that is due may lead from this game to `next`.
    pub open spec fn fires_to(self, next: State) -> bool {
        !self.settled() && self.spent().ticks_to(next)
    }
}

/// Whether `play` is a stretch of play: each game follows from the one
/// before by a tick that was due, and no tick before the last ended in a
/// collision.
pub open spec fn is_play(play: Seq<State>) -> bool {
    &&& play.len() > 0
    &&& forall|i: int, j: int|
        0 <= i && j == i + 1 && j < play.len() ==> (#[trigger] play[i]).fires_to(#[trigger] play[j])
    &&& forall|i: int| 0 <= i < play.len() - 2 ==> (#[trigger] play[i]).outcome() is Ok
}

/// How the last tick of `play` ended; a stretch without a tick ends well.
pub open spec fn play_outcome(play: Seq<State>) -> Result<(), Collision> {
    if play.len() < 2 {
        Ok(())
    } else {
        play[play.len() - 2].outcome()
    }
}

/// A stretch of play without a collision goes on by any tick that is due.
pub proof fn lemma_play_extends(play: Seq<State>, next: State)
    requires
        is_play(play),
        play_outcome(play) is Ok,
        play.last().fires_to(next),
    ensures
        is_play(play.push(next)),
        play_outcome(play.push(next)) == play.last().outcome(),
        play.push(next)[0] == play[0],
{
    let longer = play.push(next);
    assert forall|i: int, j: int| 0 <= i && j == i + 1 && j < longer.len() implies (
    #[trigger] longer[i]).fires_to(#[trigger] longer[j]) by {
        if j < play.len() {
            assert(play[i].fires_to(play[j]));
        }
    }
    assert forall|i: int| 0 <= i < longer.len() - 2 implies (#[trigger] longer[i]).outcome() is Ok by {
        if i < play.len() - 2 {
            assert(play[i].outcome() is Ok);
        }
    }
}

} // verus!
