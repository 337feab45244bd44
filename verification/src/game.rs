//! The game itself: a snake on a board, fed by chance and moved by the clock.

use crate::direction::Direction;
use crate::grid::{cell_at, free_cells, in_bounds, lemma_cell_index, lemma_free_cells};
use crate::grid::{count_free, covers, nth_free, step_from, Cell};
use crate::laws::{lemma_play_time, lemma_settled_play_time};
use crate::model::{center, config_fault, fed, food_fits, is_play, lemma_play_extends, play_outcome};
use crate::model::{Collision, ConfigError, State, Tile};
use crate::random::random_below;
use std::collections::VecDeque;
use vstd::prelude::*;

verus! {

/// A game of snake. Time is counted in whole units of the caller's choosing,
/// the same for the tick and for what `update` is handed.
pub struct App {
    // Tail at the front, head at the back.
    body: VecDeque<Cell>,
    grid_size: (u8, u8),
    dir: Direction,
    // Time handed in that no tick has used up.
    snake_last_move: u64,
    // Cells the snake is still to grow by.
    growing: u32,
    growth_rate: u32,
    tick_rate: u64,
    // Set by the first turn after a tick, cleared by the next tick.
    dir_changed: bool,
    food_position: Option<Cell>,
}

impl View for App {
    type V = State;

    closed spec fn view(&self) -> State {
        State {
            grid: self.grid_size,
            body: self.body@,
            dir: self.dir,
            elapsed: self.snake_last_move as nat,
            tick: self.tick_rate,
            growing: self.growing,
            growth_rate: self.growth_rate,
            turned: self.dir_changed,
            food: self.food_position,
        }
    }
}

impl App {
    /// Whether the game is one that play can go on from.
    pub open spec fn wf(&self) -> bool {
        self@.valid()
    }

    /// Sets up a game on a board of `grid_size.0` columns and `grid_size.1`
    /// rows, with `tick_rate` units of time between two ticks, food at `food`
    /// and a snake that will grow by `growing` cells at first and by
    /// `growth_rate` cells for every meal.
    pub fn with_food(
        grid_size: (u8, u8),
        tick_rate: u64,
        growth_rate: u32,
        growing: u32,
        food: Option<Cell>,
    ) -> (r: Result<App, ConfigError>)
        ensures
            match config_fault(grid_size, tick_rate, food) {
                Some(fault) => r == Err::<App, ConfigError>(fault),
                None => r is Ok && r.unwrap().wf() && r.unwrap()@ == State::fresh(
                    grid_size,
                    tick_rate,
                    growth_rate,
                    growing,
                    food,
                ),
            },
    {
        if grid_size.0 == 0 || grid_size.1 == 0 {
            return Err(ConfigError::EmptyGrid);
        }
        if tick_rate == 0 {
            return Err(ConfigError::ZeroTick);
        }
        let center: Cell = (grid_size.0 / 2, grid_size.1 / 2);
        if let Some(cell) = food {
            if cell.0 >= grid_size.0 || cell.1 >= grid_size.1 || (cell.0 == center.0 && cell.1
                == center.1) {
                return Err(ConfigError::BadFood);
            }
        }
        let mut body = VecDeque::new();
        body.push_back(center);
        assert(body@ =~= seq![center]);
        Ok(
            App {
                body,
                grid_size,
                dir: Direction::Still,
                snake_last_move: 0,
                growing,
                growth_rate,
                tick_rate,
                dir_changed: false,
                food_position: food,
            },
        )
    }

    /// Sets up a game as `with_food` does, with the food on a cell picked at
    /// random among those beside the snake, each as likely as the next. A
    /// board of a single cell has no room for food.
    pub fn new(grid_size: (u8, u8), tick_rate: u64, growth_rate: u32, growing: u32) -> (r: Result<
        App,
        ConfigError,
    >)
        ensures
            match config_fault(grid_size, tick_rate, None) {
                Some(fault) => r == Err::<App, ConfigError>(fault),
                None => {
                    &&& r is Ok
                    &&& r.unwrap().wf()
                    &&& r.unwrap()@ == State::fresh(
                        grid_size,
                        tick_rate,
                        growth_rate,
                        growing,
                        r.unwrap()@.food,
                    )
                    &&& food_fits(grid_size, seq![center(grid_size)], r.unwrap()@.food)
                    &&& match r.unwrap()@.food {
                        Some(cell) => in_bounds(grid_size, cell) && cell != center(grid_size),
                        None => grid_size == (1u8, 1u8),
                    }
                },
            },
    {
        match App::with_food(grid_size, tick_rate, growth_rate, growing, None) {
            Ok(mut app) => {
                app.generate_new_food();
                proof {
                    let snake = seq![center(grid_size)];
                    lemma_free_cells(grid_size, snake);
                    if app@.food is None {
                        let beside: Cell = (0, center(grid_size).1);
                        let below: Cell = (center(grid_size).0, 0);
                        assert(snake.contains(beside));
                        assert(snake.contains(below));
                    } else {
                        assert(snake[0] == center(grid_size));
                    }
                }
                Ok(app)
            },
            Err(fault) => Err(fault),
        }
    }

    /// Asks the snake to head towards `requested`. The request is dropped
    /// when it names no heading, when it would reverse the snake, and when a
    /// turn was taken since the last tick.
    pub fn set_direction(&mut self, requested: Direction)
        ensures
            final(self)@ == old(self)@.turn(requested),
            old(self).wf() ==> final(self).wf(),
    {
        let cardinal = match requested {
            Direction::Still => false,
            _ => true,
        };
        if cardinal && self.dir.can_move(&requested) {
            if !self.dir_changed {
                self.dir = requested;
            }
            self.dir_changed = true;
        }
    }

    /// Puts the food on the `k`-th free cell, counted as `free_cells` lists
    /// them, and takes it off the board where fewer than `k + 1` are free.
    pub fn place_food(&mut self, k: usize)
        ensures
            final(self)@ == (State {
                food: if k < free_cells(old(self)@.grid, old(self)@.body).len() {
                    Some(free_cells(old(self)@.grid, old(self)@.body)[k as int])
                } else {
                    None
                },
                ..old(self)@
            }),
            old(self).wf() ==> final(self).wf(),
    {
        proof {
            let spots = free_cells(self@.grid, self@.body);
            lemma_free_cells(self@.grid, self@.body);
            if k < spots.len() {
                assert(spots.contains(spots[k as int]));
            }
        }
        self.food_position = nth_free(self.grid_size, &self.body, k);
    }

    /// Moves the food to a free cell picked at random, each free cell as
    /// likely as the next, or takes it off the board when the snake covers
    /// every cell.
    pub fn generate_new_food(&mut self)
        ensures
            final(self)@ == (State { food: final(self)@.food, ..old(self)@ }),
            food_fits(old(self)@.grid, old(self)@.body, final(self)@.food),
            match final(self)@.food {
                Some(cell) => in_bounds(old(self)@.grid, cell) && !old(self)@.body.contains(cell),
                None => forall|cell: Cell|
                    in_bounds(old(self)@.grid, cell) ==> old(self)@.body.contains(cell),
            },
            old(self).wf() ==> final(self).wf(),
    {
        let ghost spots = free_cells(self@.grid, self@.body);
        proof {
            lemma_free_cells(self@.grid, self@.body);
        }
        let free = count_free(self.grid_size, &self.body);
        if free == 0 {
            self.food_position = None;
            assert forall|cell: Cell| in_bounds(self@.grid, cell) implies self@.body.contains(
                cell,
            ) by {
                assert(!spots.contains(cell));
            }
            assert(self@.body == old(self)@.body);
        } else {
            let k = random_below(free);
            self.place_food(k);
            assert(spots.contains(spots[k as int]));
        }
    }

    /// Plays one tick, whatever the clock says.
    pub fn step(&mut self) -> (r: Result<(), Collision>)
        requires
            old(self).wf(),
        ensures
            final(self).wf(),
            old(self)@.ticks_to(final(self)@),
            r == old(self)@.outcome(),
    {
        self.dir_changed = false;
        let head = self.body[self.body.len() - 1];
        let next = match step_from(self.grid_size, head, self.dir) {
            Some(cell) => cell,
            None => {
                return match self.dir {
                    Direction::Still => Ok(()),
                    _ => Err(Collision::Wall),
                };
            },
        };
        let ate = match self.food_position {
            Some(food) => food.0 == next.0 && food.1 == next.1,
            None => false,
        };
        if ate {
            self.growing = if self.growth_rate > u32::MAX - self.growing {
                u32::MAX
            } else {
                self.growing + self.growth_rate
            };
        }
        if self.growing == 0 {
            self.body.pop_front();
        } else {
            self.growing -= 1;
        }
        if covers(&self.body, next) {
            return Err(Collision::Itself);
        }
        self.body.push_back(next);
        if ate {
            self.generate_new_food();
            proof {
                lemma_free_cells(self@.grid, self@.body);
            }
        }
        Ok(())
    }

    /// Hands the game `dt` more units of time and plays every tick that has
    /// come due, up to the first collision.
    ///
    /// The time not used by a tick is kept for the next call. The ticks are
    /// those of some stretch of play from the game with `dt` added to the
    /// game left behind; without a collision that stretch uses up all the
    /// ticks that were due.
    pub fn update(&mut self, dt: u64) -> (r: Result<(), Collision>)
        requires
            old(self).wf(),
            old(self)@.settled(),
        ensures
            final(self).wf(),
            r is Ok ==> final(self)@.elapsed == (old(self)@.elapsed + dt) % (old(self)@.tick as int),
            exists|play: Seq<State>|
                {
                    &&& #[trigger] is_play(play)
                    &&& play[0] == old(self)@.later(dt as nat)
                    &&& play.last() == final(self)@
                    &&& play_outcome(play) == r
                    &&& final(self)@.elapsed + (play.len() - 1) * old(self)@.tick == old(
                        self,
                    )@.elapsed + dt
                    &&& r is Ok ==> play.len() - 1 == (old(self)@.elapsed + dt) / (
                    old(self)@.tick as int)
                },
    {
        let room = self.tick_rate - self.snake_last_move;
        let ghost start = self@.later(dt as nat);
        let ghost mut play = seq![start];
        if dt < room {
            self.snake_last_move += dt;
            proof {
                assert(is_play(play));
                lemma_play_time(play, 0);
                lemma_settled_play_time(play);
            }
            return Ok(());
        }
        let mut left = dt - room;
        loop
            invariant
                self.wf(),
                is_play(play),
                play[0] == start,
                start == old(self)@.later(dt as nat),
                start.tick > 0,
                play_outcome(play) is Ok,
                play.last() == (State { elapsed: (left + self.tick_rate) as nat, ..self@ }),
            decreases left,
        {
            self.snake_last_move = left;
            let r = self.step();
            proof {
                lemma_play_extends(play, self@);
                play = play.push(self@);
                lemma_play_time(play, play.len() - 1);
            }
            if r.is_err() {
                return r;
            }
            if left < self.tick_rate {
                proof {
                    lemma_settled_play_time(play);
                }
                return Ok(());
            }
            left -= self.tick_rate;
        }
    }

    /// What the board shows at column `x`, row `y`: the snake, the food or
    /// nothing. Cells off the board show nothing.
    pub fn tile(&self, x: u8, y: u8) -> (tile: Tile)
        ensures
            tile == self@.tile((x, y)),
    {
        if covers(&self.body, (x, y)) {
            Tile::Body
        } else {
            match self.food_position {
                Some(food) => if food.0 == x && food.1 == y {
                    Tile::Food
                } else {
                    Tile::Background
                },
                None => Tile::Background,
            }
        }
    }

    /// What every cell of the board shows, column by column and each column
    /// from the top, for the caller to draw.
    pub fn render(&self) -> (tiles: Vec<Tile>)
        ensures
            tiles@ == self@.picture(),
    {
        let mut tiles: Vec<Tile> = Vec::new();
        let mut x: u8 = 0;
        while x < self.grid_size.0
            invariant
                x <= self.grid_size.0,
                tiles@.len() == x * self.grid_size.1,
                forall|i: int|
                    0 <= i < tiles@.len() ==> tiles@[i] == self@.tile(
                        cell_at(self.grid_size, i),
                    ),
            decreases self.grid_size.0 - x,
        {
            let mut y: u8 = 0;
            while y < self.grid_size.1
                invariant
                    x < self.grid_size.0,
                    y <= self.grid_size.1,
                    tiles@.len() == x * self.grid_size.1 + y,
                    forall|i: int|
                        0 <= i < tiles@.len() ==> tiles@[i] == self@.tile(
                            cell_at(self.grid_size, i),
                        ),
                decreases self.grid_size.1 - y,
            {
                proof {
                    lemma_cell_index(self.grid_size, (x, y));
                }
                let tile = self.tile(x, y);
                tiles.push(tile);
                y += 1;
            }
            assert((x + 1) * self.grid_size.1 == x * self.grid_size.1 + self.grid_size.1)
                by (nonlinear_arith);
            x += 1;
        }
        assert(tiles@ =~= self@.picture());
        tiles
    }

    /// Columns and rows of the board.
    pub fn grid_size(&self) -> (grid: (u8, u8))
        ensures
            grid == self@.grid,
    {
        self.grid_size
    }

    /// The cells of the snake, tail first and head last.
    pub fn body(&self) -> (cells: Vec<Cell>)
        ensures
            cells@ == self@.body,
    {
        let mut cells: Vec<Cell> = Vec::new();
        let mut i: usize = 0;
        while i < self.body.len()
            invariant
                i <= self.body@.len(),
                cells@ == self.body@.take(i as int),
            decreases self.body@.len() - i,
        {
            cells.push(self.body[i]);
            assert(self.body@.take(i + 1) =~= self.body@.take(i as int).push(self.body@[i as int]));
            i += 1;
        }
        assert(self.body@.take(i as int) =~= self.body@);
        cells
    }

    /// The cell of the snake's head.
    pub fn head(&self) -> (cell: Cell)
        requires
            self.wf(),
        ensures
            cell == self@.head(),
    {
        self.body[self.body.len() - 1]
    }

    /// The score, which is the length of the snake.
    pub fn score(&self) -> (cells: usize)
        ensures
            cells == self@.body.len(),
    {
        self.body.len()
    }

    /// Where the food lies, if anywhere.
    pub fn food_position(&self) -> (food: Option<Cell>)
        ensures
            food == self@.food,
    {
        self.food_position
    }

    /// The snake's heading.
    pub fn dir(&self) -> (dir: Direction)
        ensures
            dir == self@.dir,
    {
        self.dir
    }

    /// Whether a turn was taken since the last tick.
    pub fn dir_changed(&self) -> (turned: bool)
        ensures
            turned == self@.turned,
    {
        self.dir_changed
    }

    /// Cells the snake has yet to grow by.
    pub fn growing(&self) -> (cells: u32)
        ensures
            cells == self@.growing,
    {
        self.growing
    }

    /// The time gathered since the last tick.
    pub fn snake_last_move(&self) -> (elapsed: u64)
        ensures
            elapsed == self@.elapsed,
    {
        self.snake_last_move
    }

    /// The time between two ticks.
    pub fn tick_rate(&self) -> (tick: u64)
        ensures
            tick == self@.tick,
    {
        self.tick_rate
    }

    /// Lets the snake grow by one cell more, and counts as this tick's turn.
    pub fn grow(&mut self)
        ensures
            final(self)@ == (State {
                growing: fed(old(self)@.growing, 1),
                turned: true,
                ..old(self)@
            }),
            old(self).wf() ==> final(self).wf(),
    {
        if self.growing < u32::MAX {
            self.growing += 1;
        }
        self.dir_changed = true;
    }
}

} // verus!
