use snake::direction::Direction;
use snake::game::App;
use snake::model::{Collision, ConfigError, Tile};

/// A game on a board of 8 by 8 with a tick of 100 units.
fn game(growth_rate: u32, growing: u32, food: (u8, u8)) -> App {
    App::with_food((8, 8), 100, growth_rate, growing, Some(food)).unwrap()
}

/// Turns the snake and plays one tick.
fn go(app: &mut App, dir: Direction) -> Result<(), Collision> {
    app.set_direction(dir);
    app.update(100)
}

#[test]
fn a_new_game_rests_in_the_middle() {
    let app = game(4, 3, (0, 0));
    assert_eq!(app.grid_size(), (8, 8));
    assert_eq!(app.body(), vec![(4, 4)]);
    assert_eq!(app.head(), (4, 4));
    assert_eq!(app.score(), 1);
    assert_eq!(app.dir(), Direction::Still);
    assert_eq!(app.growing(), 3);
    assert_eq!(app.snake_last_move(), 0);
    assert_eq!(app.tick_rate(), 100);
    assert!(!app.dir_changed());
    assert_eq!(app.food_position(), Some((0, 0)));
}

#[test]
fn the_middle_of_an_odd_board_rounds_down() {
    let app = App::with_food((5, 3), 1, 0, 0, None).unwrap();
    assert_eq!(app.head(), (2, 1));
    assert_eq!(app.food_position(), None);
}

#[test]
fn a_board_without_cells_is_refused() {
    assert_eq!(App::with_food((0, 8), 100, 4, 4, None).err(), Some(ConfigError::EmptyGrid));
    assert_eq!(App::with_food((8, 0), 100, 4, 4, None).err(), Some(ConfigError::EmptyGrid));
    assert_eq!(App::new((0, 0), 100, 4, 4).err(), Some(ConfigError::EmptyGrid));
    assert_eq!(App::new((0, 3), 0, 4, 4).err(), Some(ConfigError::EmptyGrid));
}

#[test]
fn a_tick_of_no_length_is_refused() {
    assert_eq!(App::with_food((8, 8), 0, 4, 4, None).err(), Some(ConfigError::ZeroTick));
    assert_eq!(App::with_food((8, 8), 0, 4, 4, Some((9, 9))).err(), Some(ConfigError::ZeroTick));
    assert_eq!(App::new((8, 8), 0, 4, 4).err(), Some(ConfigError::ZeroTick));
}

#[test]
fn misplaced_food_is_refused() {
    assert_eq!(App::with_food((8, 8), 100, 4, 4, Some((4, 4))).err(), Some(ConfigError::BadFood));
    assert_eq!(App::with_food((8, 8), 100, 4, 4, Some((8, 0))).err(), Some(ConfigError::BadFood));
    assert_eq!(App::with_food((8, 8), 100, 4, 4, Some((0, 8))).err(), Some(ConfigError::BadFood));
    assert!(App::with_food((8, 8), 100, 4, 4, Some((7, 7))).is_ok());
}

#[test]
fn new_puts_the_food_beside_the_snake() {
    for _ in 0..200 {
        let app = App::new((3, 3), 100, 4, 4).unwrap();
        let food = app.food_position().unwrap();
        assert!(food.0 < 3 && food.1 < 3);
        assert_ne!(food, (1, 1));
        assert_eq!(app.body(), vec![(1, 1)]);
        assert_eq!(app.growing(), 4);
        assert_eq!(app.dir(), Direction::Still);
    }
}

#[test]
fn new_reaches_every_free_cell_of_a_small_board() {
    let mut seen = Vec::new();
    for _ in 0..2000 {
        let food = App::new((2, 2), 100, 4, 4).unwrap().food_position().unwrap();
        if !seen.contains(&food) {
            seen.push(food);
        }
    }
    seen.sort();
    assert_eq!(seen, vec![(0, 0), (0, 1), (1, 0)]);
}

#[test]
fn a_board_of_one_cell_has_no_food() {
    let mut app = App::new((1, 1), 100, 4, 4).unwrap();
    assert_eq!(app.food_position(), None);
    assert_eq!(app.body(), vec![(0, 0)]);
    assert_eq!(go(&mut app, Direction::Up), Err(Collision::Wall));
}

#[test]
fn a_reversal_is_ignored() {
    let mut app = game(4, 4, (0, 0));
    assert_eq!(go(&mut app, Direction::Up), Ok(()));
    app.set_direction(Direction::Down);
    assert_eq!(app.dir(), Direction::Up);
    assert!(!app.dir_changed());
    app.set_direction(Direction::Left);
    assert_eq!(app.dir(), Direction::Left);
    assert!(app.dir_changed());
}

#[test]
fn a_turn_to_the_right_is_taken() {
    let mut app = game(4, 4, (0, 0));
    assert_eq!(go(&mut app, Direction::Up), Ok(()));
    app.set_direction(Direction::Right);
    assert_eq!(app.dir(), Direction::Right);
}

#[test]
fn the_same_heading_counts_as_the_turn() {
    let mut app = game(4, 4, (0, 0));
    assert_eq!(go(&mut app, Direction::Up), Ok(()));
    app.set_direction(Direction::Up);
    assert_eq!(app.dir(), Direction::Up);
    assert!(app.dir_changed());
    app.set_direction(Direction::Left);
    assert_eq!(app.dir(), Direction::Up);
}

#[test]
fn a_request_for_no_heading_is_ignored() {
    let mut app = game(4, 4, (0, 0));
    app.set_direction(Direction::Still);
    assert_eq!(app.dir(), Direction::Still);
    assert!(!app.dir_changed());
    app.set_direction(Direction::Left);
    assert_eq!(go(&mut app, Direction::Left), Ok(()));
    app.set_direction(Direction::Still);
    assert_eq!(app.dir(), Direction::Left);
    assert!(!app.dir_changed());
}

#[test]
fn only_the_first_turn_of_a_tick_counts() {
    let mut app = game(4, 4, (0, 0));
    app.set_direction(Direction::Up);
    app.set_direction(Direction::Left);
    assert_eq!(app.dir(), Direction::Up);
    assert!(app.dir_changed());
    assert_eq!(app.update(100), Ok(()));
    assert_eq!(app.head(), (4, 3));
    assert!(!app.dir_changed());
    app.set_direction(Direction::Left);
    assert_eq!(app.dir(), Direction::Left);
}

#[test]
fn time_short_of_a_tick_is_not_a_new_tick() {
    let mut app = game(4, 4, (0, 0));
    app.set_direction(Direction::Up);
    assert_eq!(app.update(99), Ok(()));
    assert!(app.dir_changed());
    app.set_direction(Direction::Left);
    assert_eq!(app.dir(), Direction::Up);
    assert_eq!(app.head(), (4, 4));
}

#[test]
fn a_resting_snake_stays_put() {
    let mut app = game(4, 4, (0, 0));
    assert_eq!(app.update(1000), Ok(()));
    assert_eq!(app.body(), vec![(4, 4)]);
    assert_eq!(app.growing(), 4);
    assert_eq!(app.snake_last_move(), 0);
    assert_eq!(app.step(), Ok(()));
    assert_eq!(app.body(), vec![(4, 4)]);
}

#[test]
fn the_wall_ends_the_game_and_keeps_the_body() {
    let mut app = game(4, 0, (0, 0));
    for x in [3, 2, 1, 0] {
        assert_eq!(go(&mut app, Direction::Left), Ok(()));
        assert_eq!(app.head(), (x, 4));
    }
    let before = app.body();
    assert_eq!(app.update(99), Ok(()));
    assert_eq!(app.update(1), Err(Collision::Wall));
    assert_eq!(app.body(), before);
    assert_eq!(app.score(), 1);
    assert_eq!(app.growing(), 0);
    assert_eq!(app.food_position(), Some((0, 0)));
}

#[test]
fn every_wall_ends_the_game() {
    for (dir, ticks) in
        [(Direction::Up, 4), (Direction::Left, 4), (Direction::Down, 3), (Direction::Right, 3)]
    {
        let mut app = game(4, 4, (1, 1));
        for _ in 0..ticks {
            assert_eq!(go(&mut app, dir), Ok(()));
        }
        let before = app.body();
        assert_eq!(app.update(100), Err(Collision::Wall));
        assert_eq!(app.body(), before);
        assert_eq!(app.growing(), 4 - ticks);
    }
}

#[test]
fn a_growing_snake_that_closes_a_loop_hits_itself() {
    let mut app = game(4, 4, (0, 0));
    assert_eq!(go(&mut app, Direction::Right), Ok(()));
    assert_eq!(go(&mut app, Direction::Down), Ok(()));
    assert_eq!(go(&mut app, Direction::Left), Ok(()));
    assert_eq!(app.body(), vec![(4, 4), (5, 4), (5, 5), (4, 5)]);
    assert_eq!(app.growing(), 1);
    assert_eq!(go(&mut app, Direction::Up), Err(Collision::Itself));
    assert_eq!(app.body(), vec![(4, 4), (5, 4), (5, 5), (4, 5)]);
    assert_eq!(app.growing(), 0);
}

#[test]
fn a_snake_that_turns_into_its_second_cell_hits_itself() {
    let mut app = game(4, 4, (0, 0));
    assert_eq!(go(&mut app, Direction::Right), Ok(()));
    assert_eq!(go(&mut app, Direction::Right), Ok(()));
    assert_eq!(go(&mut app, Direction::Down), Ok(()));
    assert_eq!(go(&mut app, Direction::Left), Ok(()));
    assert_eq!(app.body(), vec![(4, 4), (5, 4), (6, 4), (6, 5), (5, 5)]);
    assert_eq!(app.growing(), 0);
    assert_eq!(go(&mut app, Direction::Up), Err(Collision::Itself));
    // The tail had moved on already; no head was added.
    assert_eq!(app.body(), vec![(5, 4), (6, 4), (6, 5), (5, 5)]);
    assert_eq!(app.head(), (5, 5));
}

#[test]
fn the_cell_the_tail_leaves_may_be_entered() {
    let mut app = game(4, 3, (0, 0));
    assert_eq!(go(&mut app, Direction::Right), Ok(()));
    assert_eq!(go(&mut app, Direction::Down), Ok(()));
    assert_eq!(go(&mut app, Direction::Left), Ok(()));
    assert_eq!(app.body(), vec![(4, 4), (5, 4), (5, 5), (4, 5)]);
    assert_eq!(app.growing(), 0);
    assert_eq!(go(&mut app, Direction::Up), Ok(()));
    assert_eq!(app.body(), vec![(5, 4), (5, 5), (4, 5), (4, 4)]);
}

#[test]
fn two_and_a_half_ticks_play_two_ticks() {
    let mut app = game(4, 4, (0, 0));
    app.set_direction(Direction::Left);
    assert_eq!(app.update(250), Ok(()));
    assert_eq!(app.body(), vec![(4, 4), (3, 4), (2, 4)]);
    assert_eq!(app.snake_last_move(), 50);
    assert_eq!(app.growing(), 2);
}

#[test]
fn time_adds_up_over_calls() {
    let mut app = game(4, 4, (0, 0));
    app.set_direction(Direction::Left);
    assert_eq!(app.update(60), Ok(()));
    assert_eq!(app.score(), 1);
    assert_eq!(app.snake_last_move(), 60);
    assert_eq!(app.update(60), Ok(()));
    assert_eq!(app.score(), 2);
    assert_eq!(app.snake_last_move(), 20);
    assert_eq!(app.update(0), Ok(()));
    assert_eq!(app.score(), 2);
    assert_eq!(app.update(80), Ok(()));
    assert_eq!(app.score(), 3);
    assert_eq!(app.snake_last_move(), 0);
}

#[test]
fn a_collision_stops_the_clock_where_it_is() {
    let mut app = game(4, 4, (0, 0));
    app.set_direction(Direction::Right);
    // Three ticks reach the last column, the fourth hits the wall; of ten
    // and a half ticks handed in, six and a half are left.
    assert_eq!(app.update(1050), Err(Collision::Wall));
    assert_eq!(app.body(), vec![(4, 4), (5, 4), (6, 4), (7, 4)]);
    assert_eq!(app.snake_last_move(), 650);
}

#[test]
fn the_longest_wait_is_taken_in() {
    let mut app = App::with_food((8, 8), u64::MAX, 4, 4, Some((0, 0))).unwrap();
    app.set_direction(Direction::Left);
    assert_eq!(app.update(u64::MAX - 1), Ok(()));
    assert_eq!(app.score(), 1);
    assert_eq!(app.update(u64::MAX), Ok(()));
    assert_eq!(app.score(), 2);
    assert_eq!(app.snake_last_move(), u64::MAX - 1);
}

#[test]
fn a_meal_moves_the_food_and_lengthens_the_snake() {
    let mut app = App::with_food((8, 8), 100, 4, 0, Some((5, 4))).unwrap();
    app.set_direction(Direction::Right);
    assert_eq!(app.update(100), Ok(()));
    assert_eq!(app.head(), (5, 4));
    assert_eq!(app.body(), vec![(4, 4), (5, 4)]);
    assert_eq!(app.score(), 2);
    assert_eq!(app.growing(), 3);
    let food = app.food_position().unwrap();
    assert!(food.0 < 8 && food.1 < 8);
    assert_ne!(food, (4, 4));
    assert_ne!(food, (5, 4));
}

#[test]
fn the_snake_grows_by_its_first_growth_and_by_the_rate_for_each_meal() {
    // 1 cell, 2 cells of first growth, 3 cells for the one meal.
    let mut app = App::with_food((20, 1), 100, 3, 2, Some((12, 0))).unwrap();
    app.set_direction(Direction::Right);
    let mut last = app.score();
    let mut meals = 0;
    for _ in 0..9 {
        let food = app.food_position();
        assert_eq!(app.update(100), Ok(()));
        if Some(app.head()) == food {
            meals += 1;
            // Keep the next food out of the way.
            while app.food_position().unwrap().0 > 10 {
                app.generate_new_food();
            }
        }
        assert!(app.score() >= last);
        last = app.score();
        assert_eq!(app.score() + app.growing() as usize, 1 + 2 + meals * 3);
    }
    assert_eq!(meals, 1);
    assert_eq!(app.score(), 6);
    assert_eq!(app.growing(), 0);
    assert_eq!(app.head(), (19, 0));
}

#[test]
fn a_meal_without_growth_keeps_the_length() {
    let mut app = App::with_food((8, 8), 100, 0, 0, Some((5, 4))).unwrap();
    app.set_direction(Direction::Right);
    assert_eq!(app.update(100), Ok(()));
    assert_eq!(app.body(), vec![(5, 4)]);
    assert_eq!(app.growing(), 0);
    assert_ne!(app.food_position(), Some((5, 4)));
    assert!(app.food_position().is_some());
}

#[test]
fn owed_growth_stops_at_the_largest_count() {
    let mut app = App::with_food((8, 8), 100, 7, u32::MAX - 3, Some((5, 4))).unwrap();
    app.set_direction(Direction::Right);
    assert_eq!(app.update(100), Ok(()));
    assert_eq!(app.growing(), u32::MAX - 1);
    assert_eq!(app.score(), 2);
}

#[test]
fn grow_adds_a_cell_and_uses_the_turn() {
    let mut app = game(4, 0, (0, 0));
    app.grow();
    assert_eq!(app.growing(), 1);
    assert!(app.dir_changed());
    app.set_direction(Direction::Left);
    assert_eq!(app.dir(), Direction::Still);
    let mut full = game(4, u32::MAX, (0, 0));
    full.grow();
    assert_eq!(full.growing(), u32::MAX);
}

#[test]
fn the_snake_that_fills_the_board_leaves_no_food() {
    let mut app = App::with_food((2, 1), 100, 1, 0, Some((0, 0))).unwrap();
    assert_eq!(app.head(), (1, 0));
    app.set_direction(Direction::Left);
    assert_eq!(app.update(100), Ok(()));
    assert_eq!(app.body(), vec![(1, 0), (0, 0)]);
    assert_eq!(app.food_position(), None);
    assert_eq!(app.render(), vec![Tile::Body, Tile::Body]);
}

#[test]
fn the_board_shows_snake_food_and_background() {
    let mut app = App::with_food((3, 2), 100, 4, 4, Some((2, 1))).unwrap();
    // Column by column: (0,0) (0,1) (1,0) (1,1) (2,0) (2,1); the snake is at (1,1).
    assert_eq!(
        app.render(),
        vec![
            Tile::Background,
            Tile::Background,
            Tile::Background,
            Tile::Body,
            Tile::Background,
            Tile::Food
        ]
    );
    assert_eq!(go(&mut app, Direction::Up), Ok(()));
    assert_eq!(
        app.render(),
        vec![
            Tile::Background,
            Tile::Background,
            Tile::Body,
            Tile::Body,
            Tile::Background,
            Tile::Food
        ]
    );
    assert_eq!(app.tile(1, 0), Tile::Body);
    assert_eq!(app.tile(2, 1), Tile::Food);
    assert_eq!(app.tile(0, 0), Tile::Background);
    assert_eq!(app.tile(9, 9), Tile::Background);
}

#[test]
fn the_picture_has_a_tile_for_every_cell() {
    let app = App::with_food((7, 5), 100, 4, 4, None).unwrap();
    let tiles = app.render();
    assert_eq!(tiles.len(), 35);
    for x in 0..7u8 {
        for y in 0..5u8 {
            assert_eq!(tiles[x as usize * 5 + y as usize], app.tile(x, y));
        }
    }
}

#[test]
fn the_body_stays_on_the_board_and_never_crosses_itself() {
    let turns = [
        Direction::Right,
        Direction::Down,
        Direction::Down,
        Direction::Left,
        Direction::Left,
        Direction::Up,
        Direction::Left,
        Direction::Down,
        Direction::Right,
        Direction::Down,
    ];
    let mut app = App::new((8, 8), 100, 2, 3).unwrap();
    for dir in turns {
        if go(&mut app, dir).is_err() {
            break;
        }
        let body = app.body();
        for (i, cell) in body.iter().enumerate() {
            assert!(cell.0 < 8 && cell.1 < 8);
            assert!(!body[..i].contains(cell));
        }
        assert!(!body.contains(&app.food_position().unwrap()));
    }
}
