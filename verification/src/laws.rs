//! What follows from the rules, whatever the players and chance do.

use crate::direction::Direction;
use crate::grid::{cell_count, free_cells, in_bounds, lemma_free_cells, lemma_free_count, Cell};
use crate::model::{config_fault, is_play, play_outcome, Collision, State};
use vstd::prelude::*;

verus! {

/// A game set up without fault is in play.
pub proof fn lemma_fresh_is_valid(
    grid: (u8, u8),
    tick: u64,
    growth_rate: u32,
    growing: u32,
    food: Option<Cell>,
)
    requires
        config_fault(grid, tick, food) is None,
    ensures
        State::fresh(grid, tick, growth_rate, growing, food).valid(),
        State::fresh(grid, tick, growth_rate, growing, food).settled(),
{
}

/// More time to play leaves a game in play in play.
pub proof fn lemma_later_keeps_valid(s: State, dt: nat)
    requires
        s.valid(),
    ensures
        s.later(dt).valid(),
{
}

/// A turn leaves a game in play in play.
pub proof fn lemma_turn_keeps_valid(s: State, requested: Direction)
    requires
        s.valid(),
    ensures
        s.turn(requested).valid(),
{
}

/// A snake that has turned never rests again.
pub proof fn lemma_turn_keeps_moving(s: State, requested: Direction)
    requires
        s.dir.is_cardinal(),
    ensures
        s.turn(requested).dir.is_cardinal(),
{
}

/// A request to reverse changes nothing.
pub proof fn lemma_reversal_is_ignored(s: State, requested: Direction)
    requires
        s.dir.opposed(requested),
    ensures
        s.turn(requested) == s,
{
}

/// The first request since a tick is taken when it names a heading that
/// does not reverse the snake, its own heading too.
pub proof fn lemma_first_turn_is_taken(s: State, requested: Direction)
    requires
        !s.turned,
        requested.is_cardinal(),
        !s.dir.opposed(requested),
    ensures
        s.turn(requested).dir == requested,
        s.turn(requested).turned,
{
}

/// Once a request that could be taken has been made, a second request
/// before the next tick changes nothing.
pub proof fn lemma_one_turn_per_tick(s: State, first: Direction, second: Direction)
    requires
        first.is_cardinal(),
        !s.dir.opposed(first),
    ensures
        s.turn(first).turn(second) == s.turn(first),
{
}

/// A tick allows a new turn, and changes neither the board, the heading, the
/// clock nor the rate of growth.
pub proof fn lemma_tick_keeps_settings(s: State, next: State)
    requires
        s.ticks_to(next),
    ensures
        !next.turned,
        next.grid == s.grid,
        next.dir == s.dir,
        next.tick == s.tick,
        next.elapsed == s.elapsed,
        next.growth_rate == s.growth_rate,
{
}

/// A snake that reaches the food neither hits the wall nor itself.
pub proof fn lemma_meal_is_safe(s: State)
    requires
        s.valid(),
        s.eats(),
    ensures
        s.outcome() is Ok,
{
    let c = s.ahead().unwrap();
    if s.trimmed().contains(c) {
        let i = choose|i: int| 0 <= i < s.trimmed().len() && s.trimmed()[i] == c;
        if s.owed() == 0 {
            assert(s.body[i + 1] == c);
        } else {
            assert(s.body[i] == c);
        }
    }
}

/// A tick leaves a game in play in play: afterwards the snake still lies on
/// the board, covers no cell twice, and the food is not under it.
pub proof fn lemma_tick_keeps_valid(s: State, next: State)
    requires
        s.valid(),
        s.ticks_to(next),
    ensures
        next.valid(),
{
    if s.dir != Direction::Still && s.ahead() is Some {
        let c = s.ahead().unwrap();
        let kept = s.trimmed();
        assert(in_bounds(s.grid, c));
        assert forall|i: int| 0 <= i < kept.len() implies in_bounds(s.grid, #[trigger] kept[i])
            && s.body.contains(kept[i]) by {
            if s.owed() == 0 {
                assert(kept[i] == s.body[i + 1]);
            } else {
                assert(kept[i] == s.body[i]);
            }
        }
        assert(kept.no_duplicates()) by {
            assert forall|i: int, j: int|
                0 <= i < kept.len() && 0 <= j < kept.len() && i != j implies kept[i] != kept[j] by {
                if s.owed() == 0 {
                    assert(kept[i] == s.body[i + 1] && kept[j] == s.body[j + 1]);
                }
            }
        }
        if s.outcome() is Ok {
            let grown = kept.push(c);
            assert(next.body == grown);
            assert forall|i: int| 0 <= i < grown.len() implies in_bounds(
                s.grid,
                #[trigger] grown[i],
            ) by {
                if i < kept.len() {
                    assert(grown[i] == kept[i]);
                }
            }
            assert(grown.no_duplicates()) by {
                assert forall|i: int, j: int|
                    0 <= i < grown.len() && 0 <= j < grown.len() && i != j implies grown[i]
                    != grown[j] by {
                    if i < kept.len() && j < kept.len() {
                        assert(grown[i] == kept[i] && grown[j] == kept[j]);
                    } else if i < kept.len() {
                        assert(kept.contains(kept[i]));
                    } else {
                        assert(kept.contains(kept[j]));
                    }
                }
            }
            if s.eats() {
                lemma_free_cells(next.grid, next.body);
            } else if s.food is Some {
                let f = s.food.unwrap();
                if grown.contains(f) {
                    let i = choose|i: int| 0 <= i < grown.len() && grown[i] == f;
                    if i < kept.len() {
                        assert(s.body.contains(kept[i]));
                    }
                }
            }
        } else {
            assert(next.body == kept);
            assert(kept.len() > 0);
            if s.food is Some {
                let f = s.food.unwrap();
                if kept.contains(f) {
                    let i = choose|i: int| 0 <= i < kept.len() && kept[i] == f;
                    assert(s.body.contains(kept[i]));
                }
            }
        }
    }
}

/// A meal brings new food, unless the snake has come to cover the whole
/// board.
pub proof fn lemma_meal_brings_food(s: State, next: State)
    requires
        s.valid(),
        s.ticks_to(next),
        s.eats(),
    ensures
        next.food is None <==> next.body.len() == cell_count(next.grid),
{
    lemma_meal_is_safe(s);
    lemma_tick_keeps_valid(s, next);
    lemma_free_count(next.grid, next.body);
    if next.food is Some {
        let spots = free_cells(next.grid, next.body);
        assert(spots.contains(next.food.unwrap()));
    }
}

/// All through a stretch of play that begins in play, the game stays in
/// play: the snake lies on the board and covers no cell twice.
pub proof fn lemma_play_keeps_valid(play: Seq<State>, i: int)
    requires
        is_play(play),
        play[0].valid(),
        0 <= i < play.len(),
    ensures
        play[i].valid(),
    decreases i,
{
    if i > 0 {
        lemma_play_keeps_valid(play, i - 1);
        assert(play[i - 1].fires_to(play[i]));
        lemma_tick_keeps_valid(play[i - 1].spent(), play[i]);
    }
}

/// A snake that hits the wall stays as it was; only a new turn is allowed.
pub proof fn lemma_wall_changes_nothing(s: State, next: State)
    requires
        s.ticks_to(next),
        s.outcome() == Err::<(), Collision>(Collision::Wall),
    ensures
        next == (State { turned: false, ..s }),
{
}

/// A snake that hits itself gains no head: it keeps the cells it had, but
/// for the tail where that had moved on.
pub proof fn lemma_bite_adds_no_head(s: State, next: State)
    requires
        s.valid(),
        s.ticks_to(next),
        s.outcome() == Err::<(), Collision>(Collision::Itself),
    ensures
        next.body == s.trimmed(),
        next.body.len() <= s.body.len(),
        next.food == s.food,
{
}

/// A tick lengthens the snake by at most one cell, and shortens it only
/// when the snake hits itself just after its tail has moved on.
pub proof fn lemma_tick_never_shrinks(s: State, next: State)
    requires
        s.valid(),
        s.ticks_to(next),
    ensures
        next.body.len() <= s.body.len() + 1,
        s.outcome() != Err::<(), Collision>(Collision::Itself) ==> s.body.len() <= next.body.len(),
{
}

/// A tick that ends well turns one cell of owed growth into one cell of
/// snake: the length and the growth still owed add up to what they were,
/// plus what a meal added.
pub proof fn lemma_tick_conserves_growth(s: State, next: State)
    requires
        s.valid(),
        s.ticks_to(next),
        s.outcome() is Ok,
    ensures
        next.body.len() + next.growing == s.body.len() + s.owed(),
        s.dir.is_cardinal() ==> next.body.len() == s.body.len() + if s.owed() > 0 {
            1int
        } else {
            0int
        },
        s.dir.is_cardinal() ==> next.head() == s.ahead().unwrap(),
{
}

/// The start of a stretch of play is a stretch of play that ends well.
pub proof fn lemma_play_prefix(play: Seq<State>, n: int)
    requires
        is_play(play),
        1 <= n < play.len(),
    ensures
        is_play(play.take(n)),
        play_outcome(play.take(n)) is Ok,
{
    let front = play.take(n);
    assert forall|i: int, j: int| 0 <= i && j == i + 1 && j < front.len() implies (
    #[trigger] front[i]).fires_to(#[trigger] front[j]) by {
        assert(play[i].fires_to(play[j]));
    }
    if n >= 2 {
        assert(play[n - 2].outcome() is Ok);
    }
}

/// Through a stretch of play the snake never gets shorter, except by the
/// last tick where that ends with the snake hitting itself.
pub proof fn lemma_play_never_shrinks(play: Seq<State>, i: int, j: int)
    requires
        is_play(play),
        play[0].valid(),
        0 <= i <= j < play.len(),
        j < play.len() - 1 || play_outcome(play) != Err::<(), Collision>(Collision::Itself),
    ensures
        play[i].body.len() <= play[j].body.len(),
    decreases j - i,
{
    if i < j {
        lemma_play_never_shrinks(play, i, j - 1);
        lemma_play_keeps_valid(play, j - 1);
        assert(play[j - 1].fires_to(play[j]));
        if j < play.len() - 1 {
            assert(play[j - 1].outcome() is Ok);
        }
        lemma_tick_never_shrinks(play[j - 1].spent(), play[j]);
    }
}

/// How many ticks of a stretch of play brought the head onto the food.
pub open spec fn meals(play: Seq<State>) -> nat
    decreases play.len(),
{
    if play.len() < 2 {
        0
    } else {
        meals(play.drop_last()) + if play[play.len() - 2].eats() {
            1nat
        } else {
            0nat
        }
    }
}

/// After a stretch of play that ends well, the length of the snake and the
/// growth still owed add up to what they were at the start plus the rate of
/// growth for every meal, as long as the owed growth stays within what a
/// `u32` can count. From a fresh game the snake is thus 1 cell, plus the
/// growth it began with, plus the rate for every meal, less what is owed
/// still.
pub proof fn lemma_play_length(play: Seq<State>)
    requires
        is_play(play),
        play[0].valid(),
        play_outcome(play) is Ok,
        forall|i: int|
            0 <= i < play.len() ==> (#[trigger] play[i]).growing + play[i].growth_rate <= u32::MAX,
    ensures
        play.last().body.len() + play.last().growing == play[0].body.len() + play[0].growing
            + meals(play) * play[0].growth_rate,
        play.last().growth_rate == play[0].growth_rate,
    decreases play.len(),
{
    if play.len() >= 2 {
        let n = play.len() - 1;
        let front = play.drop_last();
        let due = play[n - 1];
        assert(front =~= play.take(n));
        lemma_play_prefix(play, n);
        assert(front[0] == play[0]);
        assert forall|i: int| 0 <= i < front.len() implies (#[trigger] front[i]).growing
            + front[i].growth_rate <= u32::MAX by {
            assert(front[i] == play[i]);
        }
        lemma_play_length(front);
        lemma_play_keeps_valid(play, n - 1);
        assert(due.fires_to(play[n]));
        assert(front.last() == due);
        lemma_tick_conserves_growth(due.spent(), play[n]);
        assert(due.spent().eats() == due.eats());
        let rate = play[0].growth_rate as int;
        let eaten: int = if due.eats() { 1 } else { 0 };
        assert(meals(play) == meals(front) + eaten);
        assert(due.spent().owed() == due.growing + eaten * rate);
        assert(play[n].body.len() + play[n].growing == due.body.len() + due.spent().owed());
        assert((meals(front) + eaten) * rate == meals(front) * rate + eaten * rate)
            by (nonlinear_arith);
    } else {
        assert(meals(play) * play[0].growth_rate == 0) by (nonlinear_arith)
            requires
                meals(play) == 0,
        ;
    }
}

/// Every tick of a stretch of play takes one tick's time from what was
/// gathered, and the time between ticks stays what it was.
pub proof fn lemma_play_time(play: Seq<State>, i: int)
    requires
        is_play(play),
        0 <= i < play.len(),
    ensures
        play[i].tick == play[0].tick,
        play[i].elapsed + i * play[0].tick == play[0].elapsed,
    decreases i,
{
    if i > 0 {
        lemma_play_time(play, i - 1);
        assert(play[i - 1].fires_to(play[i]));
        assert(i * play[0].tick == (i - 1) * play[0].tick + play[0].tick) by (nonlinear_arith);
    }
}

/// A stretch of play that leaves no tick due has played as many ticks as
/// fit into the time gathered at its start, and has kept the rest.
pub proof fn lemma_settled_play_time(play: Seq<State>)
    requires
        is_play(play),
        play[0].tick > 0,
        play.last().settled(),
    ensures
        play.len() - 1 == play[0].elapsed / (play[0].tick as nat),
        play.last().elapsed == play[0].elapsed % (play[0].tick as nat),
{
    let n = play.len() - 1;
    lemma_play_time(play, n);
    vstd::arithmetic::div_mod::lemma_fundamental_div_mod_converse(
        play[0].elapsed as int,
        play[0].tick as int,
        n,
        play.last().elapsed as int,
    );
}

} // verus!
