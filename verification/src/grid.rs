//! Cells of the board: which lie on it, which neighbour which, and which the
//! snake leaves free.

use crate::direction::Direction;
use std::collections::VecDeque;
use vstd::prelude::*;

verus! {

/// A cell of the board: its column, then its row.
pub type Cell = (u8, u8);

/// Whether `cell` lies on a board of `grid.0` columns and `grid.1` rows.
pub open spec fn in_bounds(grid: (u8, u8), cell: Cell) -> bool {
    cell.0 < grid.0 && cell.1 < grid.1
}

/// The cell one step from `cell` in direction `dir`, if the board has one.
/// There is none past an edge, nor in no direction at all.
pub open spec fn neighbour(grid: (u8, u8), cell: Cell, dir: Direction) -> Option<Cell> {
    match dir {
        Direction::Up => if cell.1 > 0 {
            Some((cell.0, (cell.1 - 1) as u8))
        } else {
            None
        },
        Direction::Down => if cell.1 + 1 < grid.1 {
            Some((cell.0, (cell.1 + 1) as u8))
        } else {
            None
        },
        Direction::Left => if cell.0 > 0 {
            Some(((cell.0 - 1) as u8, cell.1))
        } else {
            None
        },
        Direction::Right => if cell.0 + 1 < grid.0 {
            Some(((cell.0 + 1) as u8, cell.1))
        } else {
            None
        },
        Direction::Still => None,
    }
}

/// How many cells the board has.
pub open spec fn cell_count(grid: (u8, u8)) -> nat {
    (grid.0 as nat) * (grid.1 as nat)
}

/// The `i`-th cell of the board, counted column by column, each from the top.
pub open spec fn cell_at(grid: (u8, u8), i: int) -> Cell {
    ((i / (grid.1 as int)) as u8, (i % (grid.1 as int)) as u8)
}

/// Every cell of the board, column by column.
pub open spec fn all_cells(grid: (u8, u8)) -> Seq<Cell> {
    Seq::new(cell_count(grid), |i: int| cell_at(grid, i))
}

/// The test that `body` leaves a cell free.
pub open spec fn is_free(body: Seq<Cell>) -> spec_fn(Cell) -> bool {
    |c: Cell| !body.contains(c)
}

/// The cells of the board that `body` does not cover, in the order of
/// `all_cells`.
pub open spec fn free_cells(grid: (u8, u8), body: Seq<Cell>) -> Seq<Cell> {
    all_cells(grid).filter(is_free(body))
}

/// The cell one step from `cell` in direction `dir`, or nothing where the
/// board ends or no direction is given.
pub fn step_from(grid: (u8, u8), cell: Cell, dir: Direction) -> (next: Option<Cell>)
    ensures
        next == neighbour(grid, cell, dir),
{
    match dir {
        Direction::Up => if cell.1 > 0 {
            Some((cell.0, cell.1 - 1))
        } else {
            None
        },
        Direction::Down => if cell.1 < 255 && cell.1 + 1 < grid.1 {
            Some((cell.0, cell.1 + 1))
        } else {
            None
        },
        Direction::Left => if cell.0 > 0 {
            Some((cell.0 - 1, cell.1))
        } else {
            None
        },
        Direction::Right => if cell.0 < 255 && cell.0 + 1 < grid.0 {
            Some((cell.0 + 1, cell.1))
        } else {
            None
        },
        Direction::Still => None,
    }
}

/// Whether `body` covers `cell`.
pub fn covers(body: &VecDeque<Cell>, cell: Cell) -> (found: bool)
    ensures
        found == body@.contains(cell),
{
    let mut i: usize = 0;
    while i < body.len()
        invariant
            i <= body@.len(),
            forall|j: int| 0 <= j < i ==> body@[j] != cell,
        decreases body@.len() - i,
    {
        let c = body[i];
        if c.0 == cell.0 && c.1 == cell.1 {
            return true;
        }
        i += 1;
    }
    false
}

/// Filtering one element more either appends it or changes nothing.
proof fn lemma_filter_one_more<A>(s: Seq<A>, pred: spec_fn(A) -> bool, i: int)
    requires
        0 <= i < s.len(),
    ensures
        s.take(i + 1).filter(pred) == if pred(s[i]) {
            s.take(i).filter(pred).push(s[i])
        } else {
            s.take(i).filter(pred)
        },
{
    reveal(Seq::filter);
    assert(s.take(i + 1).drop_last() =~= s.take(i));
    assert(s.take(i + 1).last() == s[i]);
}

/// What a filter keeps of a sequence's first `i` elements is the start of
/// what it keeps of the whole.
proof fn lemma_filter_prefix<A>(s: Seq<A>, pred: spec_fn(A) -> bool, i: int)
    requires
        0 <= i <= s.len(),
    ensures
        s.take(i).filter(pred).len() <= s.filter(pred).len(),
        s.take(i).filter(pred) =~= s.filter(pred).take(s.take(i).filter(pred).len() as int),
{
    assert(s =~= s.take(i) + s.skip(i));
    Seq::filter_distributes_over_add(s.take(i), s.skip(i), pred);
}

/// A cell on the board is the one that `cell_at` gives for its place in the
/// count.
pub proof fn lemma_cell_index(grid: (u8, u8), cell: Cell)
    requires
        in_bounds(grid, cell),
    ensures
        0 <= cell.0 * grid.1 + cell.1 < cell_count(grid),
        cell_at(grid, cell.0 * grid.1 + cell.1) == cell,
{
    let h = grid.1 as int;
    let i = (cell.0 as int) * h + (cell.1 as int);
    assert(0 <= i < (grid.0 as int) * h && i / h == cell.0 && i % h == cell.1) by (nonlinear_arith)
        requires
            i == (cell.0 as int) * h + (cell.1 as int),
            0 <= cell.0 < grid.0,
            0 <= cell.1 < h,
    ;
}

/// A filter keeps exactly the elements that pass its test, and repeats none
/// that the sequence did not repeat.
proof fn lemma_filter_keeps<A>(s: Seq<A>, pred: spec_fn(A) -> bool)
    ensures
        forall|x: A| #[trigger] s.filter(pred).contains(x) <==> s.contains(x) && pred(x),
        s.no_duplicates() ==> s.filter(pred).no_duplicates(),
    decreases s.len(),
{
    reveal(Seq::filter);
    if s.len() > 0 {
        let front = s.drop_last();
        let kept = front.filter(pred);
        lemma_filter_keeps(front, pred);
        assert forall|x: A| #[trigger] s.filter(pred).contains(x) <==> s.contains(x) && pred(
            x,
        ) by {
            if s.filter(pred).contains(x) {
                let i = choose|i: int| 0 <= i < s.filter(pred).len() && s.filter(pred)[i] == x;
                if i < kept.len() {
                    assert(kept.contains(x));
                    let j = choose|j: int| 0 <= j < front.len() && front[j] == x;
                    assert(s[j] == x);
                } else {
                    assert(s[s.len() - 1] == x);
                }
            }
            if s.contains(x) && pred(x) {
                let j = choose|j: int| 0 <= j < s.len() && s[j] == x;
                if j < front.len() {
                    assert(front[j] == x);
                    assert(kept.contains(x));
                    let i = choose|i: int| 0 <= i < kept.len() && kept[i] == x;
                    assert(s.filter(pred)[i] == x);
                } else {
                    assert(s.filter(pred)[kept.len() as int] == x);
                }
            }
        }
        if s.no_duplicates() {
            assert(front.no_duplicates());
            if pred(s.last()) {
                assert(!front.contains(s.last())) by {
                    if front.contains(s.last()) {
                        let j = choose|j: int| 0 <= j < front.len() && front[j] == s.last();
                        assert(s[j] == s[s.len() - 1]);
                    }
                }
                assert(!kept.contains(s.last()));
            }
        }
    }
}

/// The `i`-th cell of a board lies on it.
pub proof fn lemma_cell_at_in_bounds(grid: (u8, u8), i: int)
    requires
        0 <= i < cell_count(grid),
    ensures
        in_bounds(grid, cell_at(grid, i)),
        0 <= i / (grid.1 as int) < grid.0,
        0 <= i % (grid.1 as int) < grid.1,
        i == (i / (grid.1 as int)) * (grid.1 as int) + i % (grid.1 as int),
{
    let w = grid.0 as int;
    let h = grid.1 as int;
    assert(h > 0) by (nonlinear_arith)
        requires
            0 <= i < w * h,
            0 <= h,
    ;
    assert(0 <= i / h < w && 0 <= i % h < h && i == (i / h) * h + i % h) by (nonlinear_arith)
        requires
            0 <= i < w * h,
            h > 0,
    ;
}

/// The cells of the board are the cells that lie on it, each listed once.
pub proof fn lemma_all_cells(grid: (u8, u8))
    ensures
        forall|c: Cell| #[trigger] all_cells(grid).contains(c) <==> in_bounds(grid, c),
        all_cells(grid).no_duplicates(),
{
    let all = all_cells(grid);
    assert forall|c: Cell| #[trigger] all.contains(c) <==> in_bounds(grid, c) by {
        if all.contains(c) {
            let i = choose|i: int| 0 <= i < all.len() && all[i] == c;
            lemma_cell_at_in_bounds(grid, i);
        }
        if in_bounds(grid, c) {
            lemma_cell_index(grid, c);
            assert(all[c.0 * grid.1 + c.1] == c);
        }
    }
    assert forall|i: int, j: int| 0 <= i < all.len() && 0 <= j < all.len() && i != j implies all[i]
        != all[j] by {
        lemma_cell_at_in_bounds(grid, i);
        lemma_cell_at_in_bounds(grid, j);
    }
}

/// The free cells are the cells on the board that the body does not cover,
/// each listed once.
pub proof fn lemma_free_cells(grid: (u8, u8), body: Seq<Cell>)
    ensures
        forall|c: Cell| #[trigger]
            free_cells(grid, body).contains(c) <==> in_bounds(grid, c) && !body.contains(c),
        free_cells(grid, body).no_duplicates(),
        free_cells(grid, body).len() <= cell_count(grid),
{
    let all = all_cells(grid);
    lemma_all_cells(grid);
    lemma_filter_keeps(all, is_free(body));
    all.lemma_filter_len(is_free(body));
}

/// What passes a test and what fails it make up the whole sequence.
proof fn lemma_filter_splits<A>(s: Seq<A>, pred: spec_fn(A) -> bool, rest: spec_fn(A) -> bool)
    requires
        forall|x: A| #[trigger] rest(x) == !pred(x),
    ensures
        s.filter(pred).len() + s.filter(rest).len() == s.len(),
    decreases s.len(),
{
    reveal(Seq::filter);
    if s.len() > 0 {
        lemma_filter_splits(s.drop_last(), pred, rest);
    }
}

/// A snake that lies on the board without crossing itself leaves free as
/// many cells as the board has more than the snake. So food finds a free
/// cell until the snake covers the whole board.
pub proof fn lemma_free_count(grid: (u8, u8), body: Seq<Cell>)
    requires
        body.no_duplicates(),
        forall|i: int| 0 <= i < body.len() ==> in_bounds(grid, #[trigger] body[i]),
    ensures
        free_cells(grid, body).len() + body.len() == cell_count(grid),
{
    let all = all_cells(grid);
    let covered = |c: Cell| body.contains(c);
    let under = all.filter(covered);
    lemma_all_cells(grid);
    lemma_filter_splits(all, is_free(body), covered);
    lemma_filter_keeps(all, covered);
    assert(under.to_set() =~= body.to_set()) by {
        assert forall|c: Cell| under.contains(c) <==> body.contains(c) by {
            if body.contains(c) {
                let i = choose|i: int| 0 <= i < body.len() && body[i] == c;
                assert(in_bounds(grid, body[i]));
                assert(all.contains(c));
            }
        }
    }
    under.unique_seq_to_set();
    body.unique_seq_to_set();
}

/// How many cells of the board `body` leaves free.
pub fn count_free(grid: (u8, u8), body: &VecDeque<Cell>) -> (n: usize)
    ensures
        n == free_cells(grid, body@).len(),
{
    let h: usize = grid.1 as usize;
    assert((grid.0 as usize) * (grid.1 as usize) <= 255 * 255) by (nonlinear_arith)
        requires
            grid.0 <= 255,
            grid.1 <= 255,
    ;
    let total: usize = (grid.0 as usize) * h;
    let ghost all = all_cells(grid);
    let ghost free = is_free(body@);
    let mut i: usize = 0;
    let mut n: usize = 0;
    while i < total
        invariant
            i <= total,
            total == cell_count(grid),
            h == grid.1,
            all == all_cells(grid),
            free == is_free(body@),
            n == all.take(i as int).filter(free).len(),
            n <= i,
        decreases total - i,
    {
        proof {
            lemma_cell_at_in_bounds(grid, i as int);
            lemma_filter_one_more(all, free, i as int);
        }
        let cell: Cell = ((i / h) as u8, (i % h) as u8);
        if !covers(body, cell) {
            n += 1;
        }
        i += 1;
    }
    assert(all.take(total as int) =~= all);
    n
}

/// The `k`-th of the cells that `body` leaves free, counted from 0 in the
/// order of `all_cells`; nothing where fewer are free.
pub fn nth_free(grid: (u8, u8), body: &VecDeque<Cell>, k: usize) -> (cell: Option<Cell>)
    ensures
        cell == if k < free_cells(grid, body@).len() {
            Some(free_cells(grid, body@)[k as int])
        } else {
            None
        },
{
    let h: usize = grid.1 as usize;
    assert((grid.0 as usize) * (grid.1 as usize) <= 255 * 255) by (nonlinear_arith)
        requires
            grid.0 <= 255,
            grid.1 <= 255,
    ;
    let total: usize = (grid.0 as usize) * h;
    let ghost all = all_cells(grid);
    let ghost free = is_free(body@);
    let mut i: usize = 0;
    let mut n: usize = 0;
    while i < total
        invariant
            i <= total,
            total == cell_count(grid),
            h == grid.1,
            all == all_cells(grid),
            free == is_free(body@),
            n == all.take(i as int).filter(free).len(),
            n <= i,
            n <= k,
            all.take(i as int).filter(free) =~= all.filter(free).take(n as int),
        decreases total - i,
    {
        proof {
            lemma_cell_at_in_bounds(grid, i as int);
            lemma_filter_one_more(all, free, i as int);
            lemma_filter_prefix(all, free, i as int + 1);
        }
        let cell: Cell = ((i / h) as u8, (i % h) as u8);
        if !covers(body, cell) {
            if n == k {
                proof {
                    let upto = all.take(i as int + 1).filter(free);
                    assert(upto[k as int] == cell);
                    assert(all.filter(free).take(upto.len() as int)[k as int] == cell);
                }
                return Some(cell);
            }
            n += 1;
        }
        i += 1;
    }
    assert(all.take(total as int) =~= all);
    None
}

} // verus!
