//! Shortest walks on an obstacle grid.
//!
//! A grid is a list of rows; a cell that holds `0` is free and any other value
//! is a wall. The width of a grid is the length of its first row. Rows of
//! other lengths are tolerated: columns beyond the width are never looked at,
//! and a position that a shorter row lacks counts as a wall.

use crate::search::search;
use vstd::prelude::*;

verus! {

/// Why a request is turned down before any search is made.
#[derive(Clone, Copy, Debug, PartialEq, Eq, Structural)]
pub enum ValidationError {
    /// The grid has no rows.
    EmptyGrid,
    /// The first row has no cells.
    ZeroWidth,
    /// The start lies outside the grid.
    StartOutOfBounds,
    /// The goal lies outside the grid.
    GoalOutOfBounds,
    /// The start is not a free cell.
    StartIsWall,
    /// The goal is not a free cell.
    GoalIsWall,
}

/// A position as a pair of mathematical integers: row, then column.
pub open spec fn cell(p: (usize, usize)) -> (int, int) {
    (p.0 as int, p.1 as int)
}

/// The number of rows.
pub open spec fn height(g: Seq<Seq<u8>>) -> nat {
    g.len()
}

/// The number of columns: the length of the first row.
pub open spec fn width(g: Seq<Seq<u8>>) -> nat {
    if g.len() == 0 {
        0
    } else {
        g[0].len()
    }
}

/// Whether `p` addresses a cell of the grid.
pub open spec fn in_bounds(g: Seq<Seq<u8>>, p: (int, int)) -> bool {
    0 <= p.0 < height(g) && 0 <= p.1 < width(g)
}

/// Whether `p` is a cell that can be walked on.
pub open spec fn is_free(g: Seq<Seq<u8>>, p: (int, int)) -> bool {
    in_bounds(g, p) && p.1 < g[p.0].len() && g[p.0][p.1] == 0
}

/// Whether `q` is the cell above, below, left or right of `p`.
pub open spec fn adjacent(p: (int, int), q: (int, int)) -> bool {
    ||| q == (p.0 + 1, p.1)
    ||| q == (p.0 - 1, p.1)
    ||| q == (p.0, p.1 + 1)
    ||| q == (p.0, p.1 - 1)
}

/// Whether `walk` is a non-empty run of free cells, each next to the one
/// before it.
pub open spec fn is_walk(g: Seq<Seq<u8>>, walk: Seq<(int, int)>) -> bool {
    &&& walk.len() > 0
    &&& forall|i: int| 0 <= i < walk.len() ==> is_free(g, #[trigger] walk[i])
    &&& forall|i: int| 0 <= i < walk.len() - 1 ==> adjacent(#[trigger] walk[i], walk[i + 1])
}

/// Whether some walk of exactly `steps` moves leads from `from` to `to`.
pub open spec fn reachable_in(g: Seq<Seq<u8>>, from: (int, int), to: (int, int), steps: nat) -> bool {
    exists|walk: Seq<(int, int)>|
        #[trigger] is_walk(g, walk) && walk.len() == steps + 1 && walk.first() == from
            && walk.last() == to
}

/// Whether any walk leads from `from` to `to`.
pub open spec fn connected(g: Seq<Seq<u8>>, from: (int, int), to: (int, int)) -> bool {
    exists|steps: nat| reachable_in(g, from, to, steps)
}

/// Whether `d` is the number of moves of a shortest walk from `from` to `to`.
pub open spec fn is_shortest(g: Seq<Seq<u8>>, from: (int, int), to: (int, int), d: nat) -> bool {
    &&& reachable_in(g, from, to, d)
    &&& forall|steps: nat| reachable_in(g, from, to, steps) ==> d <= steps
}

/// The verdict on a request: the first rule that it breaks, if any.
pub open spec fn check(g: Seq<Seq<u8>>, start: (int, int), goal: (int, int)) -> Result<
    (),
    ValidationError,
> {
    if height(g) == 0 {
        Err(ValidationError::EmptyGrid)
    } else if width(g) == 0 {
        Err(ValidationError::ZeroWidth)
    } else if !in_bounds(g, start) {
        Err(ValidationError::StartOutOfBounds)
    } else if !in_bounds(g, goal) {
        Err(ValidationError::GoalOutOfBounds)
    } else if !is_free(g, start) {
        Err(ValidationError::StartIsWall)
    } else if !is_free(g, goal) {
        Err(ValidationError::GoalIsWall)
    } else {
        Ok(())
    }
}

/// Whether `answer` is what a request is owed: the length of a shortest walk
/// from start to goal, or nothing where the request is invalid or no walk
/// exists.
pub open spec fn is_answer(
    g: Seq<Seq<u8>>,
    start: (int, int),
    goal: (int, int),
    answer: Option<usize>,
) -> bool {
    match answer {
        Some(d) => check(g, start, goal) is Ok && is_shortest(g, start, goal, d as nat),
        None => check(g, start, goal) is Err || !connected(g, start, goal),
    }
}

/// Tells whether the cell at `p` is free. A position outside the grid, or one
/// that its row lacks, is not.
pub(crate) fn free_at(grid: &Vec<Vec<u8>>, p: (usize, usize)) -> (free: bool)
    ensures
        free == is_free(grid.deep_view(), cell(p)),
{
    if grid.len() == 0 {
        return false;
    }
    p.0 < grid.len() && p.1 < grid[0].len() && p.1 < grid[p.0].len() && grid[p.0][p.1] == 0
}

/// Checks a request against the rules, in their order: the grid has a row,
/// its first row has a cell, start and goal lie inside the grid, start and
/// goal are free.
pub fn validate(grid: &Vec<Vec<u8>>, start: (usize, usize), goal: (usize, usize)) -> (verdict:
    Result<(), ValidationError>)
    ensures
        verdict == check(grid.deep_view(), cell(start), cell(goal)),
{
    if grid.len() == 0 {
        return Err(ValidationError::EmptyGrid);
    }
    let h = grid.len();
    let w = grid[0].len();
    if w == 0 {
        return Err(ValidationError::ZeroWidth);
    }
    if start.0 >= h || start.1 >= w {
        return Err(ValidationError::StartOutOfBounds);
    }
    if goal.0 >= h || goal.1 >= w {
        return Err(ValidationError::GoalOutOfBounds);
    }
    if !free_at(grid, start) {
        return Err(ValidationError::StartIsWall);
    }
    if !free_at(grid, goal) {
        return Err(ValidationError::GoalIsWall);
    }
    Ok(())
}

/// The number of moves of a shortest walk from `start` to `goal` over free
/// cells, each move leading to the cell above, below, left or right.
///
/// The request is checked first, as [`validate`] does. Nothing is returned
/// for a request that fails the check, nor where no walk leads to the goal.
pub fn bfs(grid: &Vec<Vec<u8>>, start: (usize, usize), goal: (usize, usize)) -> (answer: Option<
    usize,
>)
    ensures
        is_answer(grid.deep_view(), cell(start), cell(goal), answer),
        start == goal && is_free(grid.deep_view(), cell(start)) ==> answer == Some(0usize),
{
    match validate(grid, start, goal) {
        Err(_) => None,
        Ok(_) => {
            let answer = search(grid, start, goal);
            proof {
                if start == goal {
                    lemma_stay(grid.deep_view(), cell(start));
                }
            }
            answer
        },
    }
}

/// A free cell is reached from itself in no move.
pub proof fn lemma_stay(g: Seq<Seq<u8>>, p: (int, int))
    requires
        is_free(g, p),
    ensures
        is_shortest(g, p, p, 0),
{
    let alone = seq![p];
    assert(is_walk(g, alone));
    assert(alone.first() == p && alone.last() == p);
}

/// A request has one answer: two values that are both owed to it are equal.
pub proof fn lemma_answer_unique(
    g: Seq<Seq<u8>>,
    start: (int, int),
    goal: (int, int),
    one: Option<usize>,
    other: Option<usize>,
)
    requires
        is_answer(g, start, goal, one),
        is_answer(g, start, goal, other),
    ensures
        one == other,
{
    if one is Some && other is Some {
        let a = one->0 as nat;
        let b = other->0 as nat;
        assert(reachable_in(g, start, goal, a));
        assert(reachable_in(g, start, goal, b));
    } else if one is Some {
        assert(reachable_in(g, start, goal, one->0 as nat));
    } else if other is Some {
        assert(reachable_in(g, start, goal, other->0 as nat));
    }
}

} // verus!
