//! Breadth-first search over a grid, with the reasoning that shows its
//! result to be the length of a shortest walk.

use crate::maze::{
    adjacent, cell, check, connected, free_at, height, in_bounds, is_answer, is_free, is_shortest,
    is_walk, reachable_in, width,
};
use vstd::prelude::*;

verus! {

/// Whether the search has reached `p`: its label is no longer the mark of an
/// untouched cell.
spec fn seen(dist: Seq<Seq<usize>>, p: (int, int)) -> bool {
    0 <= p.0 < dist.len() && 0 <= p.1 < dist[p.0].len() && dist[p.0][p.1] != usize::MAX
}

/// The number of moves recorded for `p`.
spec fn label(dist: Seq<Seq<usize>>, p: (int, int)) -> int {
    dist[p.0][p.1] as int
}

/// Whether `p` stands somewhere in the queue, served or not.
spec fn listed(queue: Seq<(usize, usize)>, p: (int, int)) -> bool {
    exists|i: int| 0 <= i < queue.len() && cell(#[trigger] queue[i]) == p
}

/// Whether the move from `p` to `q` has been accounted for: if `q` is free,
/// it has a label, at most one more than that of `p`.
spec fn covered(g: Seq<Seq<u8>>, dist: Seq<Seq<usize>>, p: (int, int), q: (int, int)) -> bool {
    is_free(g, q) ==> seen(dist, q) && label(dist, q) <= label(dist, p) + 1
}

/// Whether `after` keeps every label of `before`.
spec fn grows(before: Seq<Seq<usize>>, after: Seq<Seq<usize>>) -> bool {
    forall|p: (int, int)| #[trigger]
        seen(before, p) ==> seen(after, p) && label(after, p) == label(before, p)
}

/// How many cells of a row are untouched.
spec fn unseen_in_row(row: Seq<usize>) -> nat
    decreases row.len(),
{
    if row.len() == 0 {
        0
    } else {
        unseen_in_row(row.drop_last()) + if row.last() == usize::MAX {
            1nat
        } else {
            0nat
        }
    }
}

/// How many cells of the whole table are untouched.
spec fn unseen(dist: Seq<Seq<usize>>) -> nat
    decreases dist.len(),
{
    if dist.len() == 0 {
        0
    } else {
        unseen(dist.drop_last()) + unseen_in_row(dist.last())
    }
}

/// Labelling an untouched cell leaves one untouched cell fewer in its row.
proof fn lemma_mark_in_row(row: Seq<usize>, c: int, v: usize)
    requires
        0 <= c < row.len(),
        row[c] == usize::MAX,
        v != usize::MAX,
    ensures
        unseen_in_row(row.update(c, v)) + 1 == unseen_in_row(row),
    decreases row.len(),
{
    let marked = row.update(c, v);
    if c == row.len() - 1 {
        assert(marked.drop_last() =~= row.drop_last());
    } else {
        lemma_mark_in_row(row.drop_last(), c, v);
        assert(marked.drop_last() =~= row.drop_last().update(c, v));
    }
}

/// Labelling an untouched cell leaves one untouched cell fewer in the table.
proof fn lemma_mark(dist: Seq<Seq<usize>>, r: int, c: int, v: usize)
    requires
        0 <= r < dist.len(),
        0 <= c < dist[r].len(),
        dist[r][c] == usize::MAX,
        v != usize::MAX,
    ensures
        unseen(dist.update(r, dist[r].update(c, v))) + 1 == unseen(dist),
    decreases dist.len(),
{
    let marked = dist.update(r, dist[r].update(c, v));
    if r == dist.len() - 1 {
        assert(marked.drop_last() =~= dist.drop_last());
        lemma_mark_in_row(dist[r], c, v);
    } else {
        lemma_mark(dist.drop_last(), r, c, v);
        assert(marked.drop_last() =~= dist.drop_last().update(r, dist[r].update(c, v)));
    }
}

/// What holds of the search between two steps. The queue lists every cell
/// that was reached, in the order of reaching it; those before `head` have
/// been served.
#[verifier::opaque]
spec fn frontier_inv(
    g: Seq<Seq<u8>>,
    dist: Seq<Seq<usize>>,
    queue: Seq<(usize, usize)>,
    head: int,
    start: (int, int),
    goal: (int, int),
) -> bool {
    &&& dist.len() == height(g)
    &&& forall|r: int| 0 <= r < dist.len() ==> (#[trigger] dist[r]).len() == width(g)
    &&& 0 <= head <= queue.len()
    &&& queue.len() > 0
    &&& cell(queue[0]) == start
    // a listed cell has a label, no larger than its place in the queue
    &&& forall|i: int|
        0 <= i < queue.len() ==> seen(dist, cell(#[trigger] queue[i])) && label(
            dist,
            cell(queue[i]),
        ) <= i
    // a labelled cell is free, listed, and a walk of as many moves as its label leads to it
    &&& forall|p: (int, int)| #[trigger]
        seen(dist, p) ==> is_free(g, p) && listed(queue, p) && reachable_in(
            g,
            start,
            p,
            label(dist, p) as nat,
        )
    // every move out of a served cell is accounted for
    &&& forall|i: int, q: (int, int)|
        0 <= i < head && #[trigger] adjacent(cell(queue[i]), q) ==> covered(
            g,
            dist,
            cell(queue[i]),
            q,
        )
    // labels never fall along the queue, and rise by at most one past the head
    &&& forall|i: int, j: int|
        0 <= i <= j < queue.len() ==> label(dist, cell(#[trigger] queue[i])) <= label(
            dist,
            cell(#[trigger] queue[j]),
        )
    &&& head < queue.len() ==> forall|j: int|
        0 <= j < queue.len() ==> label(dist, cell(#[trigger] queue[j])) <= label(
            dist,
            cell(queue[head]),
        ) + 1
    // the goal has not been served
    &&& forall|i: int| 0 <= i < head ==> cell(#[trigger] queue[i]) != goal
}

/// Along any walk from the start, either a cell has a label no larger than
/// its place in the walk, or the walk is already as long as the label of the
/// cell at the head of the queue.
proof fn lemma_walk_bound(
    g: Seq<Seq<u8>>,
    dist: Seq<Seq<usize>>,
    queue: Seq<(usize, usize)>,
    head: int,
    start: (int, int),
    goal: (int, int),
    walk: Seq<(int, int)>,
    i: int,
)
    requires
        frontier_inv(g, dist, queue, head, start, goal),
        is_walk(g, walk),
        walk.first() == start,
        0 <= i < walk.len(),
    ensures
        (head < queue.len() && label(dist, cell(queue[head])) <= i) || (seen(dist, walk[i])
            && label(dist, walk[i]) <= i),
    decreases i,
{
    reveal(frontier_inv);
    if i == 0 {
        assert(seen(dist, cell(queue[0])));
    } else {
        lemma_walk_bound(g, dist, queue, head, start, goal, walk, i - 1);
        if !(head < queue.len() && label(dist, cell(queue[head])) <= i - 1) {
            let p = walk[i - 1];
            assert(seen(dist, p));
            assert(listed(queue, p));
            let t = choose|t: int| 0 <= t < queue.len() && cell(#[trigger] queue[t]) == p;
            assert(adjacent(p, walk[i]));
            assert(is_free(g, walk[i]));
            if t < head {
                assert(adjacent(cell(queue[t]), walk[i]));
                assert(covered(g, dist, cell(queue[t]), walk[i]));
            } else {
                assert(label(dist, cell(queue[head])) <= label(dist, cell(queue[t])));
            }
        }
    }
}

/// When the goal stands at the head of the queue, its label is the length of
/// a shortest walk to it.
proof fn lemma_goal_at_head(
    g: Seq<Seq<u8>>,
    dist: Seq<Seq<usize>>,
    queue: Seq<(usize, usize)>,
    head: int,
    start: (int, int),
    goal: (int, int),
)
    requires
        frontier_inv(g, dist, queue, head, start, goal),
        head < queue.len(),
        cell(queue[head]) == goal,
    ensures
        is_shortest(g, start, goal, label(dist, goal) as nat),
{
    let d = label(dist, goal) as nat;
    assert(seen(dist, cell(queue[head]))) by {
        reveal(frontier_inv);
    }
    assert(reachable_in(g, start, goal, d)) by {
        reveal(frontier_inv);
    }
    assert forall|steps: nat| reachable_in(g, start, goal, steps) implies d <= steps by {
        let walk = choose|walk: Seq<(int, int)>|
            #[trigger] is_walk(g, walk) && walk.len() == steps + 1 && walk.first() == start
                && walk.last() == goal;
        lemma_walk_bound(g, dist, queue, head, start, goal, walk, steps as int);
    }
}

/// When every listed cell has been served and the goal was not among them, no
/// walk leads to the goal.
proof fn lemma_queue_exhausted(
    g: Seq<Seq<u8>>,
    dist: Seq<Seq<usize>>,
    queue: Seq<(usize, usize)>,
    start: (int, int),
    goal: (int, int),
)
    requires
        frontier_inv(g, dist, queue, queue.len() as int, start, goal),
    ensures
        !connected(g, start, goal),
{
    assert forall|steps: nat| !reachable_in(g, start, goal, steps) by {
        if reachable_in(g, start, goal, steps) {
            let walk = choose|walk: Seq<(int, int)>|
                #[trigger] is_walk(g, walk) && walk.len() == steps + 1 && walk.first() == start
                    && walk.last() == goal;
            lemma_walk_bound(g, dist, queue, queue.len() as int, start, goal, walk, steps as int);
            reveal(frontier_inv);
            assert(seen(dist, goal));
            assert(listed(queue, goal));
        }
    }
}

/// Labelling an untouched free neighbour of the head one more than the head,
/// and listing it last, keeps the search in order.
proof fn lemma_discover(
    g: Seq<Seq<u8>>,
    before: Seq<Seq<usize>>,
    served: Seq<(usize, usize)>,
    head: int,
    start: (int, int),
    goal: (int, int),
    to: (usize, usize),
    next: usize,
)
    requires
        frontier_inv(g, before, served, head, start, goal),
        head < served.len(),
        adjacent(cell(served[head]), cell(to)),
        is_free(g, cell(to)),
        !seen(before, cell(to)),
        next == label(before, cell(served[head])) + 1,
        served.len() < usize::MAX,
    ensures
        frontier_inv(
            g,
            before.update(to.0 as int, before[to.0 as int].update(to.1 as int, next)),
            served.push(to),
            head,
            start,
            goal,
        ),
        grows(before, before.update(to.0 as int, before[to.0 as int].update(to.1 as int, next))),
        covered(
            g,
            before.update(to.0 as int, before[to.0 as int].update(to.1 as int, next)),
            cell(served[head]),
            cell(to),
        ),
{
    reveal(frontier_inv);
    let after = before.update(to.0 as int, before[to.0 as int].update(to.1 as int, next));
    let queue = served.push(to);
    let n = served.len() as int;
    let d = label(before, cell(served[head]));
    assert(seen(before, cell(served[head])));
    assert(d <= head);
    assert forall|p: (int, int)| seen(after, p) <==> (seen(before, p) || p == cell(to)) by {}
    assert forall|p: (int, int)| #[trigger] seen(before, p) implies label(after, p) == label(
        before,
        p,
    ) by {}
    assert(label(after, cell(to)) == d + 1);
    assert forall|r: int| 0 <= r < after.len() implies (#[trigger] after[r]).len() == width(g) by {
        assert(before[r].len() == width(g));
    }
    assert forall|i: int| 0 <= i < queue.len() implies seen(after, cell(#[trigger] queue[i]))
        && label(after, cell(queue[i])) <= i by {
        if i < n {
            assert(queue[i] == served[i]);
            assert(seen(before, cell(served[i])));
        }
    }
    assert forall|p: (int, int)| #[trigger] seen(after, p) implies is_free(g, p) && listed(
        queue,
        p,
    ) && reachable_in(g, start, p, label(after, p) as nat) by {
        if p == cell(to) {
            assert(cell(queue[n]) == p);
            let near = cell(served[head]);
            assert(reachable_in(g, start, near, d as nat));
            let walk = choose|walk: Seq<(int, int)>|
                #[trigger] is_walk(g, walk) && walk.len() == d as nat + 1 && walk.first() == start
                    && walk.last() == near;
            lemma_walk_push(g, walk, p);
            assert(walk.push(p).first() == start);
        } else {
            assert(seen(before, p));
            assert(listed(served, p));
            let t = choose|t: int| 0 <= t < served.len() && cell(#[trigger] served[t]) == p;
            assert(cell(queue[t]) == p);
        }
    }
    assert forall|i: int, q: (int, int)|
        0 <= i < head && #[trigger] adjacent(cell(queue[i]), q) implies covered(
        g,
        after,
        cell(queue[i]),
        q,
    ) by {
        assert(queue[i] == served[i]);
        assert(seen(before, cell(served[i])));
        assert(covered(g, before, cell(served[i]), q));
        if is_free(g, q) {
            assert(seen(before, q));
        }
    }
    assert forall|i: int, j: int| 0 <= i <= j < queue.len() implies label(
        after,
        cell(#[trigger] queue[i]),
    ) <= label(after, cell(#[trigger] queue[j])) by {
        if i < n {
            assert(queue[i] == served[i]);
            assert(seen(before, cell(served[i])));
        }
        if j < n {
            assert(queue[j] == served[j]);
            assert(seen(before, cell(served[j])));
        }
    }
    assert forall|j: int| 0 <= j < queue.len() implies label(after, cell(#[trigger] queue[j]))
        <= label(after, cell(queue[head])) + 1 by {
        assert(queue[head] == served[head]);
        if j < n {
            assert(queue[j] == served[j]);
            assert(seen(before, cell(served[j])));
        }
    }
    assert forall|i: int| 0 <= i < head implies cell(#[trigger] queue[i]) != goal by {
        assert(queue[i] == served[i]);
    }
    assert(queue[0] == served[0]);
}

/// A walk stays a walk when a free cell next to its last one is appended.
proof fn lemma_walk_push(g: Seq<Seq<u8>>, walk: Seq<(int, int)>, p: (int, int))
    requires
        is_walk(g, walk),
        adjacent(walk.last(), p),
        is_free(g, p),
    ensures
        is_walk(g, walk.push(p)),
{
    let longer = walk.push(p);
    assert forall|k: int| 0 <= k < longer.len() implies is_free(g, #[trigger] longer[k]) by {
        if k < walk.len() {
            assert(longer[k] == walk[k]);
        }
    }
    assert forall|k: int| 0 <= k < longer.len() - 1 implies adjacent(
        #[trigger] longer[k],
        longer[k + 1],
    ) by {
        assert(longer[k] == walk[k]);
        if k < walk.len() - 1 {
            assert(longer[k + 1] == walk[k + 1]);
        }
    }
}

/// What the search may rely on when it reads the table: its shape is that of
/// the grid, and the cell at the head has a label that is no larger than its
/// place in the queue.
proof fn lemma_head(
    g: Seq<Seq<u8>>,
    dist: Seq<Seq<usize>>,
    queue: Seq<(usize, usize)>,
    head: int,
    start: (int, int),
    goal: (int, int),
)
    requires
        frontier_inv(g, dist, queue, head, start, goal),
        head < queue.len(),
    ensures
        0 <= head,
        dist.len() == height(g),
        forall|r: int| 0 <= r < dist.len() ==> (#[trigger] dist[r]).len() == width(g),
        in_bounds(g, cell(queue[head])),
        seen(dist, cell(queue[head])),
        label(dist, cell(queue[head])) <= head,
{
    reveal(frontier_inv);
    assert(seen(dist, cell(queue[head])));
}

/// A neighbour of the head that is a wall, or that already has a label, needs
/// no further work.
proof fn lemma_settled(
    g: Seq<Seq<u8>>,
    dist: Seq<Seq<usize>>,
    queue: Seq<(usize, usize)>,
    head: int,
    start: (int, int),
    goal: (int, int),
    to: (int, int),
)
    requires
        frontier_inv(g, dist, queue, head, start, goal),
        head < queue.len(),
        !is_free(g, to) || seen(dist, to),
    ensures
        covered(g, dist, cell(queue[head]), to),
        grows(dist, dist),
{
    reveal(frontier_inv);
    if is_free(g, to) {
        assert(listed(queue, to));
        let t = choose|t: int| 0 <= t < queue.len() && cell(#[trigger] queue[t]) == to;
        assert(label(dist, cell(queue[t])) <= label(dist, cell(queue[head])) + 1);
    }
}

/// Looks at the cell `to`, next to the one at the head of the queue: if it is
/// free and untouched, labels it one more than the head and puts it at the
/// back of the queue.
fn discover(
    grid: &Vec<Vec<u8>>,
    dist: &mut Vec<Vec<usize>>,
    queue: &mut Vec<(usize, usize)>,
    head: usize,
    to: (usize, usize),
    Ghost(start): Ghost<(int, int)>,
    Ghost(goal): Ghost<(int, int)>,
)
    requires
        frontier_inv(grid.deep_view(), old(dist).deep_view(), old(queue)@, head as int, start, goal),
        head < old(queue).len(),
        adjacent(cell(old(queue)@[head as int]), cell(to)),
        in_bounds(grid.deep_view(), cell(to)),
    ensures
        frontier_inv(
            grid.deep_view(),
            final(dist).deep_view(),
            final(queue)@,
            head as int,
            start,
            goal,
        ),
        grows(old(dist).deep_view(), final(dist).deep_view()),
        final(queue)@.len() >= old(queue)@.len(),
        final(queue)@.take(old(queue)@.len() as int) == old(queue)@,
        covered(
            grid.deep_view(),
            final(dist).deep_view(),
            cell(old(queue)@[head as int]),
            cell(to),
        ),
        unseen(final(dist).deep_view()) + final(queue)@.len() == unseen(old(dist).deep_view())
            + old(queue)@.len(),
{
    let ghost g = grid.deep_view();
    let ghost before = dist.deep_view();
    let ghost served = queue@;
    proof {
        lemma_head(g, before, served, head as int, start, goal);
        assert(queue@.take(served.len() as int) =~= served);
    }
    let from = queue[head];
    assert(before[from.0 as int].len() == dist@[from.0 as int]@.len());
    let d = dist[from.0][from.1];
    assert(before[to.0 as int].len() == dist@[to.0 as int]@.len());
    if free_at(grid, to) && dist[to.0][to.1] == usize::MAX {
        let next: usize = d + 1;
        dist[to.0][to.1] = next;
        queue.push(to);
        proof {
            assert(queue.len() == served.len() + 1);
            assert(queue@ =~= served.push(to));
            assert(dist.deep_view() =~~= before.update(
                to.0 as int,
                before[to.0 as int].update(to.1 as int, next),
            ));
            lemma_mark(before, to.0 as int, to.1 as int, next);
            lemma_discover(g, before, served, head as int, start, goal, to, next);
            assert(queue@.take(served.len() as int) =~= served);
        }
    } else {
        proof {
            lemma_settled(g, before, served, head as int, start, goal, cell(to));
        }
    }
}

/// The search starts in order: only the start has a label, which is 0, and
/// the queue holds the start alone.
proof fn lemma_begin(
    g: Seq<Seq<u8>>,
    dist: Seq<Seq<usize>>,
    queue: Seq<(usize, usize)>,
    start: (usize, usize),
    goal: (int, int),
)
    requires
        is_free(g, cell(start)),
        dist.len() == height(g),
        forall|r: int| 0 <= r < dist.len() ==> (#[trigger] dist[r]).len() == width(g),
        forall|r: int, c: int|
            0 <= r < height(g) && 0 <= c < width(g) && (r, c) != cell(start) ==> (
            #[trigger] dist[r][c]) == usize::MAX,
        dist[start.0 as int][start.1 as int] == 0,
        queue == seq![start],
    ensures
        frontier_inv(g, dist, queue, 0, cell(start), goal),
{
    reveal(frontier_inv);
    assert forall|p: (int, int)| #[trigger] seen(dist, p) implies p == cell(start) by {
        if p != cell(start) {
            assert(dist[p.0][p.1] == usize::MAX);
        }
    }
    assert(cell(queue[0]) == cell(start));
    let alone = seq![cell(start)];
    assert(is_walk(g, alone));
    assert(alone.first() == cell(start) && alone.last() == cell(start));
    assert(reachable_in(g, cell(start), cell(start), 0));
}

/// Once all four moves out of the head are accounted for, and the head is not
/// the goal, the head has been served.
proof fn lemma_serve(
    g: Seq<Seq<u8>>,
    dist: Seq<Seq<usize>>,
    queue: Seq<(usize, usize)>,
    head: int,
    start: (int, int),
    goal: (int, int),
)
    requires
        frontier_inv(g, dist, queue, head, start, goal),
        head < queue.len(),
        cell(queue[head]) != goal,
        forall|q: (int, int)| #[trigger]
            adjacent(cell(queue[head]), q) ==> covered(g, dist, cell(queue[head]), q),
    ensures
        frontier_inv(g, dist, queue, head + 1, start, goal),
{
    reveal(frontier_inv);
    if head + 1 < queue.len() {
        assert forall|j: int| 0 <= j < queue.len() implies label(dist, cell(#[trigger] queue[j]))
            <= label(dist, cell(queue[head + 1])) + 1 by {
            assert(label(dist, cell(queue[j])) <= label(dist, cell(queue[head])) + 1);
            assert(label(dist, cell(queue[head])) <= label(dist, cell(queue[head + 1])));
        }
    }
}

/// Breadth-first search from `start`, on a request that has been checked.
///
/// Every cell starts untouched, marked by the largest label there is. The
/// queue is served first in, first out, and a neighbour is looked at in the
/// order below, above, right, left. A served cell is not taken off the queue:
/// `head` moves past it. So the queue's length bounds every label, and no
/// label can reach the mark of an untouched cell.
pub(crate) fn search(grid: &Vec<Vec<u8>>, start: (usize, usize), goal: (usize, usize)) -> (answer: Option<
    usize,
>)
    requires
        check(grid.deep_view(), cell(start), cell(goal)) is Ok,
    ensures
        is_answer(grid.deep_view(), cell(start), cell(goal), answer),
{
    let ghost g = grid.deep_view();
    let h = grid.len();
    let w = grid[0].len();
    let mut dist: Vec<Vec<usize>> = vec![vec![usize::MAX; w]; h];
    let mut queue: Vec<(usize, usize)> = Vec::new();
    dist[start.0][start.1] = 0;
    queue.push(start);
    proof {
        assert(queue@ =~= seq![start]);
        lemma_begin(g, dist.deep_view(), queue@, start, cell(goal));
    }
    let mut head: usize = 0;
    while head < queue.len()
        invariant
            g == grid.deep_view(),
            h == height(g),
            w == width(g),
            head <= queue.len(),
            frontier_inv(g, dist.deep_view(), queue@, head as int, cell(start), cell(goal)),
        decreases unseen(dist.deep_view()) + queue.len() - head,
    {
        proof {
            lemma_head(g, dist.deep_view(), queue@, head as int, cell(start), cell(goal));
        }
        let (r, c) = queue[head];
        assert(dist.deep_view()[r as int].len() == dist@[r as int]@.len());
        if r == goal.0 && c == goal.1 {
            proof {
                lemma_goal_at_head(
                    g,
                    dist.deep_view(),
                    queue@,
                    head as int,
                    cell(start),
                    cell(goal),
                );
            }
            return Some(dist[r][c]);
        }
        if r + 1 < h {
            discover(
                grid,
                &mut dist,
                &mut queue,
                head,
                (r + 1, c),
                Ghost(cell(start)),
                Ghost(cell(goal)),
            );
        }
        if r > 0 {
            discover(
                grid,
                &mut dist,
                &mut queue,
                head,
                (r - 1, c),
                Ghost(cell(start)),
                Ghost(cell(goal)),
            );
        }
        if c + 1 < w {
            discover(
                grid,
                &mut dist,
                &mut queue,
                head,
                (r, c + 1),
                Ghost(cell(start)),
                Ghost(cell(goal)),
            );
        }
        if c > 0 {
            discover(
                grid,
                &mut dist,
                &mut queue,
                head,
                (r, c - 1),
                Ghost(cell(start)),
                Ghost(cell(goal)),
            );
        }
        proof {
            lemma_serve(g, dist.deep_view(), queue@, head as int, cell(start), cell(goal));
        }
        head += 1;
    }
    proof {
        lemma_queue_exhausted(g, dist.deep_view(), queue@, cell(start), cell(goal));
    }
    None
}

} // verus!
