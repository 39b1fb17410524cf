//! The edit distance between two strings: its recurrence, the routine that
//! computes it, and the laws of a metric that it obeys.

use crate::edits::{is_fewest_edits, lemma_distance_is_fewest_edits};
use vstd::prelude::*;

verus! {

/// The smallest of three numbers.
pub open spec fn min3(x: nat, y: nat, z: nat) -> nat {
    if x <= y && x <= z {
        x
    } else if y <= z {
        y
    } else {
        z
    }
}

/// What replacing `x` by `y` costs: nothing when they are the same character.
pub open spec fn replace_cost(x: char, y: char) -> nat {
    if x == y {
        0
    } else {
        1
    }
}

/// The edit distance between `a` and `b`, by the recurrence on their last
/// characters: drop the last of `a`, append the last of `b`, or turn the one
/// into the other.
pub open spec fn edit_distance(a: Seq<char>, b: Seq<char>) -> nat
    decreases a.len() + b.len(),
{
    if a.len() == 0 {
        b.len()
    } else if b.len() == 0 {
        a.len()
    } else {
        min3(
            edit_distance(a, b.drop_last()) + 1,
            edit_distance(a.drop_last(), b) + 1,
            edit_distance(a.drop_last(), b.drop_last()) + replace_cost(a.last(), b.last()),
        )
    }
}

/// Collects the characters of a string, in order.
fn characters(s: &str) -> (v: Vec<char>)
    ensures
        v@ == s@,
{
    let mut v: Vec<char> = Vec::new();
    for c in iter: s.chars()
        invariant
            v@ == iter.seq().take(iter.index()),
            iter.seq() == s@,
    {
        v.push(c);
    }
    v
}

/// The distance never exceeds the length of the longer string.
pub proof fn lemma_distance_at_most_longer(a: Seq<char>, b: Seq<char>)
    ensures
        edit_distance(a, b) <= a.len() || edit_distance(a, b) <= b.len(),
    decreases a.len() + b.len(),
{
    if a.len() > 0 && b.len() > 0 {
        lemma_distance_at_most_longer(a.drop_last(), b.drop_last());
    }
}

/// How the distance between two prefixes follows from the distances between
/// shorter ones.
proof fn lemma_prefix_step(xs: Seq<char>, ys: Seq<char>, i: int, j: int)
    requires
        0 <= i < xs.len(),
        0 <= j < ys.len(),
    ensures
        edit_distance(xs.take(i + 1), ys.take(j + 1)) == min3(
            edit_distance(xs.take(i + 1), ys.take(j)) + 1,
            edit_distance(xs.take(i), ys.take(j + 1)) + 1,
            edit_distance(xs.take(i), ys.take(j)) + replace_cost(xs[i], ys[j]),
        ),
{
    assert(xs.take(i + 1).drop_last() =~= xs.take(i));
    assert(ys.take(j + 1).drop_last() =~= ys.take(j));
}

/// The smaller of two numbers.
fn least(x: usize, y: usize) -> (z: usize)
    ensures
        z <= x,
        z <= y,
        z == x || z == y,
{
    if x <= y {
        x
    } else {
        y
    }
}

/// The Levenshtein distance between `a` and `b`, counted in characters: the
/// least number of insertions, deletions and substitutions of one character
/// that turn `a` into `b`.
///
/// Two rows of the table of prefix distances are kept, so the working memory
/// is proportional to the length of `b`.
pub fn levenshtein(a: String, b: String) -> (d: usize)
    ensures
        d == edit_distance(a@, b@),
        is_fewest_edits(a@, b@, d as nat),
{
    let xs = characters(a.as_str());
    let ys = characters(b.as_str());
    let m = xs.len();
    let n = ys.len();
    let mut prev: Vec<usize> = Vec::new();
    let mut k: usize = 0;
    while k < n
        invariant
            k <= n,
            prev.len() == k,
            forall|t: int| 0 <= t < k ==> prev[t] == t,
        decreases n - k,
    {
        prev.push(k);
        k += 1;
    }
    prev.push(n);
    assert(prev.len() == n + 1);
    let mut curr: Vec<usize> = vec![0; n + 1];
    assert forall|t: int| 0 <= t <= n implies prev[t] == edit_distance(
        xs@.take(0),
        ys@.take(t),
    ) by {
        assert(xs@.take(0).len() == 0);
    }
    let mut i: usize = 0;
    while i < m
        invariant
            i <= m,
            m == xs.len(),
            n == ys.len(),
            n < usize::MAX,
            prev.len() == n + 1,
            curr.len() == n + 1,
            forall|t: int| 0 <= t <= n ==> prev[t] == edit_distance(xs@.take(i as int), ys@.take(t)),
        decreases m - i,
    {
        curr[0] = i + 1;
        assert(ys@.take(0).len() == 0);
        let mut j: usize = 0;
        while j < n
            invariant
                j <= n,
                i < m,
                m == xs.len(),
                n == ys.len(),
                n < usize::MAX,
                prev.len() == n + 1,
                curr.len() == n + 1,
                forall|t: int|
                    0 <= t <= n ==> prev[t] == edit_distance(xs@.take(i as int), ys@.take(t)),
                forall|t: int|
                    0 <= t <= j ==> curr[t] == edit_distance(xs@.take(i + 1), ys@.take(t)),
            decreases n - j,
        {
            proof {
                lemma_prefix_step(xs@, ys@, i as int, j as int);
                lemma_distance_at_most_longer(xs@.take(i as int), ys@.take(j + 1));
                lemma_distance_at_most_longer(xs@.take(i as int), ys@.take(j as int));
            }
            let cost: usize = if xs[i] == ys[j] {
                0
            } else {
                1
            };
            // The smaller of the two neighbours is taken before 1 is added: it
            // is below the length of the longer string, the larger may not be.
            let shifted = least(curr[j], prev[j + 1]) + 1;
            let replaced = prev[j] + cost;
            curr[j + 1] = least(shifted, replaced);
            j += 1;
        }
        std::mem::swap(&mut prev, &mut curr);
        i += 1;
    }
    proof {
        assert(xs@.take(m as int) =~= xs@);
        assert(ys@.take(n as int) =~= ys@);
        lemma_distance_is_fewest_edits(a@, b@);
    }
    prev[n]
}

/// The distance of a string to itself is 0.
pub proof fn lemma_distance_self(a: Seq<char>)
    ensures
        edit_distance(a, a) == 0,
    decreases a.len(),
{
    if a.len() > 0 {
        lemma_distance_self(a.drop_last());
    }
}

/// The distance does not depend on the direction: from `a` to `b` it is what
/// it is from `b` to `a`.
pub proof fn lemma_distance_symmetric(a: Seq<char>, b: Seq<char>)
    ensures
        edit_distance(a, b) == edit_distance(b, a),
    decreases a.len() + b.len(),
{
    if a.len() > 0 && b.len() > 0 {
        lemma_distance_symmetric(a, b.drop_last());
        lemma_distance_symmetric(a.drop_last(), b);
        lemma_distance_symmetric(a.drop_last(), b.drop_last());
    }
}

/// The distance between the empty string and `s` is the length of `s`, in
/// either direction.
pub proof fn lemma_distance_from_empty(s: Seq<char>)
    ensures
        edit_distance(Seq::<char>::empty(), s) == s.len(),
        edit_distance(s, Seq::<char>::empty()) == s.len(),
{
}

/// The distance is at least the difference of the lengths.
pub proof fn lemma_distance_at_least_gap(a: Seq<char>, b: Seq<char>)
    ensures
        a.len() <= edit_distance(a, b) + b.len(),
        b.len() <= edit_distance(a, b) + a.len(),
    decreases a.len() + b.len(),
{
    if a.len() > 0 && b.len() > 0 {
        lemma_distance_at_least_gap(a, b.drop_last());
        lemma_distance_at_least_gap(a.drop_last(), b);
        lemma_distance_at_least_gap(a.drop_last(), b.drop_last());
    }
}

/// One more character at the end of the first string costs at most one edit.
proof fn lemma_drop_left(a: Seq<char>, b: Seq<char>)
    requires
        a.len() > 0,
    ensures
        edit_distance(a, b) <= edit_distance(a.drop_last(), b) + 1,
{
}

/// One more character at the end of the second string costs at most one edit.
proof fn lemma_drop_right(a: Seq<char>, b: Seq<char>)
    requires
        b.len() > 0,
    ensures
        edit_distance(a, b) <= edit_distance(a, b.drop_last()) + 1,
{
}

/// The triangle inequality: going from `a` to `c` directly takes no more
/// edits than going by way of `b`.
pub proof fn lemma_distance_triangle(a: Seq<char>, b: Seq<char>, c: Seq<char>)
    ensures
        edit_distance(a, c) <= edit_distance(a, b) + edit_distance(b, c),
    decreases a.len() + b.len() + c.len(),
{
    if a.len() == 0 || c.len() == 0 || b.len() == 0 {
        lemma_distance_at_least_gap(a, b);
        lemma_distance_at_least_gap(b, c);
        lemma_distance_at_most_longer(a, c);
    } else {
        let a0 = a.drop_last();
        let b0 = b.drop_last();
        let c0 = c.drop_last();
        let ab = edit_distance(a, b);
        let bc = edit_distance(b, c);
        if ab == edit_distance(a0, b) + 1 {
            lemma_distance_triangle(a0, b, c);
            lemma_drop_left(a, c);
        } else if bc == edit_distance(b, c0) + 1 {
            lemma_distance_triangle(a, b, c0);
            lemma_drop_right(a, c);
        } else if ab == edit_distance(a, b0) + 1 {
            if bc == edit_distance(b0, c) + 1 {
                lemma_distance_triangle(a, b0, c);
            } else {
                lemma_distance_triangle(a, b0, c0);
                lemma_drop_right(a, c);
            }
        } else {
            if bc == edit_distance(b0, c) + 1 {
                lemma_distance_triangle(a0, b0, c);
                lemma_drop_left(a, c);
            } else {
                lemma_distance_triangle(a0, b0, c0);
            }
        }
    }
}

} // verus!
