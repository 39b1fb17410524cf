//! Edit scripts: what the edit distance counts.
//!
//! A script is a run of strings in which each comes from the one before it
//! by inserting, deleting or replacing one character. The edit distance
//! between two strings is the number of edits of a shortest script that leads
//! from the one to the other.

use crate::distance::{
    edit_distance, lemma_distance_self, lemma_distance_symmetric, lemma_distance_triangle,
};
use vstd::prelude::*;

verus! {

/// Whether `t` is `s` with one character inserted.
pub open spec fn is_insertion(s: Seq<char>, t: Seq<char>) -> bool {
    exists|i: int, c: char| 0 <= i <= s.len() && t == #[trigger] s.insert(i, c)
}

/// Whether `t` is `s` with one character deleted.
pub open spec fn is_deletion(s: Seq<char>, t: Seq<char>) -> bool {
    exists|i: int| 0 <= i < s.len() && t == #[trigger] s.remove(i)
}

/// Whether `t` is `s` with one character replaced by another.
pub open spec fn is_substitution(s: Seq<char>, t: Seq<char>) -> bool {
    exists|i: int, c: char| 0 <= i < s.len() && c != s[i] && t == #[trigger] s.update(i, c)
}

/// Whether `t` comes from `s` by one edit.
pub open spec fn one_edit(s: Seq<char>, t: Seq<char>) -> bool {
    is_insertion(s, t) || is_deletion(s, t) || is_substitution(s, t)
}

/// Whether each string of `script` comes from the one before it by one edit.
pub open spec fn is_script(script: Seq<Seq<char>>) -> bool {
    &&& script.len() > 0
    &&& forall|k: int|
        0 <= k < script.len() - 1 ==> one_edit(#[trigger] script[k], script[k + 1])
}

/// Whether some script of exactly `n` edits turns `a` into `b`.
pub open spec fn edits_to(a: Seq<char>, b: Seq<char>, n: nat) -> bool {
    exists|script: Seq<Seq<char>>|
        #[trigger] is_script(script) && script.len() == n + 1 && script.first() == a
            && script.last() == b
}

/// Whether `n` is the least number of edits that turn `a` into `b`.
pub open spec fn is_fewest_edits(a: Seq<char>, b: Seq<char>, n: nat) -> bool {
    &&& edits_to(a, b, n)
    &&& forall|k: nat| edits_to(a, b, k) ==> n <= k
}

/// Inserting one character moves a string by a distance of at most 1.
proof fn lemma_insertion_is_near(s: Seq<char>, i: int, c: char)
    requires
        0 <= i <= s.len(),
    ensures
        edit_distance(s, s.insert(i, c)) <= 1,
    decreases s.len() - i,
{
    let t = s.insert(i, c);
    if i == s.len() {
        assert(t.drop_last() =~= s);
        lemma_distance_self(s);
        if s.len() == 0 {
        }
    } else {
        assert(t.last() == s.last());
        assert(t.drop_last() =~= s.drop_last().insert(i, c));
        lemma_insertion_is_near(s.drop_last(), i, c);
    }
}

/// Replacing one character moves a string by a distance of at most 1.
proof fn lemma_substitution_is_near(s: Seq<char>, i: int, c: char)
    requires
        0 <= i < s.len(),
    ensures
        edit_distance(s, s.update(i, c)) <= 1,
    decreases s.len(),
{
    let t = s.update(i, c);
    if i == s.len() - 1 {
        assert(t.drop_last() =~= s.drop_last());
        lemma_distance_self(s.drop_last());
    } else {
        assert(t.last() == s.last());
        assert(t.drop_last() =~= s.drop_last().update(i, c));
        lemma_substitution_is_near(s.drop_last(), i, c);
    }
}

/// One edit moves a string by a distance of at most 1.
pub proof fn lemma_one_edit_is_near(s: Seq<char>, t: Seq<char>)
    requires
        one_edit(s, t),
    ensures
        edit_distance(s, t) <= 1,
{
    if is_insertion(s, t) {
        let (i, c) = choose|i: int, c: char| 0 <= i <= s.len() && t == #[trigger] s.insert(i, c);
        lemma_insertion_is_near(s, i, c);
    } else if is_deletion(s, t) {
        let i = choose|i: int| 0 <= i < s.len() && t == #[trigger] s.remove(i);
        assert(t.insert(i, s[i]) =~= s);
        lemma_insertion_is_near(t, i, s[i]);
        lemma_distance_symmetric(s, t);
    } else {
        let (i, c) = choose|i: int, c: char|
            0 <= i < s.len() && c != s[i] && t == #[trigger] s.update(i, c);
        lemma_substitution_is_near(s, i, c);
    }
}

/// No script is shorter than the distance between its ends.
proof fn lemma_script_is_no_shorter(script: Seq<Seq<char>>, k: int)
    requires
        is_script(script),
        0 <= k < script.len(),
    ensures
        edit_distance(script.first(), script[k]) <= k,
    decreases k,
{
    if k == 0 {
        lemma_distance_self(script.first());
    } else {
        lemma_script_is_no_shorter(script, k - 1);
        assert(one_edit(script[k - 1], script[k]));
        lemma_one_edit_is_near(script[k - 1], script[k]);
        lemma_distance_triangle(script.first(), script[k - 1], script[k]);
    }
}

/// Turning `a` into `b` takes at least as many edits as their distance.
pub proof fn lemma_distance_is_least(a: Seq<char>, b: Seq<char>, n: nat)
    requires
        edits_to(a, b, n),
    ensures
        edit_distance(a, b) <= n,
{
    let script = choose|script: Seq<Seq<char>>|
        #[trigger] is_script(script) && script.len() == n + 1 && script.first() == a
            && script.last() == b;
    lemma_script_is_no_shorter(script, n as int);
}

/// A script can be carried on by one more edit.
proof fn lemma_script_push(script: Seq<Seq<char>>, t: Seq<char>)
    requires
        is_script(script),
        one_edit(script.last(), t),
    ensures
        is_script(script.push(t)),
{
    let longer = script.push(t);
    assert forall|k: int| 0 <= k < longer.len() - 1 implies one_edit(
        #[trigger] longer[k],
        longer[k + 1],
    ) by {
        assert(longer[k] == script[k]);
        if k < script.len() - 1 {
            assert(longer[k + 1] == script[k + 1]);
        }
    }
}

/// A script can be preceded by one more edit.
proof fn lemma_script_prepend(s: Seq<char>, script: Seq<Seq<char>>)
    requires
        is_script(script),
        one_edit(s, script.first()),
    ensures
        is_script(seq![s] + script),
{
    let longer = seq![s] + script;
    assert forall|k: int| 0 <= k < longer.len() - 1 implies one_edit(
        #[trigger] longer[k],
        longer[k + 1],
    ) by {
        assert(longer[k + 1] == script[k]);
        if k > 0 {
            assert(longer[k] == script[k - 1]);
        }
    }
}

/// An edit stays an edit when both strings get the same character appended.
proof fn lemma_one_edit_lift(s: Seq<char>, t: Seq<char>, x: char)
    requires
        one_edit(s, t),
    ensures
        one_edit(s.push(x), t.push(x)),
{
    if is_insertion(s, t) {
        let (i, c) = choose|i: int, c: char| 0 <= i <= s.len() && t == #[trigger] s.insert(i, c);
        assert(t.push(x) =~= s.push(x).insert(i, c));
        assert(is_insertion(s.push(x), t.push(x)));
    } else if is_deletion(s, t) {
        let i = choose|i: int| 0 <= i < s.len() && t == #[trigger] s.remove(i);
        assert(t.push(x) =~= s.push(x).remove(i));
        assert(is_deletion(s.push(x), t.push(x)));
    } else {
        let (i, c) = choose|i: int, c: char|
            0 <= i < s.len() && c != s[i] && t == #[trigger] s.update(i, c);
        assert(t.push(x) =~= s.push(x).update(i, c));
        assert(is_substitution(s.push(x), t.push(x)));
    }
}

/// The strings of `script`, each with `x` appended.
spec fn lifted(script: Seq<Seq<char>>, x: char) -> Seq<Seq<char>> {
    Seq::new(script.len(), |k: int| script[k].push(x))
}

/// A script stays a script when all its strings get the same character
/// appended.
proof fn lemma_script_lift(script: Seq<Seq<char>>, x: char)
    requires
        is_script(script),
    ensures
        is_script(lifted(script, x)),
{
    let higher = lifted(script, x);
    assert forall|k: int| 0 <= k < higher.len() - 1 implies one_edit(
        #[trigger] higher[k],
        higher[k + 1],
    ) by {
        assert(one_edit(script[k], script[k + 1]));
        lemma_one_edit_lift(script[k], script[k + 1], x);
    }
}

/// Some script of as many edits as the distance turns `a` into `b`.
pub proof fn lemma_distance_is_attained(a: Seq<char>, b: Seq<char>)
    ensures
        edits_to(a, b, edit_distance(a, b)),
    decreases a.len() + b.len(),
{
    let d = edit_distance(a, b);
    if a.len() == 0 && b.len() == 0 {
        let script = seq![a];
        assert(a =~= b);
        assert(is_script(script) && script.len() == d + 1 && script.first() == a && script.last()
            == b);
    } else if b.len() > 0 && (a.len() == 0 || d == edit_distance(a, b.drop_last()) + 1) {
        let b0 = b.drop_last();
        lemma_distance_is_attained(a, b0);
        let script = choose|script: Seq<Seq<char>>|
            #[trigger] is_script(script) && script.len() == edit_distance(a, b0) + 1
                && script.first() == a && script.last() == b0;
        assert(b =~= b0.insert(b0.len() as int, b.last()));
        assert(is_insertion(b0, b));
        lemma_script_push(script, b);
        let longer = script.push(b);
        assert(is_script(longer) && longer.len() == d + 1 && longer.first() == a && longer.last()
            == b);
    } else if b.len() == 0 || d == edit_distance(a.drop_last(), b) + 1 {
        let a0 = a.drop_last();
        lemma_distance_is_attained(a0, b);
        let script = choose|script: Seq<Seq<char>>|
            #[trigger] is_script(script) && script.len() == edit_distance(a0, b) + 1
                && script.first() == a0 && script.last() == b;
        assert(a0 =~= a.remove(a.len() - 1));
        assert(is_deletion(a, a0));
        lemma_script_prepend(a, script);
        let longer = seq![a] + script;
        assert(is_script(longer) && longer.len() == d + 1 && longer.first() == a && longer.last()
            == b);
    } else {
        let a0 = a.drop_last();
        let b0 = b.drop_last();
        let x = a.last();
        lemma_distance_is_attained(a0, b0);
        let script = choose|script: Seq<Seq<char>>|
            #[trigger] is_script(script) && script.len() == edit_distance(a0, b0) + 1
                && script.first() == a0 && script.last() == b0;
        lemma_script_lift(script, x);
        let higher = lifted(script, x);
        assert(higher.first() =~= a);
        if x == b.last() {
            assert(higher.last() =~= b);
            assert(is_script(higher) && higher.len() == d + 1 && higher.first() == a
                && higher.last() == b);
        } else {
            assert(b =~= higher.last().update(b0.len() as int, b.last()));
            assert(is_substitution(higher.last(), b));
            lemma_script_push(higher, b);
            let longer = higher.push(b);
            assert(is_script(longer) && longer.len() == d + 1 && longer.first() == a
                && longer.last() == b);
        }
    }
}

/// The distance between two strings is the least number of edits that turn
/// the one into the other.
pub proof fn lemma_distance_is_fewest_edits(a: Seq<char>, b: Seq<char>)
    ensures
        is_fewest_edits(a, b, edit_distance(a, b)),
{
    lemma_distance_is_attained(a, b);
    assert forall|k: nat| edits_to(a, b, k) implies edit_distance(a, b) <= k by {
        lemma_distance_is_least(a, b, k);
    }
}

} // verus!
