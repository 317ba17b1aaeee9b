//! Edit distance between names, and the rule that decides whether a stored
//! name is close enough to a queried one to be offered as a correction.

use crate::order::name_order;
use crate::text::chars_of;
use vstd::prelude::*;

verus! {

pub open spec fn min2(a: nat, b: nat) -> nat {
    if a <= b { a } else { b }
}

pub open spec fn min3(a: nat, b: nat, c: nat) -> nat {
    min2(min2(a, b), c)
}

/// The Levenshtein distance: the least number of insertions, deletions and
/// substitutions of single characters that turn `a` into `b`.
pub open spec fn edit_distance(a: Seq<char>, b: Seq<char>) -> nat
    decreases a.len() + b.len(),
{
    if b.len() == 0 {
        a.len()
    } else if a.len() == 0 {
        b.len()
    } else if a[0] == b[0] {
        edit_distance(a.drop_first(), b.drop_first())
    } else {
        1 + min3(
            edit_distance(a.drop_first(), b),
            edit_distance(a, b.drop_first()),
            edit_distance(a.drop_first(), b.drop_first()),
        )
    }
}

/// The number of edits that a pair of names tolerates: half the length of
/// the shorter one, and never more than three.
pub open spec fn edit_budget(a: Seq<char>, b: Seq<char>) -> nat {
    min2(min2(a.len(), b.len()) / 2, 3)
}

/// Whether `a` and `b` are within the edit budget of each other.
pub open spec fn is_close_match(a: Seq<char>, b: Seq<char>) -> bool {
    edit_distance(a, b) <= edit_budget(a, b)
}

/// The first of `names` that is a close match of `query`.
pub open spec fn first_close(names: Seq<Seq<char>>, query: Seq<char>) -> Option<Seq<char>>
    decreases names.len(),
{
    if names.len() == 0 {
        None
    } else if is_close_match(names[0], query) {
        Some(names[0])
    } else {
        first_close(names.drop_first(), query)
    }
}

/// The name to offer in place of `query`: the first close match among the
/// names of the set, taken in ascending order.
pub open spec fn suggestion(names: Set<Seq<char>>, query: Seq<char>) -> Option<Seq<char>> {
    first_close(name_order(names), query)
}

/// What is offered is one of the names, and a close match.
pub proof fn lemma_first_close(names: Seq<Seq<char>>, query: Seq<char>)
    ensures
        first_close(names, query) matches Some(found) ==> names.contains(found) && is_close_match(
            found,
            query,
        ),
        first_close(names, query) is None ==> forall|i: int|
            0 <= i < names.len() ==> !is_close_match(#[trigger] names[i], query),
    decreases names.len(),
{
    if names.len() > 0 {
        if !is_close_match(names[0], query) {
            let tail = names.drop_first();
            lemma_first_close(tail, query);
            if let Some(found) = first_close(tail, query) {
                let i = choose|i: int| 0 <= i < tail.len() && tail[i] == found;
                assert(names[i + 1] == found);
            } else {
                assert forall|i: int| 0 <= i < names.len() implies !is_close_match(
                    #[trigger] names[i],
                    query,
                ) by {
                    if i > 0 {
                        assert(tail[i - 1] == names[i]);
                    }
                }
            }
        } else {
            assert(names[0] == names[0]);
        }
    }
}

/// The distance never exceeds the length of the longer string.
pub proof fn lemma_distance_bound(a: Seq<char>, b: Seq<char>)
    ensures
        edit_distance(a, b) <= a.len() || edit_distance(a, b) <= b.len(),
    decreases a.len() + b.len(),
{
    if b.len() != 0 && a.len() != 0 {
        lemma_distance_bound(a.drop_first(), b.drop_first());
    }
}

/// The distance between the tails of `a` from `i` and of `b` from `j`.
spec fn tail_distance(a: Seq<char>, b: Seq<char>, i: int, j: int) -> nat {
    edit_distance(a.skip(i), b.skip(j))
}

/// How the distance between two tails follows from the distances between
/// shorter tails.
proof fn lemma_tail_step(a: Seq<char>, b: Seq<char>, i: int, j: int)
    requires
        0 <= i <= a.len(),
        0 <= j <= b.len(),
    ensures
        j == b.len() ==> tail_distance(a, b, i, j) == a.len() - i,
        i == a.len() ==> tail_distance(a, b, i, j) == b.len() - j,
        i < a.len() && j < b.len() && a[i] == b[j] ==> tail_distance(a, b, i, j)
            == tail_distance(a, b, i + 1, j + 1),
        i < a.len() && j < b.len() && a[i] != b[j] ==> tail_distance(a, b, i, j) == 1 + min3(
            tail_distance(a, b, i + 1, j),
            tail_distance(a, b, i, j + 1),
            tail_distance(a, b, i + 1, j + 1),
        ),
        tail_distance(a, b, i, j) <= a.len() - i || tail_distance(a, b, i, j) <= b.len() - j,
{
    lemma_distance_bound(a.skip(i), b.skip(j));
    if i < a.len() {
        assert(a.skip(i).drop_first() =~= a.skip(i + 1));
    }
    if j < b.len() {
        assert(b.skip(j).drop_first() =~= b.skip(j + 1));
    }
}

/// The edit distance between two character vectors, computed row by row
/// from the ends of both.
pub fn distance(x: &Vec<char>, y: &Vec<char>) -> (d: usize)
    ensures
        d == edit_distance(x@, y@),
{
    let m: usize = x.len();
    let n: usize = y.len();
    // `below[j]` is the distance between the tail of `x` from `i` and the
    // tail of `y` from `j`.
    let mut below: Vec<usize> = Vec::new();
    let mut j: usize = 0;
    while j < n
        invariant
            j <= n,
            n == y@.len(),
            m == x@.len(),
            below@.len() == j,
            forall|k: int| 0 <= k < j ==> below@[k] == tail_distance(x@, y@, m as int, k),
        decreases n - j,
    {
        proof {
            lemma_tail_step(x@, y@, m as int, j as int);
        }
        below.push(n - j);
        j += 1;
    }
    proof {
        lemma_tail_step(x@, y@, m as int, n as int);
    }
    below.push(0);
    let mut i: usize = m;
    while i > 0
        invariant
            i <= m,
            n == y@.len(),
            m == x@.len(),
            below@.len() == n + 1,
            forall|k: int| 0 <= k <= n ==> below@[k] == tail_distance(x@, y@, i as int, k),
        decreases i,
    {
        i -= 1;
        let mut row: Vec<usize> = below.clone();
        proof {
            lemma_tail_step(x@, y@, i as int, n as int);
        }
        row.set(n, m - i);
        let mut j: usize = n;
        while j > 0
            invariant
                j <= n,
                i < m,
                n == y@.len(),
                m == x@.len(),
                below@.len() == n + 1,
                row@.len() == n + 1,
                forall|k: int| 0 <= k <= n ==> below@[k] == tail_distance(x@, y@, i + 1, k),
                forall|k: int| j <= k <= n ==> row@[k] == tail_distance(x@, y@, i as int, k),
            decreases j,
        {
            j -= 1;
            proof {
                lemma_tail_step(x@, y@, i as int, j as int);
                lemma_tail_step(x@, y@, i + 1, j + 1);
            }
            let diagonal: usize = below[j + 1];
            if x[i] == y[j] {
                row.set(j, diagonal);
            } else {
                let down: usize = below[j];
                let right: usize = row[j + 1];
                let mut least: usize = if down <= right { down } else { right };
                if diagonal < least {
                    least = diagonal;
                }
                row.set(j, 1 + least);
            }
        }
        below = row;
    }
    proof {
        assert(x@.skip(0) =~= x@);
        assert(y@.skip(0) =~= y@);
    }
    below[0]
}

/// The edit distance between `a` and `b`, counted in characters.
pub fn lev(a: &str, b: &str) -> (d: usize)
    ensures
        d == edit_distance(a@, b@),
{
    let x = chars_of(a);
    let y = chars_of(b);
    distance(&x, &y)
}

/// Whether two runs of characters differ by no more edits than their
/// budget allows.
pub fn close_chars(x: &Vec<char>, y: &Vec<char>) -> (close: bool)
    ensures
        close == is_close_match(x@, y@),
{
    let shorter: usize = if x.len() <= y.len() { x.len() } else { y.len() };
    let half: usize = shorter / 2;
    let budget: usize = if half <= 3 { half } else { 3 };
    distance(x, y) <= budget
}

/// Whether `a` and `b` differ by no more edits than their budget allows.
pub fn close_match(a: &str, b: &str) -> (close: bool)
    ensures
        close == is_close_match(a@, b@),
{
    let x = chars_of(a);
    let y = chars_of(b);
    close_chars(&x, &y)
}

} // verus!
