//! How many single-character edits lie between two strings.
use crate::text::chars_of;
use vstd::prelude::*;

verus! {

pub open spec fn min2(a: nat, b: nat) -> nat {
    if a <= b {
        a
    } else {
        b
    }
}

/// The least number of insertions, deletions and replacements of one character that make the
/// first `i` characters of `a` into the first `j` of `b`.
pub open spec fn distance(a: Seq<char>, b: Seq<char>, i: nat, j: nat) -> nat
    decreases i + j,
{
    if i == 0 {
        j
    } else if j == 0 {
        i
    } else {
        let cost: nat = if a[i - 1] != b[j - 1] {
            1
        } else {
            0
        };
        min2(
            min2(
                distance(a, b, (i - 1) as nat, j) + 1,
                distance(a, b, i, (j - 1) as nat) + 1,
            ),
            distance(a, b, (i - 1) as nat, (j - 1) as nat) + cost,
        )
    }
}

/// The distance is never more than the longer length, nor less than the difference of the two.
proof fn lemma_distance_bounds(a: Seq<char>, b: Seq<char>, i: nat, j: nat)
    ensures
        distance(a, b, i, j) <= if i >= j {
            i
        } else {
            j
        },
        distance(a, b, i, j) >= i - j,
        distance(a, b, i, j) >= j - i,
    decreases i + j,
{
    if i > 0 && j > 0 {
        lemma_distance_bounds(a, b, (i - 1) as nat, j);
        lemma_distance_bounds(a, b, i, (j - 1) as nat);
        lemma_distance_bounds(a, b, (i - 1) as nat, (j - 1) as nat);
    }
}

/// Once every entry of a row exceeds `max`, every entry of each later row does.
proof fn lemma_rows_grow(a: Seq<char>, b: Seq<char>, row: nat, i: nat, j: nat, max: nat)
    requires
        row <= i,
        j <= b.len(),
        forall|k: nat| k <= b.len() ==> #[trigger] distance(a, b, row, k) > max,
    ensures
        distance(a, b, i, j) > max,
    decreases i, j,
{
    if row < i {
        if j == 0 {
            assert(distance(a, b, row, 0) > max);
        } else {
            lemma_rows_grow(a, b, row, (i - 1) as nat, j, max);
            lemma_rows_grow(a, b, row, i, (j - 1) as nat, max);
            lemma_rows_grow(a, b, row, (i - 1) as nat, (j - 1) as nat, max);
        }
    }
}

/// `row` holds the distances from the first `i` characters of `a` to each start of `b`.
spec fn is_row(row: Seq<usize>, a: Seq<char>, b: Seq<char>, i: nat) -> bool {
    &&& row.len() == b.len() + 1
    &&& forall|k: int| 0 <= k < row.len() ==> #[trigger] row[k] == distance(a, b, i, k as nat)
}

fn least(x: usize, y: usize) -> (r: usize)
    ensures
        r == min2(x as nat, y as nat),
{
    if x <= y {
        x
    } else {
        y
    }
}

/// Whether `a` and `b` are within `max` single-character edits of each other.
///
/// Only used to suggest a name after a typo, so it gives up early rather than computing an exact
/// distance for strings that are obviously unrelated.
pub fn edit_distance_at_most(a: &str, b: &str, max: usize) -> (r: bool)
    ensures
        r == (distance(a@, b@, a@.len(), b@.len()) <= max),
{
    let x = chars_of(a);
    let y = chars_of(b);
    proof {
        lemma_distance_bounds(a@, b@, a@.len(), b@.len());
    }
    let gap: usize = if x.len() >= y.len() {
        x.len() - y.len()
    } else {
        y.len() - x.len()
    };
    if gap > max {
        return false;
    }
    let mut prev: Vec<usize> = Vec::new();
    prev.push(0);
    let mut j: usize = 0;
    while j < y.len()
        invariant
            y@ == b@,
            j <= y@.len(),
            prev@.len() == j + 1,
            forall|k: int|
                0 <= k < prev@.len() ==> #[trigger] prev@[k] == distance(a@, b@, 0, k as nat),
        decreases y@.len() - j,
    {
        j += 1;
        prev.push(j);
    }
    let mut i: usize = 0;
    while i < x.len()
        invariant
            x@ == a@,
            y@ == b@,
            i <= x@.len(),
            y@.len() <= usize::MAX,
            is_row(prev@, a@, b@, i as nat),
        decreases x@.len() - i,
    {
        let mut cur: Vec<usize> = Vec::new();
        cur.push(i + 1);
        let mut low: usize = i + 1;
        assert(cur@[0] == low);
        let mut j: usize = 0;
        while j < y.len()
            invariant
                x@ == a@,
                y@ == b@,
                i < x@.len() <= usize::MAX,
                j <= y@.len() <= usize::MAX,
                is_row(prev@, a@, b@, i as nat),
                cur@.len() == j + 1,
                forall|k: int|
                    0 <= k < cur@.len() ==> #[trigger] cur@[k] == distance(
                        a@,
                        b@,
                        (i + 1) as nat,
                        k as nat,
                    ),
                forall|k: int| 0 <= k < cur@.len() ==> low <= #[trigger] cur@[k],
                exists|k: int| 0 <= k < cur@.len() && low == #[trigger] cur@[k],
            decreases y@.len() - j,
        {
            let cost: usize = if x[i] != y[j] {
                1
            } else {
                0
            };
            proof {
                lemma_distance_bounds(a@, b@, (i + 1) as nat, (j + 1) as nat);
                assert(prev@[j as int] == distance(a@, b@, i as nat, j as nat));
                assert(prev@[j + 1] == distance(a@, b@, i as nat, (j + 1) as nat));
                assert(cur@[j as int] == distance(a@, b@, (i + 1) as nat, j as nat));
            }
            let up: usize = prev[j + 1].saturating_add(1);
            let left: usize = cur[j].saturating_add(1);
            let diag: usize = prev[j].saturating_add(cost);
            let d: usize = least(least(up, left), diag);
            assert(d == distance(a@, b@, (i + 1) as nat, (j + 1) as nat));
            let ghost before = cur@;
            let ghost low_before = low;
            cur.push(d);
            proof {
                let k = choose|k: int| 0 <= k < before.len() && low_before == #[trigger] before[k];
                assert(cur@[k] == low_before);
                assert(cur@[j + 1] == d);
            }
            if d < low {
                low = d;
            }
            j += 1;
        }
        if low > max {
            proof {
                assert forall|k: nat| k <= b@.len() implies #[trigger] distance(
                    a@,
                    b@,
                    (i + 1) as nat,
                    k,
                ) > max by {
                    assert(cur@[k as int] == distance(a@, b@, (i + 1) as nat, k));
                }
                lemma_rows_grow(a@, b@, (i + 1) as nat, a@.len(), b@.len(), max as nat);
            }
            return false;
        }
        prev = cur;
        i += 1;
    }
    assert(prev@[b@.len() as int] == distance(a@, b@, a@.len(), b@.len()));
    prev[y.len()] <= max
}

/// A string is no edit away from itself, and from no other: suggestions at distance 0 are exact.
pub proof fn law_distance_zero(a: Seq<char>, b: Seq<char>)
    ensures
        distance(a, b, a.len(), b.len()) == 0 <==> a == b,
{
    if a == b {
        lemma_same_is_zero(a, a.len());
    }
    if distance(a, b, a.len(), b.len()) == 0 {
        lemma_zero_is_same(a, b, a.len(), b.len());
        assert(a.take(a.len() as int) =~= a);
        assert(b.take(b.len() as int) =~= b);
    }
}

proof fn lemma_same_is_zero(a: Seq<char>, n: nat)
    ensures
        distance(a, a, n, n) == 0,
    decreases n,
{
    if n > 0 {
        lemma_same_is_zero(a, (n - 1) as nat);
    }
}

proof fn lemma_zero_is_same(a: Seq<char>, b: Seq<char>, i: nat, j: nat)
    requires
        distance(a, b, i, j) == 0,
        i <= a.len(),
        j <= b.len(),
    ensures
        a.take(i as int) == b.take(j as int),
    decreases i + j,
{
    if i == 0 || j == 0 {
        assert(a.take(i as int) =~= b.take(j as int));
    } else {
        lemma_zero_is_same(a, b, (i - 1) as nat, (j - 1) as nat);
        assert(a.take(i as int) =~= a.take(i - 1).push(a[i - 1]));
        assert(b.take(j as int) =~= b.take(j - 1).push(b[j - 1]));
    }
}

/// The distance is the same in both directions.
pub proof fn law_distance_symmetric(a: Seq<char>, b: Seq<char>, i: nat, j: nat)
    ensures
        distance(a, b, i, j) == distance(b, a, j, i),
    decreases i + j,
{
    if i > 0 && j > 0 {
        law_distance_symmetric(a, b, (i - 1) as nat, j);
        law_distance_symmetric(a, b, i, (j - 1) as nat);
        law_distance_symmetric(a, b, (i - 1) as nat, (j - 1) as nat);
    }
}

proof fn lemma_prefix_is_near(a: Seq<char>, b: Seq<char>, n: nat, p: nat)
    requires
        n <= a.len(),
        n <= b.len(),
        forall|i: int| 0 <= i < n && i != p ==> a[i] == b[i],
    ensures
        distance(a, b, n, n) <= if p < n {
            1nat
        } else {
            0
        },
    decreases n,
{
    if n > 0 {
        lemma_prefix_is_near(a, b, (n - 1) as nat, p);
    }
}

proof fn lemma_rest_is_near(a: Seq<char>, b: Seq<char>, n: nat, p: nat)
    requires
        p <= n <= a.len(),
        n + 1 <= b.len(),
        forall|i: int| 0 <= i < p ==> a[i] == b[i],
        forall|i: int| p <= i < n ==> a[i] == b[i + 1],
    ensures
        distance(a, b, n, n + 1) <= 1,
    decreases n,
{
    if n > p {
        lemma_rest_is_near(a, b, (n - 1) as nat, p);
    } else {
        lemma_prefix_is_near(a, b, p, p);
    }
}

/// One change is one edit: a character put in, taken out, or replaced by another.
pub proof fn law_one_change_is_one_edit(a: Seq<char>, p: int, c: char)
    requires
        0 <= p <= a.len(),
    ensures
        distance(a, a.insert(p, c), a.len(), a.insert(p, c).len()) == 1,
        distance(a.insert(p, c), a, a.insert(p, c).len(), a.len()) == 1,
        p < a.len() && c != a[p] ==> distance(a, a.update(p, c), a.len(), a.len()) == 1,
{
    let b = a.insert(p, c);
    assert(b.len() == a.len() + 1);
    assert forall|i: int| 0 <= i < p implies a[i] == b[i] by {}
    assert forall|i: int| p <= i < a.len() implies a[i] == b[i + 1] by {}
    lemma_rest_is_near(a, b, a.len(), p as nat);
    law_distance_zero(a, b);
    law_distance_symmetric(a, b, a.len(), b.len());
    if p < a.len() && c != a[p] {
        let d = a.update(p, c);
        lemma_prefix_is_near(a, d, a.len(), p as nat);
        law_distance_zero(a, d);
        assert(d[p] != a[p]);
    }
}

/// There are at least as many edits as the lengths differ by, and never more than the longer length.
pub proof fn law_lengths_bound_the_distance(a: Seq<char>, b: Seq<char>, i: nat, j: nat)
    ensures
        i <= distance(a, b, i, j) + j,
        j <= distance(a, b, i, j) + i,
        distance(a, b, i, j) <= i || distance(a, b, i, j) <= j,
    decreases i + j,
{
    if i > 0 && j > 0 {
        law_lengths_bound_the_distance(a, b, (i - 1) as nat, j);
        law_lengths_bound_the_distance(a, b, i, (j - 1) as nat);
        law_lengths_bound_the_distance(a, b, (i - 1) as nat, (j - 1) as nat);
    }
}

/// What two strings have in common at their ends costs nothing.
pub proof fn law_a_common_end_costs_nothing(a: Seq<char>, b: Seq<char>, i: nat, j: nat)
    requires
        0 < i <= a.len(),
        0 < j <= b.len(),
        a[i - 1] == b[j - 1],
    ensures
        distance(a, b, i, j) <= distance(a, b, (i - 1) as nat, (j - 1) as nat),
{
}

} // verus!
