//! Optimal bottleneck matching between the points of two persistence diagrams, over
//! the ranks of their costs: each point of the first diagram goes to a distinct point
//! of the second or to the diagonal, the points of the second left over go to the
//! diagonal, and the largest cost rank used is as small as it can be.
use vstd::prelude::*;

verus! {

/// The larger of two ranks.
pub open spec fn max_rank(a: u64, b: u64) -> u64 {
    if a >= b {
        a
    } else {
        b
    }
}

/// The largest diagonal rank of the first `j` points of the second diagram that are
/// not `used`, or zero.
pub open spec fn leftover_rank(rb: Seq<u64>, used: Seq<bool>, j: nat) -> u64
    decreases j,
{
    if j == 0 {
        0
    } else {
        let p = leftover_rank(rb, used, (j - 1) as nat);
        if used[j - 1] {
            p
        } else {
            max_rank(p, rb[j - 1])
        }
    }
}

/// The cost rank of sending point `i` of the first diagram to `choice`: point `j` of
/// the second diagram, or the diagonal.
pub open spec fn choice_rank(pr: Seq<Seq<u64>>, ra: Seq<u64>, i: int, choice: Option<usize>) -> u64 {
    match choice {
        Some(j) => pr[i][j as int],
        None => ra[i],
    }
}

/// `c` sends the next points of the first diagram, one after the other, each to a point
/// of the second diagram not `used` before (which it then uses) or to the diagonal.
pub open spec fn valid_from(m: nat, used: Seq<bool>, c: Seq<Option<usize>>) -> bool
    decreases c.len(),
{
    if c.len() == 0 {
        true
    } else {
        match c[0] {
            Some(j) => j < m && !used[j as int] && valid_from(m, used.update(j as int, true), c.drop_first()),
            None => valid_from(m, used, c.drop_first()),
        }
    }
}

/// The largest cost rank of the matching that sends points `i..` of the first diagram
/// as `c` says, given the points of the second diagram already `used`, with every
/// point of the second diagram left over sent to the diagonal.
pub open spec fn cost_from(
    pr: Seq<Seq<u64>>,
    ra: Seq<u64>,
    rb: Seq<u64>,
    i: int,
    used: Seq<bool>,
    c: Seq<Option<usize>>,
) -> u64
    decreases c.len(),
{
    if c.len() == 0 {
        leftover_rank(rb, used, rb.len())
    } else {
        let next = match c[0] {
            Some(j) => used.update(j as int, true),
            None => used,
        };
        max_rank(choice_rank(pr, ra, i, c[0]), cost_from(pr, ra, rb, i + 1, next, c.drop_first()))
    }
}

/// No point of the second diagram is used yet.
pub open spec fn none_used(m: nat) -> Seq<bool> {
    Seq::new(m, |j: int| false)
}

/// `asg` sends each point of the first diagram to a distinct point `0..m` of the
/// second, or to the diagonal.
pub open spec fn is_matching(asg: Seq<Option<usize>>, m: nat) -> bool {
    &&& forall|i: int| 0 <= i < asg.len() && (#[trigger] asg[i]) is Some ==> asg[i]->0 < m
    &&& forall|i1: int, i2: int|
        0 <= i1 < asg.len() && 0 <= i2 < asg.len() && i1 != i2 && (#[trigger] asg[i1]) is Some && (
        #[trigger] asg[i2]) is Some ==> asg[i1]->0 != asg[i2]->0
}

/// Point `j` of the second diagram is the partner of some point in `asg`.
pub open spec fn partner_used(asg: Seq<Option<usize>>, j: int) -> bool {
    exists|i: int| 0 <= i < asg.len() && #[trigger] asg[i] == Some(j as usize)
}

/// The points of the second diagram marked `used` or taken by `asg`.
pub open spec fn marked(used: Seq<bool>, asg: Seq<Option<usize>>, m: nat) -> Seq<bool> {
    Seq::new(m, |j: int| used[j] || partner_used(asg, j))
}

/// The largest cost rank of the points of the first diagram, numbered from `i`, as
/// `asg` sends them.
pub open spec fn points_rank(pr: Seq<Seq<u64>>, ra: Seq<u64>, i: int, asg: Seq<Option<usize>>) -> u64
    decreases asg.len(),
{
    if asg.len() == 0 {
        0
    } else {
        max_rank(choice_rank(pr, ra, i, asg[0]), points_rank(pr, ra, i + 1, asg.drop_first()))
    }
}

/// The largest cost rank of the matching `asg`: over the points of the first diagram
/// where it sends them, and over the points of the second diagram it leaves to the
/// diagonal.
pub open spec fn matching_rank(pr: Seq<Seq<u64>>, ra: Seq<u64>, rb: Seq<u64>, asg: Seq<Option<usize>>) -> u64 {
    max_rank(
        points_rank(pr, ra, 0, asg),
        leftover_rank(rb, marked(none_used(rb.len()), asg, rb.len()), rb.len()),
    )
}

proof fn lemma_leftover_rank_ext(rb: Seq<u64>, u1: Seq<bool>, u2: Seq<bool>, j: nat)
    requires
        forall|k: int| 0 <= k < j ==> u1[k] == u2[k],
    ensures
        leftover_rank(rb, u1, j) == leftover_rank(rb, u2, j),
    decreases j,
{
    if j > 0 {
        lemma_leftover_rank_ext(rb, u1, u2, (j - 1) as nat);
    }
}

/// The sequential reading of a matching agrees with the direct one.
proof fn lemma_sequential_matching(
    pr: Seq<Seq<u64>>,
    ra: Seq<u64>,
    rb: Seq<u64>,
    i: int,
    used: Seq<bool>,
    s: Seq<Option<usize>>,
)
    requires
        used.len() == rb.len(),
        rb.len() <= usize::MAX,
    ensures
        valid_from(rb.len(), used, s) == (is_matching(s, rb.len()) && forall|k: int|
            0 <= k < s.len() && (#[trigger] s[k]) is Some ==> !used[s[k]->0 as int]),
        valid_from(rb.len(), used, s) ==> cost_from(pr, ra, rb, i, used, s) == max_rank(
            points_rank(pr, ra, i, s),
            leftover_rank(rb, marked(used, s, rb.len()), rb.len()),
        ),
    decreases s.len(),
{
    let m = rb.len();
    if s.len() == 0 {
        assert(marked(used, s, m) =~= used);
    } else {
        let t = s.drop_first();
        let next = match s[0] {
            Some(j) => used.update(j as int, true),
            None => used,
        };
        if s[0] is Some && s[0]->0 >= m {
            assert(!is_matching(s, m));
            return;
        }
        assert(next.len() == m);
        lemma_sequential_matching(pr, ra, rb, i + 1, next, t);
        assert forall|k: int| 0 <= k < t.len() implies t[k] == s[k + 1] by {}
        // validity
        let direct = is_matching(s, m) && forall|k: int|
            0 <= k < s.len() && (#[trigger] s[k]) is Some ==> !used[s[k]->0 as int];
        let rest = is_matching(t, m) && forall|k: int|
            0 <= k < t.len() && (#[trigger] t[k]) is Some ==> !next[t[k]->0 as int];
        if direct {
            assert forall|k: int| 0 <= k < t.len() && (#[trigger] t[k]) is Some implies !next[t[k]->0 as int] by {
                assert(s[k + 1] == t[k]);
                if s[0] is Some {
                    assert(s[0]->0 != s[k + 1]->0);
                }
            }
            assert forall|i1: int, i2: int|
                0 <= i1 < t.len() && 0 <= i2 < t.len() && i1 != i2 && (#[trigger] t[i1]) is Some && (
                #[trigger] t[i2]) is Some implies t[i1]->0 != t[i2]->0 by {
                assert(s[i1 + 1] == t[i1] && s[i2 + 1] == t[i2]);
            }
            assert forall|k: int| 0 <= k < t.len() && (#[trigger] t[k]) is Some implies t[k]->0 < m by {
                assert(s[k + 1] == t[k]);
            }
            assert(rest);
            if s[0] is Some {
                assert(s[0]->0 < m && !used[s[0]->0 as int]);
            }
        }
        if valid_from(m, used, s) {
            assert(rest);
            assert forall|k: int| 0 <= k < s.len() && (#[trigger] s[k]) is Some implies s[k]->0 < m && !used[
                s[k]->0 as int] by {
                if k > 0 {
                    assert(t[k - 1] == s[k]);
                    if s[0] is Some {
                        assert(next[t[k - 1]->0 as int] == (used[t[k - 1]->0 as int] || t[k - 1]->0 == s[0]->0));
                    }
                }
            }
            assert forall|i1: int, i2: int|
                0 <= i1 < s.len() && 0 <= i2 < s.len() && i1 != i2 && (#[trigger] s[i1]) is Some && (
                #[trigger] s[i2]) is Some implies s[i1]->0 != s[i2]->0 by {
                if i1 > 0 && i2 > 0 {
                    assert(t[i1 - 1] == s[i1] && t[i2 - 1] == s[i2]);
                } else if i1 == 0 {
                    assert(t[i2 - 1] == s[i2]);
                    assert(!next[t[i2 - 1]->0 as int]);
                } else {
                    assert(t[i1 - 1] == s[i1]);
                    assert(!next[t[i1 - 1]->0 as int]);
                }
            }
            // cost
            assert forall|k: int| 0 <= k < m implies marked(next, t, m)[k] == marked(used, s, m)[k] by {
                if s[0] is Some {
                    assert(next[k] == (used[k] || k == s[0]->0));
                } else {
                    assert(next[k] == used[k]);
                }
                if partner_used(t, k) {
                    let q = choose|q: int| 0 <= q < t.len() && #[trigger] t[q] == Some(k as usize);
                    assert(s[q + 1] == t[q]);
                    assert(0 <= q + 1 < s.len() && s[q + 1] == Some(k as usize));
                    assert(partner_used(s, k));
                }
                if s[0] is Some && s[0]->0 == k {
                    assert(s[0] == Some(k as usize));
                    assert(partner_used(s, k));
                }
                if partner_used(s, k) {
                    let q = choose|q: int| 0 <= q < s.len() && #[trigger] s[q] == Some(k as usize);
                    if q > 0 {
                        assert(t[q - 1] == s[q]);
                        assert(0 <= q - 1 < t.len() && t[q - 1] == Some(k as usize));
                        assert(partner_used(t, k));
                    } else {
                        assert(s[0]->0 == k);
                    }
                }
            }
            lemma_leftover_rank_ext(rb, marked(next, t, m), marked(used, s, m), m);
        }
    }
}

/// Every cost rank of the matching `c` is at most `t`: each point of the first diagram
/// where `c` sends it, and each point of the second diagram that `c` leaves over.
pub open spec fn matching_within(pr: Seq<Seq<u64>>, ra: Seq<u64>, rb: Seq<u64>, c: Seq<Option<usize>>, t: u64) -> bool {
    &&& forall|i: int| 0 <= i < c.len() ==> #[trigger] choice_rank(pr, ra, i, c[i]) <= t
    &&& forall|j: int| 0 <= j < rb.len() && !partner_used(c, j) ==> #[trigger] rb[j] <= t
}

/// `r` is the bottleneck rank: some matching reaches it and none goes below it.
pub open spec fn is_bottleneck_rank(pr: Seq<Seq<u64>>, ra: Seq<u64>, rb: Seq<u64>, r: u64) -> bool {
    &&& exists|c: Seq<Option<usize>>|
        c.len() == pr.len() && #[trigger] is_matching(c, rb.len()) && matching_rank(pr, ra, rb, c) == r
    &&& forall|c: Seq<Option<usize>>|
        c.len() == pr.len() && #[trigger] is_matching(c, rb.len()) ==> r <= matching_rank(pr, ra, rb, c)
}

/// The cost ranks seen from the second diagram: `m` rows, one per point of the second
/// diagram, each holding its cost rank against every point of the first.
pub open spec fn transpose_ranks(pr: Seq<Seq<u64>>, m: nat) -> Seq<Seq<u64>> {
    Seq::new(m, |j: int| Seq::new(pr.len(), |i: int| pr[i][j]))
}

/// The matching `c` read from the second diagram: each of its `m` points goes to its
/// partner in the first diagram, or to the diagonal.
pub open spec fn inverse_matching(c: Seq<Option<usize>>, m: nat) -> Seq<Option<usize>> {
    Seq::new(
        m,
        |j: int|
            if partner_used(c, j) {
                Some((choose|i: int| 0 <= i < c.len() && #[trigger] c[i] == Some(j as usize)) as usize)
            } else {
                None
            },
    )
}

proof fn lemma_points_rank_bound(pr: Seq<Seq<u64>>, ra: Seq<u64>, i: int, asg: Seq<Option<usize>>, t: u64)
    ensures
        points_rank(pr, ra, i, asg) <= t <==> forall|k: int|
            #![trigger asg[k]]
            0 <= k < asg.len() ==> choice_rank(pr, ra, i + k, asg[k]) <= t,
    decreases asg.len(),
{
    if asg.len() > 0 {
        let rest = asg.drop_first();
        lemma_points_rank_bound(pr, ra, i + 1, rest, t);
        if points_rank(pr, ra, i, asg) <= t {
            assert forall|k: int| 0 <= k < asg.len() implies choice_rank(pr, ra, i + k, asg[k]) <= t by {
                if k > 0 {
                    assert(rest[k - 1] == asg[k]);
                    assert(choice_rank(pr, ra, (i + 1) + (k - 1), rest[k - 1]) <= t);
                }
            }
        } else if choice_rank(pr, ra, i, asg[0]) > t {
            assert(choice_rank(pr, ra, i + 0, asg[0]) > t);
        } else {
            let k = choose|k: int| 0 <= k < rest.len() && choice_rank(pr, ra, i + 1 + k, #[trigger] rest[k]) > t;
            assert(asg[k + 1] == rest[k]);
            assert(choice_rank(pr, ra, i + (k + 1), asg[k + 1]) > t);
        }
    }
}

proof fn lemma_leftover_rank_bound(rb: Seq<u64>, used: Seq<bool>, j: nat, t: u64)
    ensures
        leftover_rank(rb, used, j) <= t <==> forall|k: int|
            #![trigger rb[k]]
            0 <= k < j && !used[k] ==> rb[k] <= t,
    decreases j,
{
    if j > 0 {
        lemma_leftover_rank_bound(rb, used, (j - 1) as nat, t);
    }
}

/// The matching rank is at most `t` exactly when every cost rank it uses is.
pub proof fn lemma_matching_rank_bound(pr: Seq<Seq<u64>>, ra: Seq<u64>, rb: Seq<u64>, c: Seq<Option<usize>>, t: u64)
    ensures
        matching_rank(pr, ra, rb, c) <= t <==> matching_within(pr, ra, rb, c, t),
{
    let m = rb.len();
    let mk = marked(none_used(m), c, m);
    lemma_points_rank_bound(pr, ra, 0, c, t);
    lemma_leftover_rank_bound(rb, mk, m, t);
    assert forall|k: int| 0 <= k < m implies mk[k] == partner_used(c, k) by {}
    if matching_rank(pr, ra, rb, c) <= t {
        assert forall|i: int| 0 <= i < c.len() implies #[trigger] choice_rank(pr, ra, i, c[i]) <= t by {
            assert(choice_rank(pr, ra, 0 + i, c[i]) <= t);
        }
        assert forall|j: int| 0 <= j < rb.len() && !partner_used(c, j) implies #[trigger] rb[j] <= t by {
            assert(!mk[j]);
        }
    }
    if matching_within(pr, ra, rb, c, t) {
        assert forall|k: int| 0 <= k < c.len() implies choice_rank(pr, ra, 0 + k, #[trigger] c[k]) <= t by {
            assert(choice_rank(pr, ra, k, c[k]) <= t);
        }
        assert forall|k: int| 0 <= k < m && !mk[k] implies #[trigger] rb[k] <= t by {
            assert(!partner_used(c, k));
        }
    }
}

/// Read from the second diagram, a matching within `t` is again a matching within `t`.
proof fn lemma_inverse_matching(pr: Seq<Seq<u64>>, ra: Seq<u64>, rb: Seq<u64>, c: Seq<Option<usize>>, t: u64)
    requires
        pr.len() == ra.len(),
        forall|i: int| 0 <= i < pr.len() ==> (#[trigger] pr[i]).len() == rb.len(),
        pr.len() <= usize::MAX,
        rb.len() <= usize::MAX,
        c.len() == pr.len(),
        is_matching(c, rb.len()),
        matching_within(pr, ra, rb, c, t),
    ensures
        inverse_matching(c, rb.len()).len() == rb.len(),
        is_matching(inverse_matching(c, rb.len()), ra.len()),
        matching_within(transpose_ranks(pr, rb.len()), rb, ra, inverse_matching(c, rb.len()), t),
{
    let n = pr.len();
    let m = rb.len();
    let inv = inverse_matching(c, m);
    let prt = transpose_ranks(pr, m);
    // where the inverse sends each point of the second diagram
    assert forall|j: int| 0 <= j < m && (#[trigger] inv[j]) is Some implies inv[j]->0 < n && c[inv[j]->0 as int]
        == Some(j as usize) by {
        let i = choose|i: int| 0 <= i < c.len() && #[trigger] c[i] == Some(j as usize);
        assert(inv[j] == Some(i as usize));
    }
    assert forall|j1: int, j2: int|
        0 <= j1 < m && 0 <= j2 < m && j1 != j2 && (#[trigger] inv[j1]) is Some && (#[trigger] inv[j2]) is Some
            implies inv[j1]->0 != inv[j2]->0 by {
        assert(c[inv[j1]->0 as int] == Some(j1 as usize));
        assert(c[inv[j2]->0 as int] == Some(j2 as usize));
    }
    // the points of the first diagram that the inverse reaches are those `c` matches
    assert forall|i: int| 0 <= i < n implies partner_used(inv, i) == (c[i] is Some) by {
        if c[i] is Some {
            let j = c[i]->0 as int;
            assert(partner_used(c, j));
            let i2 = choose|i2: int| 0 <= i2 < c.len() && #[trigger] c[i2] == Some(j as usize);
            if i2 != i {
                assert(c[i2]->0 != c[i]->0);
            }
            assert(inv[j] == Some(i as usize));
        }
        if partner_used(inv, i) {
            let j = choose|j: int| 0 <= j < inv.len() && #[trigger] inv[j] == Some(i as usize);
            assert(c[i] == Some(j as usize));
        }
    }
    assert forall|j: int| 0 <= j < inv.len() implies #[trigger] choice_rank(prt, rb, j, inv[j]) <= t by {
        if inv[j] is Some {
            let i = inv[j]->0 as int;
            assert(c[i] == Some(j as usize));
            assert(choice_rank(pr, ra, i, c[i]) <= t);
        } else {
            assert(!partner_used(c, j));
            assert(rb[j] <= t);
        }
    }
    assert forall|i: int| 0 <= i < ra.len() && !partner_used(inv, i) implies #[trigger] ra[i] <= t by {
        assert(choice_rank(pr, ra, i, c[i]) <= t);
    }
}

/// The bottleneck rank does not depend on which diagram comes first: with the cost
/// ranks read from the second diagram, and the diagonal ranks swapped, it is the same.
pub proof fn lemma_bottleneck_symmetric(pr: Seq<Seq<u64>>, ra: Seq<u64>, rb: Seq<u64>, r1: u64, r2: u64)
    requires
        pr.len() == ra.len(),
        forall|i: int| 0 <= i < pr.len() ==> (#[trigger] pr[i]).len() == rb.len(),
        ra.len() <= usize::MAX,
        rb.len() <= usize::MAX,
        is_bottleneck_rank(pr, ra, rb, r1),
        is_bottleneck_rank(transpose_ranks(pr, rb.len()), rb, ra, r2),
    ensures
        r1 == r2,
{
    let n = ra.len();
    let m = rb.len();
    let prt = transpose_ranks(pr, m);
    let c1 = choose|c: Seq<Option<usize>>|
        c.len() == pr.len() && #[trigger] is_matching(c, rb.len()) && matching_rank(pr, ra, rb, c) == r1;
    lemma_matching_rank_bound(pr, ra, rb, c1, r1);
    lemma_inverse_matching(pr, ra, rb, c1, r1);
    let d1 = inverse_matching(c1, m);
    lemma_matching_rank_bound(prt, rb, ra, d1, r1);
    assert(r2 <= matching_rank(prt, rb, ra, d1));
    let c2 = choose|c: Seq<Option<usize>>|
        c.len() == prt.len() && #[trigger] is_matching(c, ra.len()) && matching_rank(prt, rb, ra, c) == r2;
    lemma_matching_rank_bound(prt, rb, ra, c2, r2);
    assert forall|j: int| 0 <= j < prt.len() implies (#[trigger] prt[j]).len() == ra.len() by {}
    lemma_inverse_matching(prt, rb, ra, c2, r2);
    let d2 = inverse_matching(c2, n);
    assert(transpose_ranks(prt, n) =~= pr) by {
        assert forall|i: int| 0 <= i < n implies #[trigger] transpose_ranks(prt, n)[i] =~= pr[i] by {}
    }
    lemma_matching_rank_bound(pr, ra, rb, d2, r2);
    assert(r1 <= matching_rank(pr, ra, rb, d2));
}

/// Matching a diagram with itself: the identity matching bounds the bottleneck rank by
/// the largest cost rank of a point against itself, so where those ranks are all zero
/// (the rank of a zero cost) the bottleneck rank is zero.
pub proof fn lemma_bottleneck_identity(pr: Seq<Seq<u64>>, ra: Seq<u64>, rb: Seq<u64>, r: u64, t: u64)
    requires
        pr.len() == ra.len(),
        rb.len() == ra.len(),
        forall|i: int| 0 <= i < pr.len() ==> (#[trigger] pr[i]).len() == rb.len(),
        rb.len() <= usize::MAX,
        is_bottleneck_rank(pr, ra, rb, r),
        forall|i: int| 0 <= i < pr.len() ==> #[trigger] pr[i][i] <= t,
    ensures
        r <= t,
{
    let n = pr.len();
    let id = Seq::new(n, |i: int| Some(i as usize));
    assert forall|j: int| 0 <= j < rb.len() implies partner_used(id, j) by {
        assert(id[j] == Some(j as usize));
    }
    assert forall|i: int| 0 <= i < id.len() implies #[trigger] choice_rank(pr, ra, i, id[i]) <= t by {
        assert(pr[i][i] <= t);
    }
    lemma_matching_rank_bound(pr, ra, rb, id, t);
    assert(is_matching(id, rb.len()));
}

/// With no point on one side, every point of the other goes to the diagonal: the
/// bottleneck rank is the largest diagonal rank, or zero where there is none.
pub proof fn lemma_bottleneck_one_side_empty(pr: Seq<Seq<u64>>, ra: Seq<u64>, rb: Seq<u64>, r: u64, t: u64)
    requires
        pr.len() == ra.len(),
        forall|i: int| 0 <= i < pr.len() ==> (#[trigger] pr[i]).len() == rb.len(),
        pr.len() == 0 || rb.len() == 0,
        is_bottleneck_rank(pr, ra, rb, r),
    ensures
        r <= t <==> (forall|i: int| 0 <= i < ra.len() ==> #[trigger] ra[i] <= t) && (forall|j: int|
            0 <= j < rb.len() ==> #[trigger] rb[j] <= t),
{
    let c = choose|c: Seq<Option<usize>>|
        c.len() == pr.len() && #[trigger] is_matching(c, rb.len()) && matching_rank(pr, ra, rb, c) == r;
    lemma_matching_rank_bound(pr, ra, rb, c, t);
    assert forall|i: int| 0 <= i < c.len() implies #[trigger] c[i] is None by {}
    assert forall|j: int| 0 <= j < rb.len() implies !partner_used(c, j) by {}
    if r <= t {
        assert forall|i: int| 0 <= i < ra.len() implies #[trigger] ra[i] <= t by {
            assert(choice_rank(pr, ra, i, c[i]) <= t);
        }
    }
    if (forall|i: int| 0 <= i < ra.len() ==> #[trigger] ra[i] <= t) {
        assert forall|i: int| 0 <= i < c.len() implies #[trigger] choice_rank(pr, ra, i, c[i]) <= t by {
            assert(ra[i] <= t);
        }
    }
}

/// A bottleneck matching: where each point of the first diagram goes, and the largest
/// cost rank the matching uses.
pub struct BottleneckMatching {
    /// For each point of the first diagram, its partner in the second, or `None` for
    /// the diagonal.
    pub assignment: Vec<Option<usize>>,
    /// The largest cost rank used.
    pub rank: u64,
}

/// The cost ranks have the shape of `n` points against `m` points.
pub open spec fn ranks_fit(pr: Seq<Vec<u64>>, ra: Seq<u64>, rb: Seq<u64>) -> bool {
    &&& pr.len() == ra.len()
    &&& forall|i: int| 0 <= i < pr.len() ==> (#[trigger] pr[i])@.len() == rb.len()
}

/// The cost ranks as sequences.
pub open spec fn rank_rows(pr: Seq<Vec<u64>>) -> Seq<Seq<u64>> {
    pr.map_values(|r: Vec<u64>| r@)
}

fn leftover_rank_of(rb: &Vec<u64>, used: &Vec<bool>) -> (r: u64)
    requires
        used@.len() == rb@.len(),
    ensures
        r == leftover_rank(rb@, used@, rb@.len()),
{
    let mut r: u64 = 0;
    for j in 0..rb.len()
        invariant
            used@.len() == rb@.len(),
            r == leftover_rank(rb@, used@, j as nat),
    {
        if !used[j] {
            if rb[j] > r {
                r = rb[j];
            }
        }
    }
    r
}

/// The best completion for points `i..` given the points of the second diagram `used`.
fn search(pr: &Vec<Vec<u64>>, ra: &Vec<u64>, rb: &Vec<u64>, i: usize, used: &mut Vec<bool>) -> (res: (
    u64,
    Vec<Option<usize>>,
))
    requires
        ranks_fit(pr@, ra@, rb@),
        i <= pr@.len(),
        old(used)@.len() == rb@.len(),
    ensures
        final(used)@ == old(used)@,
        res.1@.len() == pr@.len() - i,
        valid_from(rb@.len(), old(used)@, res.1@),
        res.0 == cost_from(rank_rows(pr@), ra@, rb@, i as int, old(used)@, res.1@),
        forall|c: Seq<Option<usize>>|
            c.len() == pr@.len() - i && #[trigger] valid_from(rb@.len(), old(used)@, c) ==> res.0 <= cost_from(
                rank_rows(pr@),
                ra@,
                rb@,
                i as int,
                old(used)@,
                c,
            ),
    decreases pr@.len() - i,
{
    let ghost u0 = used@;
    let ghost prs = rank_rows(pr@);
    let n = pr.len();
    let m = rb.len();
    if i == n {
        let r = leftover_rank_of(rb, used);
        let c: Vec<Option<usize>> = Vec::new();
        proof {
            assert forall|c2: Seq<Option<usize>>|
                c2.len() == pr@.len() - i && #[trigger] valid_from(rb@.len(), u0, c2) implies r <= cost_from(
                prs,
                ra@,
                rb@,
                i as int,
                u0,
                c2,
            ) by {
                assert(c2.len() == 0);
            }
            assert(c@ =~= Seq::<Option<usize>>::empty());
        }
        return (r, c);
    }
    // the diagonal
    let (v0, tail0) = search(pr, ra, rb, i + 1, used);
    let mut best_v = if ra[i] >= v0 { ra[i] } else { v0 };
    let mut best: Vec<Option<usize>> = Vec::new();
    best.push(None);
    let mut t0 = tail0;
    best.append(&mut t0);
    proof {
        let bc = best@;
        assert(bc.drop_first() =~= tail0@);
        assert(bc[0] is None);
        assert forall|c: Seq<Option<usize>>|
            c.len() == n - i && #[trigger] valid_from(m as nat, u0, c) && (c[0] is None || (c[0] is Some
                && c[0]->0 < 0)) implies best_v <= cost_from(prs, ra@, rb@, i as int, u0, c) by {
            assert(valid_from(m as nat, u0, c.drop_first()));
            assert(v0 <= cost_from(prs, ra@, rb@, i + 1, u0, c.drop_first()));
        }
    }
    for j in 0..m
        invariant
            n == pr@.len(),
            m == rb@.len(),
            i < n,
            ranks_fit(pr@, ra@, rb@),
            prs == rank_rows(pr@),
            used@ == u0,
            u0.len() == m,
            best@.len() == n - i,
            valid_from(m as nat, u0, best@),
            best_v == cost_from(prs, ra@, rb@, i as int, u0, best@),
            forall|c: Seq<Option<usize>>|
                c.len() == n - i && #[trigger] valid_from(m as nat, u0, c) && (c[0] is None || (c[0] is Some
                    && c[0]->0 < j)) ==> best_v <= cost_from(prs, ra@, rb@, i as int, u0, c),
    {
        if !used[j] {
            used.set(j, true);
            let (v, tail) = search(pr, ra, rb, i + 1, used);
            used.set(j, false);
            assert(used@ =~= u0);
            let pij = pr[i][j];
            let total = if pij >= v { pij } else { v };
            let ghost u1 = u0.update(j as int, true);
            proof {
                assert(prs[i as int] == pr@[i as int]@);
                assert forall|c: Seq<Option<usize>>|
                    c.len() == n - i && #[trigger] valid_from(m as nat, u0, c) && c[0] == Some(j) implies total
                    <= cost_from(prs, ra@, rb@, i as int, u0, c) by {
                    assert(valid_from(m as nat, u1, c.drop_first()));
                }
            }
            if total < best_v {
                best_v = total;
                let mut nb: Vec<Option<usize>> = Vec::new();
                nb.push(Some(j));
                let mut t = tail;
                nb.append(&mut t);
                proof {
                    assert(nb@.drop_first() =~= tail@);
                }
                best = nb;
            }
        } else {
            proof {
                assert forall|c: Seq<Option<usize>>|
                    c.len() == n - i && #[trigger] valid_from(m as nat, u0, c) implies c[0] != Some(j) by {}
            }
        }
    }
    (best_v, best)
}

/// An optimal bottleneck matching. `pr[i][j]` is the cost rank of matching point `i`
/// of the first diagram with point `j` of the second, `ra[i]` and `rb[j]` the cost
/// ranks of sending a point to the diagonal. Every matching (each point of the first
/// diagram to a distinct point of the second or to the diagonal, the rest of the
/// second to the diagonal) uses a cost rank at least the one returned, and the
/// returned assignment uses exactly that rank. The search is exhaustive.
pub fn bottleneck_matching(pr: &Vec<Vec<u64>>, ra: &Vec<u64>, rb: &Vec<u64>) -> (res: BottleneckMatching)
    requires
        ranks_fit(pr@, ra@, rb@),
    ensures
        res.assignment@.len() == pr@.len(),
        is_matching(res.assignment@, rb@.len()),
        res.rank == matching_rank(rank_rows(pr@), ra@, rb@, res.assignment@),
        forall|c: Seq<Option<usize>>|
            c.len() == pr@.len() && #[trigger] is_matching(c, rb@.len()) ==> res.rank <= matching_rank(
                rank_rows(pr@),
                ra@,
                rb@,
                c,
            ),
        is_bottleneck_rank(rank_rows(pr@), ra@, rb@, res.rank),
{
    let mut used: Vec<bool> = Vec::new();
    for j in 0..rb.len()
        invariant
            used@.len() == j,
            forall|k: int| 0 <= k < j ==> !used@[k],
    {
        used.push(false);
    }
    assert(used@ =~= none_used(rb@.len()));
    let (rank, assignment) = search(pr, ra, rb, 0, &mut used);
    proof {
        let m = rb@.len();
        let u0 = none_used(m);
        lemma_sequential_matching(rank_rows(pr@), ra@, rb@, 0, u0, assignment@);
        assert forall|c: Seq<Option<usize>>|
            c.len() == pr@.len() && #[trigger] is_matching(c, m) implies rank <= matching_rank(
                rank_rows(pr@),
                ra@,
                rb@,
                c,
            ) by {
            lemma_sequential_matching(rank_rows(pr@), ra@, rb@, 0, u0, c);
            assert(valid_from(m, u0, c));
        }
        assert(is_matching(assignment@, m));
    }
    BottleneckMatching { assignment, rank }
}

} // verus!
