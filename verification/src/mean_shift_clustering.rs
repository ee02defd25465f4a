//! The grouping step of mean-shift clustering. Shifting the points toward
//! the mean of their neighbours is arithmetic on single-precision values and
//! happens outside this crate; what is decided here is which shifted points
//! coincide and which point stands for each group.
//!
//! A point is a pair of bit patterns of single-precision coordinates, and
//! two points coincide when both coordinates are equal as values.
use vstd::prelude::*;
use crate::ieee::{spec_eq, spec_lt, value_eq, value_lt, lemma_eq_equivalence, lemma_lt_strict_order};

verus! {

/// Both coordinates are equal as single-precision values.
pub open spec fn same_point(a: (u32, u32), b: (u32, u32)) -> bool {
    spec_eq(a.0, b.0) && spec_eq(a.1, b.1)
}

/// Some point of `r` coincides with `p`.
pub open spec fn has_point(r: Seq<(u32, u32)>, p: (u32, u32)) -> bool {
    exists|k: int| 0 <= k < r.len() && #[trigger] same_point(r[k], p)
}

/// The points of `ps` in order, each left out when a point kept before it
/// coincides with it.
pub open spec fn distinct_points(ps: Seq<(u32, u32)>) -> Seq<(u32, u32)>
    decreases ps.len(),
{
    if ps.len() == 0 {
        Seq::<(u32, u32)>::empty()
    } else {
        let r = distinct_points(ps.drop_last());
        if has_point(r, ps.last()) {
            r
        } else {
            r.push(ps.last())
        }
    }
}

fn same_point_exec(a: (u32, u32), b: (u32, u32)) -> (r: bool)
    ensures
        r == same_point(a, b),
{
    value_eq(a.0, b.0) && value_eq(a.1, b.1)
}

fn contains_point(r: &Vec<(u32, u32)>, p: (u32, u32)) -> (found: bool)
    ensures
        found == has_point(r@, p),
        found == exists|k: int| 0 <= k < r@.len() && spec_eq(#[trigger] r@[k].0, p.0) && spec_eq(r@[k].1, p.1),
{
    let mut k: usize = 0;
    while k < r.len()
        invariant
            k <= r.len(),
            forall|j: int| 0 <= j < k ==> !#[trigger] same_point(r@[j], p),
        decreases r.len() - k,
    {
        if same_point_exec(r[k], p) {
            assert(spec_eq(r@[k as int].0, p.0) && spec_eq(r@[k as int].1, p.1));
            return true;
        }
        k = k + 1;
    }
    assert forall|j: int| 0 <= j < r@.len() implies !(spec_eq(#[trigger] r@[j].0, p.0) && spec_eq(r@[j].1, p.1)) by {
        assert(!same_point(r@[j], p));
    }
    false
}

/// The points with every repetition of an earlier kept point left out.
pub fn remove_duplicates(points: &Vec<(u32, u32)>) -> (result: Vec<(u32, u32)>)
    ensures
        result@ == distinct_points(points@),
        forall|k: int| 0 <= k < result@.len() ==> points@.contains(#[trigger] result@[k]),
        forall|k: int, j: int| 0 <= k < j < result@.len() ==>
            !(spec_eq(#[trigger] result@[k].0, #[trigger] result@[j].0) && spec_eq(result@[k].1, result@[j].1)),
        forall|i: int| 0 <= i < points@.len() ==> result@.contains(#[trigger] points@[i]) || exists|k: int|
            0 <= k < result@.len() && spec_eq(#[trigger] result@[k].0, points@[i].0) && spec_eq(result@[k].1, points@[i].1),
{
    let mut result: Vec<(u32, u32)> = Vec::new();
    let mut i: usize = 0;
    while i < points.len()
        invariant
            i <= points.len(),
            result@ == distinct_points(points@.take(i as int)),
        decreases points.len() - i,
    {
        let p = points[i];
        assert(points@.take(i + 1).drop_last() == points@.take(i as int));
        assert(points@.take(i + 1).last() == p);
        if !contains_point(&result, p) {
            result.push(p);
        }
        i = i + 1;
    }
    assert(points@.take(points.len() as int) == points@);
    proof {
        lemma_remove_duplicates_by_coordinates(points@);
    }
    result
}

/// No two points that `remove_duplicates` keeps coincide.
pub proof fn lemma_distinct_points_pairwise_apart(ps: Seq<(u32, u32)>)
    ensures
        forall|i: int, j: int| 0 <= i < j < distinct_points(ps).len() ==>
            !same_point(#[trigger] distinct_points(ps)[i], #[trigger] distinct_points(ps)[j]),
    decreases ps.len(),
{
    if ps.len() > 0 {
        lemma_distinct_points_pairwise_apart(ps.drop_last());
        let r = distinct_points(ps.drop_last());
        if !has_point(r, ps.last()) {
            assert forall|i: int, j: int| 0 <= i < j < r.len() + 1 implies
                !same_point(#[trigger] r.push(ps.last())[i], #[trigger] r.push(ps.last())[j]) by {
                if j == r.len() {
                    assert(!same_point(r[i], ps.last()));
                    lemma_eq_equivalence(r[i].0, ps.last().0, r[i].0);
                    lemma_eq_equivalence(r[i].1, ps.last().1, r[i].1);
                }
            }
        }
    }
}

/// Nothing is lost: every point either is kept itself or coincides with a
/// kept point.
pub proof fn lemma_distinct_points_cover(ps: Seq<(u32, u32)>)
    ensures
        forall|i: int| 0 <= i < ps.len() ==>
            distinct_points(ps).contains(#[trigger] ps[i]) || has_point(distinct_points(ps), ps[i]),
    decreases ps.len(),
{
    if ps.len() > 0 {
        let init = ps.drop_last();
        lemma_distinct_points_cover(init);
        let r = distinct_points(init);
        assert forall|i: int| 0 <= i < ps.len() implies
            distinct_points(ps).contains(#[trigger] ps[i]) || has_point(distinct_points(ps), ps[i]) by {
            if i < ps.len() - 1 {
                assert(init[i] == ps[i]);
                if r.contains(ps[i]) {
                    let k = choose|k: int| 0 <= k < r.len() && r[k] == ps[i];
                    if !has_point(r, ps.last()) {
                        assert(r.push(ps.last())[k] == ps[i]);
                    }
                } else {
                    let k = choose|k: int| 0 <= k < r.len() && #[trigger] same_point(r[k], ps[i]);
                    if !has_point(r, ps.last()) {
                        assert(same_point(r.push(ps.last())[k], ps[i]));
                    }
                }
            } else if !has_point(r, ps.last()) {
                assert(r.push(ps.last())[r.len() as int] == ps[i]);
            }
        }
    }
}

/// A shifted point: the group it was shifted to and its strength.
pub open spec fn group_of(pts: Seq<((u32, u32), u32)>, i: int) -> (u32, u32) {
    pts[i].0
}

pub open spec fn strength_of(pts: Seq<((u32, u32), u32)>, i: int) -> u32 {
    pts[i].1
}

/// Some representative in `r` stands for the group of point `i`.
pub open spec fn has_group(r: Seq<usize>, pts: Seq<((u32, u32), u32)>, i: int) -> bool {
    exists|k: int| 0 <= k < r.len() && #[trigger] same_point(group_of(pts, r[k] as int), group_of(pts, i))
}

/// Representative `r[k]` is in the group of point `i` and weaker than it.
pub open spec fn outranked(r: Seq<usize>, pts: Seq<((u32, u32), u32)>, i: int, k: int) -> bool {
    same_point(group_of(pts, r[k] as int), group_of(pts, i))
        && spec_lt(strength_of(pts, r[k] as int), strength_of(pts, i))
}

/// The first place in `r` whose representative point `i` outranks, or -1.
pub open spec fn first_outranked(r: Seq<usize>, pts: Seq<((u32, u32), u32)>, i: int) -> int
    decreases r.len(),
{
    if r.len() == 0 {
        -1
    } else {
        let p = first_outranked(r.drop_last(), pts, i);
        if p >= 0 {
            p
        } else if outranked(r, pts, i, r.len() - 1) {
            r.len() - 1
        } else {
            -1
        }
    }
}

/// The representatives chosen from the first `n` points, as indices: a point
/// whose group has none yet becomes its group's representative; a point that
/// is stronger than its group's representative replaces it.
pub open spec fn representatives(pts: Seq<((u32, u32), u32)>, n: nat) -> Seq<usize>
    decreases n,
{
    if n == 0 {
        Seq::<usize>::empty()
    } else {
        let r = representatives(pts, (n - 1) as nat);
        let i = n - 1;
        if !has_group(r, pts, i) {
            r.push(i as usize)
        } else {
            let k = first_outranked(r, pts, i);
            if k >= 0 {
                r.update(k, i as usize)
            } else {
                r
            }
        }
    }
}

proof fn lemma_first_outranked_range(r: Seq<usize>, pts: Seq<((u32, u32), u32)>, i: int)
    ensures
        -1 <= first_outranked(r, pts, i) < r.len(),
        first_outranked(r, pts, i) >= 0 ==> outranked(r, pts, i, first_outranked(r, pts, i)),
        first_outranked(r, pts, i) < 0 ==> forall|k: int| 0 <= k < r.len() ==> !#[trigger] outranked(r, pts, i, k),
        first_outranked(r, pts, i) >= 0 ==> forall|k: int|
            0 <= k < first_outranked(r, pts, i) ==> !#[trigger] outranked(r, pts, i, k),
    decreases r.len(),
{
    if r.len() > 0 {
        let init = r.drop_last();
        lemma_first_outranked_range(init, pts, i);
        assert forall|k: int| 0 <= k < init.len() implies
            (#[trigger] outranked(init, pts, i, k)) == outranked(r, pts, i, k) by {
            assert(init[k] == r[k]);
        }
        let p = first_outranked(init, pts, i);
        if p < 0 {
            assert forall|k: int| 0 <= k < r.len() - 1 implies !#[trigger] outranked(r, pts, i, k) by {
                assert(!outranked(init, pts, i, k));
            }
        } else {
            assert forall|k: int| 0 <= k < p implies !#[trigger] outranked(r, pts, i, k) by {
                assert(!outranked(init, pts, i, k));
            }
            assert(outranked(init, pts, i, p));
        }
    }
}

proof fn lemma_representatives_in_range(pts: Seq<((u32, u32), u32)>, n: nat)
    requires
        n <= pts.len(),
        pts.len() <= usize::MAX,
    ensures
        forall|k: int| 0 <= k < representatives(pts, n).len() ==> #[trigger] representatives(pts, n)[k] < n,
    decreases n,
{
    if n > 0 {
        lemma_representatives_in_range(pts, (n - 1) as nat);
        let r = representatives(pts, (n - 1) as nat);
        lemma_first_outranked_range(r, pts, n - 1);
    }
}

/// For each group of coinciding shifted points, in the order in which the
/// groups first appear, the index of the point that stands for it: the
/// first point of the group, replaced by any later point of the group that
/// is stronger than the one standing for it at the time.
pub fn strongest_per_group(shifted: &Vec<((u32, u32), u32)>) -> (result: Vec<usize>)
    ensures
        result@ == representatives(shifted@, shifted@.len()),
        forall|k: int| 0 <= k < result@.len() ==> #[trigger] result@[k] < shifted@.len(),
        forall|k: int, j: int| 0 <= k < j < result@.len() ==> #[trigger] result@[k] != #[trigger] result@[j],
        forall|k: int, j: int| 0 <= k < result@.len() && 0 <= j < result@.len() && k != j ==> !(
            spec_eq(shifted@[#[trigger] result@[k] as int].0.0, shifted@[#[trigger] result@[j] as int].0.0)
            && spec_eq(shifted@[result@[k] as int].0.1, shifted@[result@[j] as int].0.1)),
        forall|i: int| #![trigger shifted@[i]] 0 <= i < shifted@.len() ==> result@.contains(i as usize) || exists|k: int|
            0 <= k < result@.len() && spec_eq(shifted@[#[trigger] result@[k] as int].0.0, shifted@[i].0.0)
            && spec_eq(shifted@[result@[k] as int].0.1, shifted@[i].0.1),
        (forall|i: int| 0 <= i < shifted@.len() ==> !crate::ieee::is_nan(#[trigger] shifted@[i].1)) ==>
            forall|k: int, i: int| 0 <= k < result@.len() && 0 <= i < shifted@.len()
                && spec_eq(shifted@[#[trigger] result@[k] as int].0.0, #[trigger] shifted@[i].0.0)
                && spec_eq(shifted@[result@[k] as int].0.1, shifted@[i].0.1)
                ==> !spec_lt(shifted@[result@[k] as int].1, shifted@[i].1),
{
    let ghost pts = shifted@;
    let mut result: Vec<usize> = Vec::new();
    let mut i: usize = 0;
    while i < shifted.len()
        invariant
            pts == shifted@,
            i <= pts.len(),
            result@ == representatives(pts, i as nat),
            forall|k: int| 0 <= k < result@.len() ==> #[trigger] result@[k] < i,
        decreases pts.len() - i,
    {
        proof {
            lemma_representatives_in_range(pts, i as nat);
            lemma_first_outranked_range(result@, pts, i as int);
        }
        let (group, strength) = shifted[i];
        let mut found = false;
        let mut k: usize = 0;
        while k < result.len()
            invariant
                pts == shifted@,
                i < pts.len(),
                group == group_of(pts, i as int),
                k <= result.len(),
                forall|j: int| 0 <= j < result@.len() ==> #[trigger] result@[j] < i,
                found <==> exists|j: int| 0 <= j < k && #[trigger] same_point(group_of(pts, result@[j] as int), group_of(pts, i as int)),
            decreases result.len() - k,
        {
            let g = shifted[result[k]].0;
            assert(g == group_of(pts, result@[k as int] as int));
            if same_point_exec(g, group) {
                found = true;
            }
            k = k + 1;
        }
        let ghost r = result@;
        assert(found == has_group(r, pts, i as int));
        assert(pts.take(i + 1).len() == i + 1);
        if !found {
            result.push(i);
        } else {
            let mut k: usize = 0;
            let mut hit: bool = false;
            while k < result.len()
                invariant
                    pts == shifted@,
                    i < pts.len(),
                    group == group_of(pts, i as int),
                    strength == strength_of(pts, i as int),
                    k <= result.len(),
                    forall|j: int| 0 <= j < result@.len() ==> #[trigger] result@[j] < i,
                    !hit ==> forall|j: int| 0 <= j < k ==> !#[trigger] outranked(result@, pts, i as int, j),
                    hit ==> k < result.len() && outranked(result@, pts, i as int, k as int)
                        && forall|j: int| 0 <= j < k ==> !#[trigger] outranked(result@, pts, i as int, j),
                ensures
                    !hit ==> forall|j: int| 0 <= j < result@.len() ==> !#[trigger] outranked(result@, pts, i as int, j),
                    hit ==> k < result.len() && outranked(result@, pts, i as int, k as int)
                        && forall|j: int| 0 <= j < k ==> !#[trigger] outranked(result@, pts, i as int, j),
                decreases result.len() - k + (if hit { 0int } else { 1int }),
            {
                let rep = shifted[result[k]];
                assert(rep == pts[result@[k as int] as int]);
                if same_point_exec(rep.0, group) && value_lt(rep.1, strength) {
                    hit = true;
                    break;
                }
                k = k + 1;
            }
            assert(hit ==> first_outranked(r, pts, i as int) == k);
            assert(!hit ==> first_outranked(r, pts, i as int) < 0);
            if hit {
                result.set(k, i);
            }
        }
        assert(result@ == representatives(pts, (i + 1) as nat));
        i = i + 1;
    }
    proof {
        lemma_representatives_by_coordinates(pts);
    }
    result
}

/// What `strongest_per_group` chooses from the first `n` points:
/// - each chosen index is one of those points, and no index is chosen twice;
/// - no two chosen points are in the same group;
/// - every one of those points is chosen itself or is in the group of a chosen point;
/// - when no strength is a NaN, no point of a group is stronger than the one chosen for it.
pub proof fn lemma_representatives(pts: Seq<((u32, u32), u32)>, n: nat)
    requires
        n <= pts.len(),
        pts.len() <= usize::MAX,
    ensures
        forall|k: int| 0 <= k < representatives(pts, n).len() ==> #[trigger] representatives(pts, n)[k] < n,
        forall|k: int, j: int| 0 <= k < j < representatives(pts, n).len() ==>
            #[trigger] representatives(pts, n)[k] != #[trigger] representatives(pts, n)[j],
        forall|k: int, j: int| 0 <= k < representatives(pts, n).len() && 0 <= j < representatives(pts, n).len() && k != j ==>
            !same_point(
                group_of(pts, #[trigger] representatives(pts, n)[k] as int),
                group_of(pts, #[trigger] representatives(pts, n)[j] as int),
            ),
        forall|i: int| 0 <= i < n ==>
            representatives(pts, n).contains(i as usize) || #[trigger] has_group(representatives(pts, n), pts, i),
        (forall|i: int| 0 <= i < n ==> !crate::ieee::is_nan(#[trigger] strength_of(pts, i))) ==>
            forall|k: int, i: int| 0 <= k < representatives(pts, n).len() && 0 <= i < n
                && same_point(group_of(pts, #[trigger] representatives(pts, n)[k] as int), #[trigger] group_of(pts, i))
                ==> !spec_lt(strength_of(pts, representatives(pts, n)[k] as int), strength_of(pts, i)),
    decreases n,
{
    if n > 0 {
        let m = (n - 1) as nat;
        let i = m as int;
        lemma_representatives(pts, m);
        let r = representatives(pts, m);
        let nr = representatives(pts, n);
        lemma_first_outranked_range(r, pts, i);
        // equality of groups is symmetric and transitive
        assert forall|a: (u32, u32), b: (u32, u32), c: (u32, u32)|
            #[trigger] same_point(a, b) && #[trigger] same_point(b, c) implies same_point(a, c) && same_point(b, a) by {
            lemma_eq_equivalence(a.0, b.0, c.0);
            lemma_eq_equivalence(a.1, b.1, c.1);
        }
        assert forall|a: (u32, u32), b: (u32, u32)| #[trigger] same_point(a, b) implies same_point(b, a) by {
            lemma_eq_equivalence(a.0, b.0, a.0);
            lemma_eq_equivalence(a.1, b.1, a.1);
        }
        if !has_group(r, pts, i) {
            assert(nr == r.push(i as usize));
            assert forall|k: int| 0 <= k < r.len() implies !#[trigger] same_point(group_of(pts, r[k] as int), group_of(pts, i)) by {}
            assert forall|j: int| 0 <= j < n implies
                nr.contains(j as usize) || #[trigger] has_group(nr, pts, j) by {
                if j == i {
                    assert(nr[r.len() as int] == i as usize);
                } else if r.contains(j as usize) {
                    let k = choose|k: int| 0 <= k < r.len() && r[k] == j as usize;
                    assert(nr[k] == j as usize);
                } else {
                    assert(has_group(r, pts, j));
                    let k = choose|k: int| 0 <= k < r.len() && #[trigger] same_point(group_of(pts, r[k] as int), group_of(pts, j));
                    assert(nr[k] == r[k]);
                    assert(same_point(group_of(pts, nr[k] as int), group_of(pts, j)));
                }
            }
            if forall|j: int| 0 <= j < n ==> !crate::ieee::is_nan(#[trigger] strength_of(pts, j)) {
                assert forall|k: int, j: int| 0 <= k < nr.len() && 0 <= j < n
                    && same_point(group_of(pts, #[trigger] nr[k] as int), #[trigger] group_of(pts, j))
                    implies !spec_lt(strength_of(pts, nr[k] as int), strength_of(pts, j)) by {
                    lemma_lt_strict_order(strength_of(pts, j), strength_of(pts, j), strength_of(pts, j));
                    if k < r.len() {
                        assert(nr[k] == r[k]);
                        if j == i {
                            assert(false);
                        }
                    } else {
                        assert(nr[k] == i as usize);
                        if j != i {
                            if r.contains(j as usize) {
                                let k2 = choose|k2: int| 0 <= k2 < r.len() && r[k2] == j as usize;
                                assert(same_point(group_of(pts, r[k2] as int), group_of(pts, i)));
                            } else {
                                assert(has_group(r, pts, j));
                                let k2 = choose|k2: int| 0 <= k2 < r.len() && #[trigger] same_point(group_of(pts, r[k2] as int), group_of(pts, j));
                                assert(same_point(group_of(pts, r[k2] as int), group_of(pts, i)));
                            }
                        }
                    }
                }
            }
        } else {
            let k0 = first_outranked(r, pts, i);
            if k0 >= 0 {
                assert(nr == r.update(k0, i as usize));
                assert(outranked(r, pts, i, k0));
                assert forall|k: int| 0 <= k < r.len() && k != k0 implies
                    !#[trigger] same_point(group_of(pts, r[k] as int), group_of(pts, i)) by {
                    if same_point(group_of(pts, r[k] as int), group_of(pts, i)) {
                        assert(same_point(group_of(pts, r[k0] as int), group_of(pts, i)));
                        assert(same_point(group_of(pts, i), group_of(pts, r[k0] as int)));
                        assert(same_point(group_of(pts, r[k] as int), group_of(pts, r[k0] as int)));
                    }
                }
                assert forall|k: int| 0 <= k < r.len() && k != k0 implies #[trigger] r[k] != i as usize by {}
                assert forall|j: int| 0 <= j < n implies
                    nr.contains(j as usize) || #[trigger] has_group(nr, pts, j) by {
                    if j == i {
                        assert(nr[k0] == i as usize);
                    } else if r.contains(j as usize) {
                        let k = choose|k: int| 0 <= k < r.len() && r[k] == j as usize;
                        if k == k0 {
                            assert(same_point(group_of(pts, r[k0] as int), group_of(pts, i)));
                            assert(same_point(group_of(pts, nr[k0] as int), group_of(pts, j)));
                        } else {
                            assert(nr[k] == j as usize);
                        }
                    } else {
                        assert(has_group(r, pts, j));
                        let k = choose|k: int| 0 <= k < r.len() && #[trigger] same_point(group_of(pts, r[k] as int), group_of(pts, j));
                        if k == k0 {
                            assert(same_point(group_of(pts, i), group_of(pts, r[k0] as int)));
                            assert(same_point(group_of(pts, nr[k0] as int), group_of(pts, j)));
                        } else {
                            assert(nr[k] == r[k]);
                            assert(same_point(group_of(pts, nr[k] as int), group_of(pts, j)));
                        }
                    }
                }
                if forall|j: int| 0 <= j < n ==> !crate::ieee::is_nan(#[trigger] strength_of(pts, j)) {
                    assert forall|k: int, j: int| 0 <= k < nr.len() && 0 <= j < n
                        && same_point(group_of(pts, #[trigger] nr[k] as int), #[trigger] group_of(pts, j))
                        implies !spec_lt(strength_of(pts, nr[k] as int), strength_of(pts, j)) by {
                        let si = strength_of(pts, i);
                        let sj = strength_of(pts, j);
                        let sk = strength_of(pts, r[k0] as int);
                        lemma_lt_strict_order(sj, sj, sj);
                        if k == k0 {
                            if j != i {
                                assert(same_point(group_of(pts, r[k0] as int), group_of(pts, i)));
                                assert(same_point(group_of(pts, r[k0] as int), group_of(pts, j)));
                                assert(!spec_lt(sk, sj));
                                crate::ieee::lemma_trichotomy(sk, sj);
                                lemma_lt_strict_order(sj, sk, si);
                                crate::ieee::lemma_eq_lt(sj, sk, si);
                                lemma_lt_strict_order(si, sj, si);
                            }
                        } else {
                            assert(nr[k] == r[k]);
                            if j == i {
                                assert(false);
                            }
                        }
                    }
                }
            } else {
                assert(nr == r);
                if forall|j: int| 0 <= j < n ==> !crate::ieee::is_nan(#[trigger] strength_of(pts, j)) {
                    assert forall|k: int, j: int| 0 <= k < nr.len() && 0 <= j < n
                        && same_point(group_of(pts, #[trigger] nr[k] as int), #[trigger] group_of(pts, j))
                        implies !spec_lt(strength_of(pts, nr[k] as int), strength_of(pts, j)) by {
                        if j == i {
                            assert(!outranked(r, pts, i, k));
                        }
                    }
                }
            }
        }
    }
}

/// What `remove_duplicates` keeps from `ps`, stated coordinate by coordinate:
/// only points of `ps`; no two kept points equal in both coordinates; and
/// every point of `ps` is kept itself or equals a kept point in both coordinates.
pub proof fn lemma_remove_duplicates_by_coordinates(ps: Seq<(u32, u32)>)
    ensures
        forall|k: int| 0 <= k < distinct_points(ps).len() ==> ps.contains(#[trigger] distinct_points(ps)[k]),
        forall|k: int, j: int| 0 <= k < j < distinct_points(ps).len() ==>
            !(spec_eq(#[trigger] distinct_points(ps)[k].0, #[trigger] distinct_points(ps)[j].0)
                && spec_eq(distinct_points(ps)[k].1, distinct_points(ps)[j].1)),
        forall|i: int| 0 <= i < ps.len() ==> distinct_points(ps).contains(#[trigger] ps[i]) || exists|k: int|
            0 <= k < distinct_points(ps).len() && spec_eq(#[trigger] distinct_points(ps)[k].0, ps[i].0)
                && spec_eq(distinct_points(ps)[k].1, ps[i].1),
    decreases ps.len(),
{
    let d = distinct_points(ps);
    lemma_distinct_points_pairwise_apart(ps);
    lemma_distinct_points_cover(ps);
    assert forall|k: int, j: int| 0 <= k < j < d.len() implies
        !(spec_eq(#[trigger] d[k].0, #[trigger] d[j].0) && spec_eq(d[k].1, d[j].1)) by {
        assert(!same_point(d[k], d[j]));
    }
    assert forall|i: int| 0 <= i < ps.len() implies d.contains(#[trigger] ps[i]) || exists|k: int|
        0 <= k < d.len() && spec_eq(#[trigger] d[k].0, ps[i].0) && spec_eq(d[k].1, ps[i].1) by {
        if !d.contains(ps[i]) {
            assert(has_point(d, ps[i]));
            let k = choose|k: int| 0 <= k < d.len() && #[trigger] same_point(d[k], ps[i]);
            assert(spec_eq(d[k].0, ps[i].0) && spec_eq(d[k].1, ps[i].1));
        }
    }
    if ps.len() > 0 {
        let init = ps.drop_last();
        lemma_remove_duplicates_by_coordinates(init);
        let r = distinct_points(init);
        assert forall|k: int| 0 <= k < d.len() implies ps.contains(#[trigger] d[k]) by {
            if k < r.len() {
                assert(d[k] == r[k]);
                assert(init.contains(r[k]));
                let j = choose|j: int| 0 <= j < init.len() && init[j] == r[k];
                assert(ps[j] == r[k]);
            } else {
                assert(d[k] == ps.last());
                assert(ps[ps.len() - 1] == ps.last());
            }
        }
    }
}

/// What `strongest_per_group` chooses from `pts`, stated coordinate by
/// coordinate: indices of points, each once; no two chosen points have
/// groups equal in both coordinates; every point is chosen itself or has a
/// chosen point whose group equals its group in both coordinates; and when
/// no strength is a NaN, no point is stronger than the chosen point of its group.
pub proof fn lemma_representatives_by_coordinates(pts: Seq<((u32, u32), u32)>)
    requires
        pts.len() <= usize::MAX,
    ensures
        forall|k: int| 0 <= k < representatives(pts, pts.len()).len() ==>
            #[trigger] representatives(pts, pts.len())[k] < pts.len(),
        forall|k: int, j: int| 0 <= k < j < representatives(pts, pts.len()).len() ==>
            #[trigger] representatives(pts, pts.len())[k] != #[trigger] representatives(pts, pts.len())[j],
        forall|k: int, j: int|
            0 <= k < representatives(pts, pts.len()).len() && 0 <= j < representatives(pts, pts.len()).len() && k != j ==> !(
                spec_eq(pts[#[trigger] representatives(pts, pts.len())[k] as int].0.0,
                    pts[#[trigger] representatives(pts, pts.len())[j] as int].0.0)
                && spec_eq(pts[representatives(pts, pts.len())[k] as int].0.1,
                    pts[representatives(pts, pts.len())[j] as int].0.1)),
        forall|i: int| #![trigger pts[i]] 0 <= i < pts.len() ==> representatives(pts, pts.len()).contains(i as usize) || exists|k: int|
            0 <= k < representatives(pts, pts.len()).len()
            && spec_eq(pts[#[trigger] representatives(pts, pts.len())[k] as int].0.0, pts[i].0.0)
            && spec_eq(pts[representatives(pts, pts.len())[k] as int].0.1, pts[i].0.1),
        (forall|i: int| 0 <= i < pts.len() ==> !crate::ieee::is_nan(#[trigger] pts[i].1)) ==>
            forall|k: int, i: int| 0 <= k < representatives(pts, pts.len()).len() && 0 <= i < pts.len()
                && spec_eq(pts[#[trigger] representatives(pts, pts.len())[k] as int].0.0, #[trigger] pts[i].0.0)
                && spec_eq(pts[representatives(pts, pts.len())[k] as int].0.1, pts[i].0.1)
                ==> !spec_lt(pts[representatives(pts, pts.len())[k] as int].1, pts[i].1),
{
    let n = pts.len();
    let r = representatives(pts, n);
    lemma_representatives(pts, n);
    assert forall|k: int, j: int| 0 <= k < r.len() && 0 <= j < r.len() && k != j implies !(
        spec_eq(pts[#[trigger] r[k] as int].0.0, pts[#[trigger] r[j] as int].0.0)
        && spec_eq(pts[r[k] as int].0.1, pts[r[j] as int].0.1)) by {
        assert(!same_point(group_of(pts, r[k] as int), group_of(pts, r[j] as int)));
    }
    assert forall|i: int| #![trigger pts[i]] 0 <= i < n implies r.contains(i as usize) || exists|k: int|
        0 <= k < r.len() && spec_eq(pts[#[trigger] r[k] as int].0.0, pts[i].0.0)
        && spec_eq(pts[r[k] as int].0.1, pts[i].0.1) by {
        if !r.contains(i as usize) {
            assert(has_group(r, pts, i));
            let k = choose|k: int| 0 <= k < r.len() && #[trigger] same_point(group_of(pts, r[k] as int), group_of(pts, i));
            assert(spec_eq(pts[r[k] as int].0.0, pts[i].0.0) && spec_eq(pts[r[k] as int].0.1, pts[i].0.1));
        }
    }
    assert((forall|i: int| 0 <= i < pts.len() ==> !crate::ieee::is_nan(#[trigger] pts[i].1)) ==>
            forall|k: int, i: int| 0 <= k < representatives(pts, pts.len()).len() && 0 <= i < pts.len()
                && spec_eq(pts[#[trigger] representatives(pts, pts.len())[k] as int].0.0, #[trigger] pts[i].0.0)
                && spec_eq(pts[representatives(pts, pts.len())[k] as int].0.1, pts[i].0.1)
                ==> !spec_lt(pts[representatives(pts, pts.len())[k] as int].1, pts[i].1)) by {
        if forall|i: int| 0 <= i < n ==> !crate::ieee::is_nan(#[trigger] pts[i].1) {
            assert forall|i: int| 0 <= i < n implies !crate::ieee::is_nan(#[trigger] strength_of(pts, i)) by {
                assert(!crate::ieee::is_nan(pts[i].1));
            }
            assert forall|k: int, i: int| 0 <= k < r.len() && 0 <= i < n
                && spec_eq(pts[#[trigger] r[k] as int].0.0, #[trigger] pts[i].0.0)
                && spec_eq(pts[r[k] as int].0.1, pts[i].0.1)
                implies !spec_lt(pts[r[k] as int].1, pts[i].1) by {
                assert(same_point(group_of(pts, r[k] as int), group_of(pts, i)));
            }
        }
    }
}

} // verus!
