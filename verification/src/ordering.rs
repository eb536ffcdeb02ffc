//! Cells in the order of their distance from a center: what that order is,
//! that there is one only, and a merge sort that finds it.

use crate::geometry::{lemma_square_bounds, Point, Vec3, DIST2_LIMIT};
use vstd::prelude::*;

verus! {

/// The squared distance of a cell from `center`.
pub open spec fn distance(c: Vec3, center: Point) -> int {
    c@.dist2(center)
}

/// The squared distance from `p` to `center` can be computed in 64 bits, and
/// so can its multiples up to the number of shells.
pub open spec fn measurable(p: Point, center: Point) -> bool {
    &&& p.minus(center).fits()
    &&& 0 <= p.dist2(center) <= DIST2_LIMIT
}

/// No cell of `s` is nearer to `center` than a cell before it.
pub open spec fn ascending(s: Seq<Vec3>, center: Point) -> bool {
    forall|i: int, j: int|
        0 <= i <= j < s.len() ==> distance(#[trigger] s[i], center) <= distance(
            #[trigger] s[j],
            center,
        )
}

/// The cells of `s` at squared distance `d` from `center`, in their order.
pub open spec fn at_distance(s: Seq<Vec3>, center: Point, d: int) -> Seq<Vec3> {
    s.filter(|c: Vec3| distance(c, center) == d)
}

/// `out` holds the cells of `inp` by ascending distance from `center`, cells
/// at the same distance in the order they have in `inp`.
pub open spec fn orders_by_distance(out: Seq<Vec3>, inp: Seq<Vec3>, center: Point) -> bool {
    &&& ascending(out, center)
    &&& forall|d: int| #[trigger] at_distance(out, center, d) == at_distance(inp, center, d)
}

/// Filtering keeps every occurrence of a value that passes the filter.
proof fn lemma_filter_keeps_count(s: Seq<Vec3>, pred: spec_fn(Vec3) -> bool, v: Vec3)
    requires
        pred(v),
    ensures
        s.filter(pred).to_multiset().count(v) == s.to_multiset().count(v),
    decreases s.len(),
{
    broadcast use vstd::seq_lib::to_multiset_build;

    if s.len() == 0 {
        reveal(Seq::filter);
        assert(s.filter(pred) =~= s);
    } else {
        let rest = s.drop_last();
        let x = s.last();
        assert(s =~= rest.push(x));
        lemma_filter_keeps_count(rest, pred, v);
        rest.lemma_filter_push(x, pred);
        assert(rest.push(x).to_multiset() =~= rest.to_multiset().insert(x));
        if pred(x) {
            assert(rest.filter(pred).push(x).to_multiset() =~= rest.filter(pred).to_multiset().insert(
                x,
            ));
        }
    }
}

/// Sequences that hold the same cells at every distance hold the same cells,
/// each as often in one as in the other.
pub proof fn lemma_same_cells(out: Seq<Vec3>, inp: Seq<Vec3>, center: Point)
    requires
        forall|d: int| #[trigger] at_distance(out, center, d) == at_distance(inp, center, d),
    ensures
        out.to_multiset() == inp.to_multiset(),
        out.len() == inp.len(),
        forall|i: int| 0 <= i < out.len() ==> inp.contains(#[trigger] out[i]),
        forall|i: int| 0 <= i < inp.len() ==> out.contains(#[trigger] inp[i]),
{
    broadcast use {vstd::seq_lib::to_multiset_len, vstd::seq_lib::to_multiset_contains};

    assert forall|v: Vec3| out.to_multiset().count(v) == inp.to_multiset().count(v) by {
        let d = distance(v, center);
        let pred = |c: Vec3| distance(c, center) == d;
        assert(at_distance(out, center, d) == at_distance(inp, center, d));
        lemma_filter_keeps_count(out, pred, v);
        lemma_filter_keeps_count(inp, pred, v);
    }
    assert(out.to_multiset() =~= inp.to_multiset());
    assert(out.to_multiset().len() == out.len());
    assert(inp.to_multiset().len() == inp.len());
    assert forall|i: int| 0 <= i < out.len() implies inp.contains(#[trigger] out[i]) by {
        assert(out.contains(out[i]));
        assert(out.to_multiset().count(out[i]) > 0);
    }
    assert forall|i: int| 0 <= i < inp.len() implies out.contains(#[trigger] inp[i]) by {
        assert(inp.contains(inp[i]));
        assert(inp.to_multiset().count(inp[i]) > 0);
    }
}

/// A squared distance is never negative.
pub proof fn lemma_distance_nonnegative(c: Vec3, center: Point)
    ensures
        0 <= distance(c, center),
{
    let v = c@.minus(center);
    lemma_square_bounds(v.x);
    lemma_square_bounds(v.y);
    lemma_square_bounds(v.z);
}

/// Two ascending arrangements that hold the same cells at every distance, in
/// the same order, are the same arrangement.
pub proof fn lemma_ordering_unique(a: Seq<Vec3>, b: Seq<Vec3>, center: Point)
    requires
        ascending(a, center),
        ascending(b, center),
        forall|d: int| #[trigger] at_distance(a, center, d) == at_distance(b, center, d),
    ensures
        a == b,
    decreases a.len(),
{
    lemma_same_cells(a, b, center);
    if a.len() == 0 {
        assert(a =~= b);
    } else {
        let x = a.last();
        let y = b.last();
        let pa = a.drop_last();
        let pb = b.drop_last();
        assert(a =~= pa.push(x));
        assert(b =~= pb.push(y));
        let far = distance(x, center);
        assert(distance(y, center) == far) by {
            assert(a.contains(b[b.len() - 1]));
            let i = choose|i: int| 0 <= i < a.len() && a[i] == y;
            assert(distance(a[i], center) <= distance(a[a.len() - 1], center));
            assert(b.contains(a[a.len() - 1]));
            let j = choose|j: int| 0 <= j < b.len() && b[j] == x;
            assert(distance(b[j], center) <= distance(b[b.len() - 1], center));
        }
        assert forall|d: int| #[trigger]
            at_distance(pa, center, d) == at_distance(pb, center, d) by {
            let pred = |c: Vec3| distance(c, center) == d;
            pa.lemma_filter_push(x, pred);
            pb.lemma_filter_push(y, pred);
            assert(at_distance(a, center, d) == at_distance(b, center, d));
            if d == far {
                let fa = at_distance(pa, center, d);
                let fb = at_distance(pb, center, d);
                assert(fa.push(x) == fb.push(y));
                assert(fa =~= fa.push(x).drop_last());
                assert(fb =~= fb.push(y).drop_last());
            }
        }
        assert(x == y) by {
            let pred = |c: Vec3| distance(c, center) == far;
            pa.lemma_filter_push(x, pred);
            pb.lemma_filter_push(y, pred);
            assert(at_distance(a, center, far) == at_distance(b, center, far));
            assert(at_distance(pa, center, far).push(x).last() == x);
            assert(at_distance(pb, center, far).push(y).last() == y);
        }
        assert(ascending(pa, center)) by {
            assert forall|i: int, j: int| 0 <= i <= j < pa.len() implies distance(
                #[trigger] pa[i],
                center,
            ) <= distance(#[trigger] pa[j], center) by {
                assert(pa[i] == a[i] && pa[j] == a[j]);
            }
        }
        assert(ascending(pb, center)) by {
            assert forall|i: int, j: int| 0 <= i <= j < pb.len() implies distance(
                #[trigger] pb[i],
                center,
            ) <= distance(#[trigger] pb[j], center) by {
                assert(pb[i] == b[i] && pb[j] == b[j]);
            }
        }
        lemma_ordering_unique(pa, pb, center);
    }
}

/// A filter that every element passes keeps the whole sequence.
pub proof fn lemma_filter_all(s: Seq<Vec3>, pred: spec_fn(Vec3) -> bool)
    requires
        forall|i: int| 0 <= i < s.len() ==> pred(#[trigger] s[i]),
    ensures
        s.filter(pred) == s,
    decreases s.len(),
{
    reveal(Seq::filter);
    if s.len() > 0 {
        let rest = s.drop_last();
        assert forall|i: int| 0 <= i < rest.len() implies pred(#[trigger] rest[i]) by {
            assert(rest[i] == s[i]);
        }
        lemma_filter_all(rest, pred);
        assert(s =~= rest.push(s.last()));
    }
}

/// A filter that no element passes keeps nothing.
pub proof fn lemma_filter_none(s: Seq<Vec3>, pred: spec_fn(Vec3) -> bool)
    requires
        forall|i: int| 0 <= i < s.len() ==> !pred(#[trigger] s[i]),
    ensures
        s.filter(pred) == Seq::<Vec3>::empty(),
    decreases s.len(),
{
    reveal(Seq::filter);
    if s.len() > 0 {
        let rest = s.drop_last();
        assert forall|i: int| 0 <= i < rest.len() implies !pred(#[trigger] rest[i]) by {
            assert(rest[i] == s[i]);
        }
        lemma_filter_none(rest, pred);
    }
}

/// What were two runs side by side is one run after the other.
proof fn lemma_subrange_split(s: Seq<Vec3>, from: int, middle: int, to: int)
    requires
        0 <= from <= middle <= to <= s.len(),
    ensures
        s.subrange(from, to) == s.subrange(from, middle) + s.subrange(middle, to),
{
    assert(s.subrange(from, to) =~= s.subrange(from, middle) + s.subrange(middle, to));
}

/// The cells of two ascending runs in one ascending run; of cells at the
/// same distance those of `left` come first.
fn merged(left: &Vec<Vec3>, right: &Vec<Vec3>, center: Vec3) -> (out: Vec<Vec3>)
    requires
        ascending(left@, center@),
        ascending(right@, center@),
        forall|k: int| 0 <= k < left@.len() ==> measurable(#[trigger] left@[k]@, center@),
        forall|k: int| 0 <= k < right@.len() ==> measurable(#[trigger] right@[k]@, center@),
    ensures
        ascending(out@, center@),
        forall|d: int| #[trigger]
            at_distance(out@, center@, d) == at_distance(left@, center@, d) + at_distance(
                right@,
                center@,
                d,
            ),
{
    let mut out: Vec<Vec3> = Vec::new();
    let mut i: usize = 0;
    let mut j: usize = 0;
    proof {
        assert forall|d: int| #[trigger]
            at_distance(out@, center@, d) == at_distance(left@.take(0), center@, d) + at_distance(
                right@.take(0),
                center@,
                d,
            ) by {
            let pred = |c: Vec3| distance(c, center@) == d;
            lemma_filter_none(out@, pred);
            lemma_filter_none(left@.take(0), pred);
            lemma_filter_none(right@.take(0), pred);
        }
    }
    while i < left.len() || j < right.len()
        invariant
            i <= left@.len(),
            j <= right@.len(),
            ascending(left@, center@),
            ascending(right@, center@),
            forall|k: int| 0 <= k < left@.len() ==> measurable(#[trigger] left@[k]@, center@),
            forall|k: int| 0 <= k < right@.len() ==> measurable(#[trigger] right@[k]@, center@),
            ascending(out@, center@),
            forall|d: int| #[trigger]
                at_distance(out@, center@, d) == at_distance(left@.take(i as int), center@, d)
                    + at_distance(right@.take(j as int), center@, d),
            i < left@.len() ==> forall|k: int|
                0 <= k < out@.len() ==> distance(#[trigger] out@[k], center@) <= distance(
                    left@[i as int],
                    center@,
                ),
            j < right@.len() ==> forall|k: int|
                0 <= k < out@.len() ==> distance(#[trigger] out@[k], center@) <= distance(
                    right@[j as int],
                    center@,
                ),
            i < left@.len() ==> forall|k: int|
                0 <= k < j ==> distance(#[trigger] right@[k], center@) < distance(
                    left@[i as int],
                    center@,
                ),
        decreases left@.len() - i + right@.len() - j,
    {
        let ghost before = out@;
        let from_left = if i == left.len() {
            false
        } else if j == right.len() {
            true
        } else {
            left[i].dist2(center) <= right[j].dist2(center)
        };
        if from_left {
            let x = left[i];
            out.push(x);
            proof {
                let taken = right@.take(j as int);
                assert(left@.take(i + 1) =~= left@.take(i as int).push(x));
                assert forall|d: int| #[trigger]
                    at_distance(out@, center@, d) == at_distance(left@.take(i + 1), center@, d)
                        + at_distance(taken, center@, d) by {
                    let pred = |c: Vec3| distance(c, center@) == d;
                    before.lemma_filter_push(x, pred);
                    left@.take(i as int).lemma_filter_push(x, pred);
                    assert(at_distance(before, center@, d) == at_distance(
                        left@.take(i as int),
                        center@,
                        d,
                    ) + at_distance(taken, center@, d));
                    if pred(x) {
                        assert forall|k: int| 0 <= k < taken.len() implies !pred(
                            #[trigger] taken[k],
                        ) by {
                            assert(taken[k] == right@[k]);
                        }
                        lemma_filter_none(taken, pred);
                        assert((at_distance(left@.take(i as int), center@, d) + Seq::<
                            Vec3,
                        >::empty()).push(x) =~= at_distance(left@.take(i as int), center@, d).push(
                            x,
                        ) + Seq::<Vec3>::empty());
                    }
                }
                assert(ascending(out@, center@)) by {
                    assert forall|a: int, b: int| 0 <= a <= b < out@.len() implies distance(
                        #[trigger] out@[a],
                        center@,
                    ) <= distance(#[trigger] out@[b], center@) by {
                        if b < before.len() {
                            assert(out@[a] == before[a] && out@[b] == before[b]);
                        } else if a < before.len() {
                            assert(out@[a] == before[a]);
                        }
                    }
                }
                if i + 1 < left@.len() {
                    assert(distance(left@[i as int], center@) <= distance(
                        left@[i + 1],
                        center@,
                    ));
                    assert forall|k: int| 0 <= k < out@.len() implies distance(
                        #[trigger] out@[k],
                        center@,
                    ) <= distance(left@[i + 1], center@) by {
                        if k < before.len() {
                            assert(out@[k] == before[k]);
                        }
                    }
                }
                if j < right@.len() {
                    assert forall|k: int| 0 <= k < out@.len() implies distance(
                        #[trigger] out@[k],
                        center@,
                    ) <= distance(right@[j as int], center@) by {
                        if k < before.len() {
                            assert(out@[k] == before[k]);
                        }
                    }
                }
            }
            i = i + 1;
        } else {
            let y = right[j];
            out.push(y);
            proof {
                let taken = left@.take(i as int);
                assert(right@.take(j + 1) =~= right@.take(j as int).push(y));
                assert forall|d: int| #[trigger]
                    at_distance(out@, center@, d) == at_distance(taken, center@, d) + at_distance(
                        right@.take(j + 1),
                        center@,
                        d,
                    ) by {
                    let pred = |c: Vec3| distance(c, center@) == d;
                    before.lemma_filter_push(y, pred);
                    right@.take(j as int).lemma_filter_push(y, pred);
                    assert(at_distance(before, center@, d) == at_distance(taken, center@, d)
                        + at_distance(right@.take(j as int), center@, d));
                    if pred(y) {
                        assert((at_distance(taken, center@, d) + at_distance(
                            right@.take(j as int),
                            center@,
                            d,
                        )).push(y) =~= at_distance(taken, center@, d) + at_distance(
                            right@.take(j as int),
                            center@,
                            d,
                        ).push(y));
                    }
                }
                assert(ascending(out@, center@)) by {
                    assert forall|a: int, b: int| 0 <= a <= b < out@.len() implies distance(
                        #[trigger] out@[a],
                        center@,
                    ) <= distance(#[trigger] out@[b], center@) by {
                        if b < before.len() {
                            assert(out@[a] == before[a] && out@[b] == before[b]);
                        } else if a < before.len() {
                            assert(out@[a] == before[a]);
                        }
                    }
                }
                if i < left@.len() {
                    assert forall|k: int| 0 <= k < out@.len() implies distance(
                        #[trigger] out@[k],
                        center@,
                    ) <= distance(left@[i as int], center@) by {
                        if k < before.len() {
                            assert(out@[k] == before[k]);
                        }
                    }
                }
                if j + 1 < right@.len() {
                    assert(distance(right@[j as int], center@) <= distance(
                        right@[j + 1],
                        center@,
                    ));
                    assert forall|k: int| 0 <= k < out@.len() implies distance(
                        #[trigger] out@[k],
                        center@,
                    ) <= distance(right@[j + 1], center@) by {
                        if k < before.len() {
                            assert(out@[k] == before[k]);
                        }
                    }
                }
            }
            j = j + 1;
        }
    }
    proof {
        assert(left@.take(left@.len() as int) =~= left@);
        assert(right@.take(right@.len() as int) =~= right@);
    }
    out
}

/// The cells of `cells` from index `from` up to index `to`, by ascending
/// distance from `center`, cells at the same distance in their order.
fn sorted_run(cells: &Vec<Vec3>, from: usize, to: usize, center: Vec3) -> (out: Vec<Vec3>)
    requires
        from <= to <= cells@.len(),
        forall|k: int| 0 <= k < cells@.len() ==> measurable(#[trigger] cells@[k]@, center@),
    ensures
        orders_by_distance(out@, cells@.subrange(from as int, to as int), center@),
    decreases to - from,
{
    let ghost run = cells@.subrange(from as int, to as int);
    if to - from <= 1 {
        let mut out: Vec<Vec3> = Vec::new();
        if to - from == 1 {
            out.push(cells[from]);
        }
        assert(out@ =~= run);
        return out;
    }
    let middle: usize = from + (to - from) / 2;
    let left = sorted_run(cells, from, middle, center);
    let right = sorted_run(cells, middle, to, center);
    let ghost first = cells@.subrange(from as int, middle as int);
    let ghost second = cells@.subrange(middle as int, to as int);
    proof {
        lemma_same_cells(left@, first, center@);
        lemma_same_cells(right@, second, center@);
        assert forall|k: int| 0 <= k < left@.len() implies measurable(
            #[trigger] left@[k]@,
            center@,
        ) by {
            assert(first.contains(left@[k]));
            let m = choose|m: int| 0 <= m < first.len() && first[m] == left@[k];
            assert(first[m] == cells@[from + m]);
        }
        assert forall|k: int| 0 <= k < right@.len() implies measurable(
            #[trigger] right@[k]@,
            center@,
        ) by {
            assert(second.contains(right@[k]));
            let m = choose|m: int| 0 <= m < second.len() && second[m] == right@[k];
            assert(second[m] == cells@[middle + m]);
        }
    }
    let out = merged(&left, &right, center);
    proof {
        lemma_subrange_split(cells@, from as int, middle as int, to as int);
        assert forall|d: int| #[trigger]
            at_distance(out@, center@, d) == at_distance(run, center@, d) by {
            let pred = |c: Vec3| distance(c, center@) == d;
            Seq::filter_distributes_over_add(first, second, pred);
            assert(at_distance(left@, center@, d) == at_distance(first, center@, d));
            assert(at_distance(right@, center@, d) == at_distance(second, center@, d));
        }
    }
    out
}

/// The cells by ascending distance from `center`, cells at the same distance
/// in the order in which they were given.
pub fn sorted_by_distance(cells: &Vec<Vec3>, center: Vec3) -> (out: Vec<Vec3>)
    requires
        forall|k: int| 0 <= k < cells@.len() ==> measurable(#[trigger] cells@[k]@, center@),
    ensures
        orders_by_distance(out@, cells@, center@),
{
    assert(cells@.subrange(0, cells@.len() as int) =~= cells@);
    sorted_run(cells, 0, cells.len(), center)
}

} // verus!
