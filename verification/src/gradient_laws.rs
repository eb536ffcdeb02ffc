//! What holds of every color gradient: it is unique, it partitions the
//! cells, and its colors brighten within a band.

use crate::geometry::{Point, Vec3};
use crate::gradient::{
    all_cells, band_of, brightness_of, bucket_color, in_shell, is_gradient, is_shell,
    lemma_shell_unique, max_distance, Color, Shell, GRADIENTS, SHELLS,
};
use crate::ordering::{
    at_distance, distance, lemma_distance_nonnegative, lemma_filter_all, lemma_filter_none,
    lemma_ordering_unique, lemma_same_cells,
};
use vstd::prelude::*;

verus! {

/// The cells of `cells` that belong to shell `i`, in their order.
pub open spec fn cells_of_shell(cells: Seq<Vec3>, center: Point, max_d: int, i: int) -> Seq<Vec3> {
    cells.filter(|c: Vec3| in_shell(distance(c, center), max_d, i))
}

/// Of the first `k` shells taken together, the cells that belong to shell `i`
/// are the cells of shell `i`, if it is among them, and none otherwise.
proof fn lemma_prefix_shell_cells(shells: Seq<Shell>, center: Point, max_d: int, k: int, i: int)
    requires
        0 <= max_d,
        0 <= k <= shells.len(),
        forall|j: int| 0 <= j < shells.len() ==> is_shell(#[trigger] shells[j], j, max_d, center),
    ensures
        cells_of_shell(all_cells(shells.take(k)), center, max_d, i) == if 0 <= i < k {
            shells[i].cells
        } else {
            Seq::<Vec3>::empty()
        },
    decreases k,
{
    let pred = |c: Vec3| in_shell(distance(c, center), max_d, i);
    if k == 0 {
        assert(all_cells(shells.take(0)) =~= Seq::<Vec3>::empty());
        lemma_filter_none(Seq::<Vec3>::empty(), pred);
    } else {
        lemma_prefix_shell_cells(shells, center, max_d, k - 1, i);
        let head = all_cells(shells.take(k - 1));
        let tail = shells[k - 1].cells;
        assert(shells.take(k).drop_last() =~= shells.take(k - 1));
        assert(shells.take(k).last() == shells[k - 1]);
        assert(all_cells(shells.take(k)) == head + tail);
        Seq::filter_distributes_over_add(head, tail, pred);
        assert(is_shell(shells[k - 1], k - 1, max_d, center));
        if i == k - 1 {
            lemma_filter_all(tail, pred);
            assert(head.filter(pred) + tail =~= tail);
        } else {
            assert forall|j: int| 0 <= j < tail.len() implies !pred(#[trigger] tail[j]) by {
                if pred(tail[j]) {
                    lemma_shell_unique(distance(tail[j], center), max_d, i, k - 1);
                }
            }
            lemma_filter_none(tail, pred);
            assert(head.filter(pred) + Seq::<Vec3>::empty() =~= head.filter(pred));
        }
    }
}

/// The largest distance of any cell is not negative.
pub proof fn lemma_max_distance_nonnegative(cells: Seq<Vec3>, center: Point)
    ensures
        0 <= max_distance(cells, center),
    decreases cells.len(),
{
    if cells.len() > 0 {
        lemma_max_distance_nonnegative(cells.drop_last(), center);
        lemma_distance_nonnegative(cells.last(), center);
    }
}

/// Every shell of a gradient holds just those cells of the gradient that
/// belong to it.
pub proof fn lemma_shell_holds_its_cells(
    shells: Seq<Shell>,
    cells: Seq<Vec3>,
    center: Point,
    i: int,
)
    requires
        is_gradient(shells, cells, center),
        0 <= i < SHELLS,
    ensures
        shells[i].cells == cells_of_shell(
            all_cells(shells),
            center,
            max_distance(cells, center),
            i,
        ),
{
    lemma_max_distance_nonnegative(cells, center);
    assert(shells.take(shells.len() as int) =~= shells);
    lemma_prefix_shell_cells(shells, center, max_distance(cells, center), shells.len() as int, i);
}

/// The gradient of given cells around a given center is unique.
pub proof fn lemma_gradient_unique(
    first: Seq<Shell>,
    second: Seq<Shell>,
    cells: Seq<Vec3>,
    center: Point,
)
    requires
        is_gradient(first, cells, center),
        is_gradient(second, cells, center),
    ensures
        first == second,
{
    let a = all_cells(first);
    let b = all_cells(second);
    assert forall|d: int| #[trigger] at_distance(a, center, d) == at_distance(b, center, d) by {
        assert(at_distance(a, center, d) == at_distance(cells, center, d));
        assert(at_distance(b, center, d) == at_distance(cells, center, d));
    }
    lemma_ordering_unique(a, b, center);
    assert forall|i: int| 0 <= i < first.len() implies first[i] == second[i] by {
        lemma_shell_holds_its_cells(first, cells, center, i);
        lemma_shell_holds_its_cells(second, cells, center, i);
    }
    assert(first =~= second);
}

/// The number of cells in all shells together.
pub open spec fn total_count(shells: Seq<Shell>) -> nat
    decreases shells.len(),
{
    if shells.len() == 0 {
        0
    } else {
        total_count(shells.drop_last()) + shells.last().cells.len()
    }
}

/// The cells of all shells are as many as the shells hold together.
pub proof fn lemma_total_count(shells: Seq<Shell>)
    ensures
        all_cells(shells).len() == total_count(shells),
    decreases shells.len(),
{
    if shells.len() > 0 {
        lemma_total_count(shells.drop_last());
    }
}

/// A cell among the cells of all shells is a cell of some shell.
proof fn lemma_cell_has_a_shell(shells: Seq<Shell>, c: Vec3) -> (i: int)
    requires
        all_cells(shells).contains(c),
    ensures
        0 <= i < shells.len(),
        shells[i].cells.contains(c),
    decreases shells.len(),
{
    if shells.len() == 0 {
        assert(false);
        0
    } else {
        let head = all_cells(shells.drop_last());
        let tail = shells.last().cells;
        let j = choose|j: int| 0 <= j < (head + tail).len() && (head + tail)[j] == c;
        if j < head.len() {
            assert(head[j] == c);
            let i = lemma_cell_has_a_shell(shells.drop_last(), c);
            assert(shells.drop_last()[i] == shells[i]);
            i
        } else {
            assert(tail[j - head.len()] == c);
            shells.len() - 1
        }
    }
}

/// A gradient partitions the cells: its shells together hold every cell as
/// often as the aggregate does, so as many cells as there are; every cell is
/// in some shell; and no cell is in two shells.
pub proof fn lemma_gradient_partitions(shells: Seq<Shell>, cells: Seq<Vec3>, center: Point)
    requires
        is_gradient(shells, cells, center),
    ensures
        all_cells(shells).to_multiset() == cells.to_multiset(),
        total_count(shells) == cells.len(),
        forall|k: int|
            0 <= k < cells.len() ==> exists|i: int|
                0 <= i < SHELLS && (#[trigger] shells[i]).cells.contains(#[trigger] cells[k]),
        forall|i: int, j: int, c: Vec3|
            0 <= i < SHELLS && 0 <= j < SHELLS && #[trigger] shells[i].cells.contains(c)
                && #[trigger] shells[j].cells.contains(c) ==> i == j,
        cells.no_duplicates() ==> all_cells(shells).no_duplicates(),
{
    lemma_same_cells(all_cells(shells), cells, center);
    lemma_total_count(shells);
    lemma_max_distance_nonnegative(cells, center);
    let max_d = max_distance(cells, center);
    assert forall|k: int| 0 <= k < cells.len() implies exists|i: int|
        0 <= i < SHELLS && (#[trigger] shells[i]).cells.contains(#[trigger] cells[k]) by {
        assert(all_cells(shells).contains(cells[k]));
        let i = lemma_cell_has_a_shell(shells, cells[k]);
        assert(shells[i].cells.contains(cells[k]));
    }
    assert forall|i: int, j: int, c: Vec3|
        0 <= i < SHELLS && 0 <= j < SHELLS && #[trigger] shells[i].cells.contains(c)
            && #[trigger] shells[j].cells.contains(c) implies i == j by {
        let m = choose|m: int| 0 <= m < shells[i].cells.len() && shells[i].cells[m] == c;
        let n = choose|n: int| 0 <= n < shells[j].cells.len() && shells[j].cells[n] == c;
        assert(is_shell(shells[i], i, max_d, center));
        assert(is_shell(shells[j], j, max_d, center));
        assert(in_shell(distance(shells[i].cells[m], center), max_d, i));
        assert(in_shell(distance(shells[j].cells[n], center), max_d, j));
        lemma_shell_unique(distance(c, center), max_d, i, j);
    }
    if cells.no_duplicates() {
        cells.lemma_multiset_has_no_duplicates();
        all_cells(shells).lemma_multiset_has_no_duplicates_conv();
    }
}

/// The six colors of a gradient, in three-hundredths: a third, two thirds
/// and the whole of the brighter green, then of the yellow.
pub proof fn lemma_bucket_colors()
    ensures
        bucket_color(0) == (Color { r: 34, g: 70, b: 3 }),
        bucket_color(1) == (Color { r: 68, g: 140, b: 6 }),
        bucket_color(2) == (Color { r: 102, g: 210, b: 9 }),
        bucket_color(3) == (Color { r: 85, g: 84, b: 0 }),
        bucket_color(4) == (Color { r: 170, g: 168, b: 0 }),
        bucket_color(5) == (Color { r: 255, g: 252, b: 0 }),
{
    assert(brightness_of(0) == 1 && band_of(0) == 5);
    assert(brightness_of(1) == 2 && band_of(1) == 5);
    assert(brightness_of(2) == 3 && band_of(2) == 5);
    assert(brightness_of(3) == 1 && band_of(3) == 6);
    assert(brightness_of(4) == 2 && band_of(4) == 6);
    assert(brightness_of(5) == 3 && band_of(5) == 6);
}

/// Within a band the colors do not darken from one bucket to the next: no
/// component of a later bucket of the band is smaller.
pub proof fn lemma_brightness_ascends(i: int, j: int)
    requires
        0 <= i <= j < SHELLS,
        i / (GRADIENTS as int) == j / (GRADIENTS as int),
    ensures
        bucket_color(i).r <= bucket_color(j).r,
        bucket_color(i).g <= bucket_color(j).g,
        bucket_color(i).b <= bucket_color(j).b,
{
    lemma_bucket_colors();
}

} // verus!
