//! The color gradient: cells sorted by their distance from the center of the
//! bounding box, cut into distance shells, one color per shell.

use crate::aggregate::Aggregate;
use crate::geometry::{lemma_center_inside, lemma_dist2_bound, Point, Vec3, DIST2_LIMIT};
use crate::gradient_laws::{lemma_gradient_partitions, lemma_gradient_unique, total_count};
use crate::ordering::{
    ascending, distance, lemma_distance_nonnegative, lemma_same_cells, measurable,
    orders_by_distance, sorted_by_distance,
};
use vstd::prelude::*;

verus! {

/// Number of brightness steps within one color band.
pub const GRADIENTS: u64 = 3;

/// Number of distance shells, and so of color buckets: two bands.
pub const SHELLS: u64 = GRADIENTS * 2;

/// The band of the first buckets.
pub const FIRST_BAND: u64 = 5;

/// The last band that has a base color.
pub const LAST_BAND: u64 = 6;

/// The value of a color component at full intensity. Components count
/// three-hundredths: hundredths for the base colors, thirds for the
/// brightness steps.
pub const COLOR_SCALE: u32 = 300;

/// An RGB color; every component counts three-hundredths of full intensity.
#[derive(Clone, Copy, Debug, PartialEq, Eq, Structural)]
pub struct Color {
    pub r: u32,
    pub g: u32,
    pub b: u32,
}

/// One segment of the gradient: the cells of one distance shell, nearest
/// first, and the color they are drawn in.
#[derive(Debug)]
pub struct ColorBucket {
    pub cells: Vec<Vec3>,
    pub color: Color,
}

/// What a bucket is, mathematically: a sequence of cells and a color.
pub struct Shell {
    pub cells: Seq<Vec3>,
    pub color: Color,
}

impl View for ColorBucket {
    type V = Shell;

    open spec fn view(&self) -> Shell {
        Shell { cells: self.cells@, color: self.color }
    }
}

/// The shells that the buckets stand for, in order.
pub open spec fn shells_of(buckets: Seq<ColorBucket>) -> Seq<Shell> {
    Seq::new(buckets.len(), |i: int| buckets[i]@)
}

/// The base color of a band, in hundredths of full intensity: dark olive for
/// bands 0 to 2, green for bands 3 and 4, a brighter green for band 5 and
/// yellow for band 6. There are no other bands.
pub open spec fn base_color(band: int) -> (int, int, int)
    recommends
        0 <= band <= LAST_BAND,
{
    if band <= 2 {
        (27, 30, 2)
    } else if band <= 4 {
        (0, 60, 2)
    } else if band == 5 {
        (34, 70, 3)
    } else {
        (85, 84, 0)
    }
}

/// The band of bucket `i`.
pub open spec fn band_of(i: int) -> int {
    FIRST_BAND + i / (GRADIENTS as int)
}

/// The brightness of bucket `i`, in thirds: the base color is scaled by
/// `brightness_of(i) / GRADIENTS`.
pub open spec fn brightness_of(i: int) -> int {
    1 + i % (GRADIENTS as int)
}

/// The color of bucket `i`: the base color of its band, scaled by its
/// brightness.
pub open spec fn bucket_color(i: int) -> Color {
    let base = base_color(band_of(i));
    Color {
        r: (base.0 * brightness_of(i)) as u32,
        g: (base.1 * brightness_of(i)) as u32,
        b: (base.2 * brightness_of(i)) as u32,
    }
}

/// The largest squared distance that shell `i` admits, given the largest
/// squared distance `max_d` of any cell.
pub open spec fn shell_limit(i: int, max_d: int) -> int {
    ((i + 1) * max_d) / (SHELLS as int)
}

/// A cell at squared distance `d` belongs to shell `i`: the first shell whose
/// limit admits it.
pub open spec fn in_shell(d: int, max_d: int, i: int) -> bool {
    &&& 0 <= i < SHELLS
    &&& d <= shell_limit(i, max_d)
    &&& i > 0 ==> d > shell_limit(i - 1, max_d)
}

/// The largest squared distance of any of `cells` from `center`; 0 when there
/// is no cell.
pub open spec fn max_distance(cells: Seq<Vec3>, center: Point) -> int
    decreases cells.len(),
{
    if cells.len() == 0 {
        0
    } else {
        let rest = max_distance(cells.drop_last(), center);
        let d = distance(cells.last(), center);
        if d > rest {
            d
        } else {
            rest
        }
    }
}

/// All cells of the shells: first those of the first shell, and so on.
pub open spec fn all_cells(shells: Seq<Shell>) -> Seq<Vec3>
    decreases shells.len(),
{
    if shells.len() == 0 {
        Seq::empty()
    } else {
        all_cells(shells.drop_last()) + shells.last().cells
    }
}

/// `shell` has the color of shell `i` and holds only cells of shell `i`.
pub open spec fn is_shell(shell: Shell, i: int, max_d: int, center: Point) -> bool {
    &&& shell.color == bucket_color(i)
    &&& forall|j: int|
        0 <= j < shell.cells.len() ==> in_shell(
            distance(#[trigger] shell.cells[j], center),
            max_d,
            i,
        )
}

/// `shells` is the gradient of `cells` around `center`: one shell per index
/// below `SHELLS`, in order; each with its color and with cells of its
/// distance range only; together they hold every cell, by ascending distance.
pub open spec fn is_gradient(shells: Seq<Shell>, cells: Seq<Vec3>, center: Point) -> bool {
    &&& shells.len() == SHELLS
    &&& forall|i: int|
        0 <= i < SHELLS ==> is_shell(#[trigger] shells[i], i, max_distance(cells, center), center)
    &&& orders_by_distance(all_cells(shells), cells, center)
}

/// The gradient of `cells` around `center`. Cells that have a gradient have
/// one only.
pub open spec fn gradient_of(cells: Seq<Vec3>, center: Point) -> Seq<Shell> {
    choose|shells: Seq<Shell>| is_gradient(shells, cells, center)
}

/// The base color of a band, looked up in the table of the four base
/// colors.
pub fn base_color_of(band: u64) -> (base: (u32, u32, u32))
    requires
        band <= LAST_BAND,
    ensures
        base.0 == base_color(band as int).0,
        base.1 == base_color(band as int).1,
        base.2 == base_color(band as int).2,
{
    match band {
        0..=2 => (27, 30, 2),
        3..=4 => (0, 60, 2),
        5 => (34, 70, 3),
        _ => (85, 84, 0),
    }
}

/// The color of bucket `i`.
pub fn color_of_bucket(i: u64) -> (c: Color)
    requires
        i < SHELLS,
    ensures
        c == bucket_color(i as int),
{
    let base = base_color_of(FIRST_BAND + i / GRADIENTS);
    let steps: u32 = (1 + i % GRADIENTS) as u32;
    assert(base.0 * steps <= 255 && base.1 * steps <= 255 && base.2 * steps <= 255) by (nonlinear_arith)
        requires
            base.0 <= 85,
            base.1 <= 84,
            base.2 <= 3,
            steps <= 3,
    ;
    Color { r: base.0 * steps, g: base.1 * steps, b: base.2 * steps }
}

/// No cell is farther from `center` than `max_distance`, and some cell is
/// that far.
pub proof fn lemma_max_distance(cells: Seq<Vec3>, center: Point)
    ensures
        forall|i: int|
            0 <= i < cells.len() ==> distance(#[trigger] cells[i], center) <= max_distance(
                cells,
                center,
            ),
        cells.len() > 0 ==> exists|i: int|
            0 <= i < cells.len() && distance(#[trigger] cells[i], center) == max_distance(
                cells,
                center,
            ),
        cells.len() == 0 ==> max_distance(cells, center) == 0,
    decreases cells.len(),
{
    if cells.len() > 0 {
        let rest = cells.drop_last();
        lemma_max_distance(rest, center);
        assert forall|i: int| 0 <= i < cells.len() implies distance(
            #[trigger] cells[i],
            center,
        ) <= max_distance(cells, center) by {
            if i < rest.len() {
                assert(rest[i] == cells[i]);
            }
        }
        if rest.len() > 0 && max_distance(cells, center) == max_distance(rest, center) {
            let i = choose|i: int|
                0 <= i < rest.len() && distance(#[trigger] rest[i], center) == max_distance(
                    rest,
                    center,
                );
            assert(cells[i] == rest[i]);
        } else {
            lemma_distance_nonnegative(cells.last(), center);
            assert(distance(cells[cells.len() - 1], center) == max_distance(cells, center));
        }
    }
}

/// The last cell of an ascending arrangement of `inp` is as far from `center`
/// as any cell of `inp` is.
proof fn lemma_last_is_farthest(out: Seq<Vec3>, inp: Seq<Vec3>, center: Point)
    requires
        orders_by_distance(out, inp, center),
        inp.len() > 0,
    ensures
        out.len() == inp.len(),
        distance(out.last(), center) == max_distance(inp, center),
{
    lemma_same_cells(out, inp, center);
    lemma_max_distance(inp, center);
    let k = choose|k: int|
        0 <= k < inp.len() && distance(#[trigger] inp[k], center) == max_distance(inp, center);
    assert(out.contains(inp[k]));
    let j = choose|j: int| 0 <= j < out.len() && out[j] == inp[k];
    assert(distance(out[j], center) <= distance(out[out.len() - 1], center));
    let last = out[out.len() - 1];
    assert(inp.contains(last));
    let m = choose|m: int| 0 <= m < inp.len() && inp[m] == last;
    assert(distance(inp[m], center) <= max_distance(inp, center));
}

/// The limits of the shells grow with the shell, and the last shell admits
/// the largest distance.
pub proof fn lemma_shell_limits(max_d: int)
    requires
        0 <= max_d,
    ensures
        forall|i: int, j: int|
            0 <= i <= j ==> #[trigger] shell_limit(i, max_d) <= #[trigger] shell_limit(j, max_d),
        shell_limit(SHELLS - 1, max_d) == max_d,
        0 <= shell_limit(0, max_d),
{
    assert forall|i: int, j: int| 0 <= i <= j implies #[trigger] shell_limit(i, max_d)
        <= #[trigger] shell_limit(j, max_d) by {
        assert((i + 1) * max_d <= (j + 1) * max_d) by (nonlinear_arith)
            requires
                0 <= i <= j,
                0 <= max_d,
        ;
    }
}

/// A distance belongs to one shell only.
pub proof fn lemma_shell_unique(d: int, max_d: int, i: int, j: int)
    requires
        0 <= max_d,
        in_shell(d, max_d, i),
        in_shell(d, max_d, j),
    ensures
        i == j,
{
    lemma_shell_limits(max_d);
    if i < j {
        assert(shell_limit(i, max_d) <= shell_limit(j - 1, max_d));
    } else if j < i {
        assert(shell_limit(j, max_d) <= shell_limit(i - 1, max_d));
    }
}

/// The gradient of the aggregate: its cells by ascending distance from the
/// center of its bounding box, cut into `SHELLS` buckets. Bucket `i` holds the
/// cells not yet taken whose squared distance is at most
/// `(i + 1) * max_d / SHELLS`, where `max_d` is the largest squared distance of
/// any cell, and has the color `bucket_color(i)`. A bucket may be empty.
/// Together the buckets hold every cell of the aggregate once.
pub fn gradient_buckets(aggregate: &Aggregate) -> (buckets: Vec<ColorBucket>)
    ensures
        is_gradient(shells_of(buckets@), aggregate@.cells, aggregate@.bbox.center()),
        shells_of(buckets@) == gradient_of(aggregate@.cells, aggregate@.bbox.center()),
        all_cells(shells_of(buckets@)).to_multiset() == aggregate@.cells.to_multiset(),
        all_cells(shells_of(buckets@)).no_duplicates(),
        total_count(shells_of(buckets@)) == aggregate@.cells.len(),
{
    let bbox = aggregate.bbox();
    let center = bbox.center();
    let cells = aggregate.cells();
    proof {
        use_type_invariant(aggregate);
        lemma_center_inside(bbox@);
        assert forall|i: int| 0 <= i < cells@.len() implies measurable(
            #[trigger] cells@[i]@,
            center@,
        ) by {
            let c = aggregate@;
            assert(c.bbox.contains(c.cells[i]@));
            lemma_dist2_bound(bbox@, cells@[i]@, center@);
        }
    }
    let sorted = sorted_by_distance(cells, center);
    proof {
        lemma_same_cells(sorted@, cells@, center@);
        lemma_last_is_farthest(sorted@, cells@, center@);
        assert forall|i: int| 0 <= i < sorted@.len() implies measurable(
            #[trigger] sorted@[i]@,
            center@,
        ) by {
            assert(cells@.contains(sorted@[i]));
            let k = choose|k: int| 0 <= k < cells@.len() && cells@[k] == sorted@[i];
            assert(measurable(cells@[k]@, center@));
        }
    }
    let n: usize = sorted.len();
    let max_d: i64 = sorted[n - 1].dist2(center);
    proof {
        lemma_shell_limits(max_d as int);
    }
    let mut buckets: Vec<ColorBucket> = Vec::new();
    let mut pos: usize = 0;
    let mut i: u64 = 0;
    while i < SHELLS
        invariant
            i <= SHELLS,
            pos <= n,
            n == sorted@.len(),
            n > 0,
            buckets@.len() == i,
            ascending(sorted@, center@),
            forall|k: int| 0 <= k < n ==> measurable(#[trigger] sorted@[k]@, center@),
            max_d == distance(sorted@[n - 1], center@),
            0 <= max_d <= DIST2_LIMIT,
            all_cells(shells_of(buckets@)) == sorted@.take(pos as int),
            forall|k: int|
                0 <= k < i ==> is_shell(#[trigger] buckets@[k]@, k, max_d as int, center@),
            i > 0 ==> forall|k: int|
                pos <= k < n ==> distance(#[trigger] sorted@[k], center@) > shell_limit(
                    i - 1,
                    max_d as int,
                ),
        decreases SHELLS - i,
    {
        assert((i + 1) * max_d <= 6 * DIST2_LIMIT) by (nonlinear_arith)
            requires
                0 <= i < 6,
                0 <= max_d <= DIST2_LIMIT,
        ;
        let limit: i64 = ((i as i64) + 1) * max_d / (SHELLS as i64);
        assert(limit == shell_limit(i as int, max_d as int));
        let ghost start = pos;
        let mut group: Vec<Vec3> = Vec::new();
        while pos < n && sorted[pos].dist2(center) <= limit
            invariant
                start <= pos <= n,
                n == sorted@.len(),
                forall|k: int| 0 <= k < n ==> measurable(#[trigger] sorted@[k]@, center@),
                group@ == sorted@.subrange(start as int, pos as int),
                forall|k: int|
                    start <= k < pos ==> distance(#[trigger] sorted@[k], center@) <= limit,
            decreases n - pos,
        {
            group.push(sorted[pos]);
            assert(sorted@.subrange(start as int, pos + 1) =~= sorted@.subrange(
                start as int,
                pos as int,
            ).push(sorted@[pos as int]));
            pos = pos + 1;
        }
        let bucket = ColorBucket { cells: group, color: color_of_bucket(i) };
        proof {
            assert(is_shell(bucket@, i as int, max_d as int, center@)) by {
                assert forall|j: int| 0 <= j < bucket@.cells.len() implies in_shell(
                    distance(#[trigger] bucket@.cells[j], center@),
                    max_d as int,
                    i as int,
                ) by {
                    assert(bucket@.cells[j] == sorted@[start + j]);
                }
            }
            assert forall|k: int| pos <= k < n implies distance(
                #[trigger] sorted@[k],
                center@,
            ) > shell_limit(i as int, max_d as int) by {
                assert(distance(sorted@[pos as int], center@) <= distance(sorted@[k], center@));
            }
            let after = shells_of(buckets@.push(bucket));
            assert(after.drop_last() =~= shells_of(buckets@));
            assert(after.last() == bucket@);
            assert(sorted@.take(start as int) + sorted@.subrange(start as int, pos as int)
                =~= sorted@.take(pos as int));
        }
        buckets.push(bucket);
        i = i + 1;
    }
    proof {
        if pos < n {
            assert(distance(sorted@[pos as int], center@) <= distance(sorted@[n - 1], center@));
        }
        assert(sorted@.take(n as int) =~= sorted@);
        let shells = shells_of(buckets@);
        assert forall|k: int| 0 <= k < SHELLS implies is_shell(
            #[trigger] shells[k],
            k,
            max_distance(cells@, center@),
            center@,
        ) by {
            assert(is_shell(buckets@[k]@, k, max_d as int, center@));
        }
        assert(is_gradient(shells, cells@, center@));
        lemma_gradient_unique(shells, gradient_of(cells@, center@), cells@, center@);
        lemma_gradient_partitions(shells, cells@, center@);
    }
    buckets
}

} // verus!
