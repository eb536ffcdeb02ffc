//! The tabular format: one line per cell, geometry only.

use crate::geometry::Vec3;
use crate::scene::Scene;
use crate::text::{decimal, lemma_decimal_injective, lemma_decimal_plain, push_decimal};
use vstd::prelude::*;
use vstd::string::*;

verus! {

/// The row of a cell: its three coordinates, separated by commas.
pub open spec fn csv_row(c: Vec3) -> Seq<char> {
    decimal(c.x as int) + seq![','] + decimal(c.y as int) + seq![','] + decimal(c.z as int)
}

/// The rows of the cells, in order.
pub open spec fn csv_rows(cells: Seq<Vec3>) -> Seq<Seq<char>> {
    Seq::new(cells.len(), |i: int| csv_row(cells[i]))
}

/// The text of a table: every row, each followed by a line feed.
pub open spec fn table(rows: Seq<Seq<char>>) -> Seq<char>
    decreases rows.len(),
{
    if rows.len() == 0 {
        Seq::empty()
    } else {
        table(rows.drop_last()) + rows.last() + seq!['\n']
    }
}

/// Where the first line of `text` ends: the index of its first line feed, or
/// its length when it has none.
pub open spec fn line_end(text: Seq<char>) -> int
    decreases text.len(),
{
    if text.len() == 0 || text[0] == '\n' {
        0
    } else {
        1 + line_end(text.skip(1))
    }
}

/// The lines of `text`: what stands before each line feed, and what stands
/// behind the last one if anything does.
pub open spec fn lines(text: Seq<char>) -> Seq<Seq<char>>
    decreases text.len(),
{
    let end = line_end(text);
    if text.len() == 0 {
        Seq::empty()
    } else if 0 <= end < text.len() {
        seq![text.take(end)] + lines(text.skip(end + 1))
    } else {
        seq![text]
    }
}

/// The tabular text of the cells: one line `x,y,z` per cell, no header.
pub open spec fn csv_text(cells: Seq<Vec3>) -> Seq<char> {
    table(csv_rows(cells))
}

/// Appends the row of `c` and a line feed.
fn push_row(out: &mut String, c: Vec3)
    ensures
        final(out)@ == old(out)@ + csv_row(c) + seq!['\n'],
{
    proof {
        reveal_strlit(",");
        reveal_strlit("\n");
    }
    push_decimal(out, c.x);
    out.append(",");
    push_decimal(out, c.y);
    out.append(",");
    push_decimal(out, c.z);
    out.append("\n");
    assert(out@ =~= old(out)@ + csv_row(c) + seq!['\n']);
}

/// The scene in the tabular format: one line `x,y,z` for every cell of the
/// aggregate, in the aggregate's order. Camera, lights and bounding box are
/// not part of this format.
pub fn csv_scene(scene: &Scene) -> (text: String)
    ensures
        text@ == csv_text(scene.aggregate@.cells),
{
    let cells = scene.aggregate.cells();
    let mut out = String::new();
    let mut i: usize = 0;
    assert(csv_rows(cells@.take(0)) =~= Seq::<Seq<char>>::empty());
    while i < cells.len()
        invariant
            i <= cells.len(),
            out@ == csv_text(cells@.take(i as int)),
        decreases cells.len() - i,
    {
        push_row(&mut out, cells[i]);
        proof {
            let before = csv_rows(cells@.take(i as int));
            let after = csv_rows(cells@.take(i + 1));
            assert(after.drop_last() =~= before);
            assert(after.last() == csv_row(cells@[i as int]));
        }
        i = i + 1;
    }
    assert(cells@.take(cells@.len() as int) =~= cells@);
    out
}

/// A row holds no line feed and at least one character: it is one line.
pub proof fn lemma_csv_row_is_one_line(c: Vec3)
    ensures
        !csv_row(c).contains('\n'),
        csv_row(c).len() > 0,
{
    lemma_decimal_plain(c.x as int);
    lemma_decimal_plain(c.y as int);
    lemma_decimal_plain(c.z as int);
    let row = csv_row(c);
    if row.contains('\n') {
        let i = choose|i: int| 0 <= i < row.len() && row[i] == '\n';
        let a = decimal(c.x as int);
        let b = decimal(c.y as int);
        if i < a.len() {
            assert(row[i] == a[i]);
        } else if i == a.len() {
        } else if i < a.len() + 1 + b.len() {
            assert(row[i] == b[i - a.len() - 1]);
        } else if i == a.len() + 1 + b.len() {
        } else {
            assert(row[i] == decimal(c.z as int)[i - a.len() - b.len() - 2]);
        }
    }
}

/// Texts without a comma that agree up to and including a comma after them
/// are the same text, and so is what follows the comma.
proof fn lemma_split_at_comma(a: Seq<char>, r: Seq<char>, b: Seq<char>, s: Seq<char>)
    requires
        !a.contains(','),
        !b.contains(','),
        a + seq![','] + r == b + seq![','] + s,
    ensures
        a == b,
        r == s,
{
    let left = a + seq![','] + r;
    let right = b + seq![','] + s;
    if a.len() < b.len() {
        assert(left[a.len() as int] == ',');
        assert(right[a.len() as int] == b[a.len() as int]);
        assert(b.contains(b[a.len() as int]));
    } else if b.len() < a.len() {
        assert(right[b.len() as int] == ',');
        assert(left[b.len() as int] == a[b.len() as int]);
        assert(a.contains(a[b.len() as int]));
    }
    assert(a =~= left.take(a.len() as int));
    assert(b =~= right.take(b.len() as int));
    assert(r =~= left.skip(a.len() as int + 1));
    assert(s =~= right.skip(b.len() as int + 1));
}

/// Cells with the same row are the same cell.
pub proof fn lemma_csv_row_injective(c: Vec3, d: Vec3)
    requires
        csv_row(c) == csv_row(d),
    ensures
        c == d,
{
    lemma_decimal_plain(c.x as int);
    lemma_decimal_plain(c.y as int);
    lemma_decimal_plain(d.x as int);
    lemma_decimal_plain(d.y as int);
    let cx = decimal(c.x as int);
    let cy = decimal(c.y as int);
    let cz = decimal(c.z as int);
    let dx = decimal(d.x as int);
    let dy = decimal(d.y as int);
    let dz = decimal(d.z as int);
    assert(csv_row(c) =~= cx + seq![','] + (cy + seq![','] + cz));
    assert(csv_row(d) =~= dx + seq![','] + (dy + seq![','] + dz));
    lemma_split_at_comma(cx, cy + seq![','] + cz, dx, dy + seq![','] + dz);
    lemma_split_at_comma(cy, cz, dy, dz);
    lemma_decimal_injective(c.x as int, d.x as int);
    lemma_decimal_injective(c.y as int, d.y as int);
    lemma_decimal_injective(c.z as int, d.z as int);
}

/// A line, its line feed and more text: the first line ends where the line
/// feed stands.
proof fn lemma_line_end(row: Seq<char>, rest: Seq<char>)
    requires
        !row.contains('\n'),
    ensures
        line_end(row + seq!['\n'] + rest) == row.len(),
    decreases row.len(),
{
    let text = row + seq!['\n'] + rest;
    if row.len() == 0 {
        assert(text[0] == '\n');
    } else {
        assert(text[0] == row[0]);
        assert(row.contains(row[0]));
        let tail = row.skip(1);
        assert forall|i: int| 0 <= i < tail.len() implies tail[i] != '\n' by {
            assert(tail[i] == row[i + 1]);
            assert(row.contains(row[i + 1]));
        }
        assert(text.skip(1) =~= tail + seq!['\n'] + rest);
        lemma_line_end(tail, rest);
    }
}

/// The text of a table, read from its first row.
proof fn lemma_table_from_front(rows: Seq<Seq<char>>)
    requires
        rows.len() > 0,
    ensures
        table(rows) == rows.first() + seq!['\n'] + table(rows.drop_first()),
    decreases rows.len(),
{
    if rows.len() == 1 {
        assert(rows.drop_last() =~= Seq::<Seq<char>>::empty());
        assert(rows.drop_first() =~= Seq::<Seq<char>>::empty());
        assert(table(rows) =~= rows.first() + seq!['\n'] + table(rows.drop_first()));
    } else {
        let shorter = rows.drop_last();
        lemma_table_from_front(shorter);
        assert(shorter.first() == rows.first());
        assert(shorter.drop_first() =~= rows.drop_first().drop_last());
        assert(rows.drop_first().last() == rows.last());
        assert(table(rows) =~= rows.first() + seq!['\n'] + table(rows.drop_first()));
    }
}

/// The lines of the text of a table are its rows, when every row is one
/// line.
pub proof fn lemma_lines_of_table(rows: Seq<Seq<char>>)
    requires
        forall|i: int| 0 <= i < rows.len() ==> !(#[trigger] rows[i]).contains('\n'),
    ensures
        lines(table(rows)) == rows,
    decreases rows.len(),
{
    if rows.len() > 0 {
        let first = rows.first();
        let rest = rows.drop_first();
        let text = table(rows);
        lemma_table_from_front(rows);
        lemma_line_end(first, table(rest));
        assert(text.take(first.len() as int) =~= first);
        assert(text.skip(first.len() as int + 1) =~= table(rest));
        assert forall|i: int| 0 <= i < rest.len() implies !(#[trigger] rest[i]).contains('\n') by {
            assert(rest[i] == rows[i + 1]);
        }
        lemma_lines_of_table(rest);
        assert(seq![first] + rest =~= rows);
    }
}

/// The lines of the tabular text stand for the cells one to one: the lines
/// are the rows of the cells, as many as there are cells; a row occurs among
/// them just when its cell occurs among the cells; and rows of distinct cells
/// are distinct. So from cells without duplicates come lines without
/// duplicates.
pub proof fn lemma_csv_round_trip(cells: Seq<Vec3>)
    ensures
        lines(csv_text(cells)) == csv_rows(cells),
        csv_rows(cells).len() == cells.len(),
        forall|i: int| 0 <= i < cells.len() ==> !(#[trigger] csv_rows(cells)[i]).contains('\n'),
        forall|c: Vec3| cells.contains(c) <==> csv_rows(cells).contains(#[trigger] csv_row(c)),
        forall|i: int, j: int|
            0 <= i < cells.len() && 0 <= j < cells.len() && cells[i] != cells[j]
                ==> #[trigger] csv_rows(cells)[i] != #[trigger] csv_rows(cells)[j],
        cells.no_duplicates() ==> csv_rows(cells).no_duplicates(),
{
    let rows = csv_rows(cells);
    assert forall|i: int| 0 <= i < cells.len() implies !(#[trigger] rows[i]).contains('\n') by {
        lemma_csv_row_is_one_line(cells[i]);
    }
    lemma_lines_of_table(rows);
    assert forall|c: Vec3| cells.contains(c) <==> rows.contains(#[trigger] csv_row(c)) by {
        if cells.contains(c) {
            let i = choose|i: int| 0 <= i < cells.len() && cells[i] == c;
            assert(rows[i] == csv_row(c));
        }
        if rows.contains(csv_row(c)) {
            let i = choose|i: int| 0 <= i < rows.len() && rows[i] == csv_row(c);
            lemma_csv_row_injective(cells[i], c);
        }
    }
    assert forall|i: int, j: int|
        0 <= i < cells.len() && 0 <= j < cells.len() && cells[i] != cells[j] implies #[trigger] rows[i]
        != #[trigger] rows[j] by {
        if rows[i] == rows[j] {
            lemma_csv_row_injective(cells[i], cells[j]);
        }
    }
}

} // verus!
