//! Texts in columns.

use vstd::prelude::*;
use vstd::string::*;
use vstd::utf8::encode_utf8;

use crate::pieces::{pad, padded, trim_end, trimmed_end};
use crate::seqs::{group_seqs, lemma_take_next, views};
use crate::text::{join, joined};

verus! {

/// How many bytes a text takes.
pub open spec fn byte_length(s: Seq<char>) -> nat {
    encode_utf8(s).len()
}

/// How many bytes a text takes.
pub fn length(s: &str) -> (n: usize)
    ensures
        n == byte_length(s@),
{
    s.as_bytes().len()
}

/// The text of `width` characters at least, filled with spaces on the left.
pub open spec fn right_aligned(s: Seq<char>, width: nat) -> Seq<char> {
    if s.len() >= width {
        s
    } else {
        Seq::new((width - s.len()) as nat, |i: int| ' ') + s
    }
}

/// The text of `width` characters at least, filled with spaces on the left.
pub fn align_right(s: &str, width: usize) -> (out: String)
    ensures
        out@ == right_aligned(s@, width as nat),
{
    let mut out = String::new();
    let start: usize = s.unicode_len();
    let mut count: usize = start;
    while count < width
        invariant
            start <= count,
            start == s@.len(),
            count <= width || count == start,
            out@ == Seq::new((count - start) as nat, |i: int| ' '),
        decreases width - count,
    {
        out.push(' ');
        count += 1;
        assert(out@ =~= Seq::new((count - start) as nat, |i: int| ' '));
    }
    out.append(s);
    assert(out@ =~= right_aligned(s@, width as nat));
    out
}

/// The larger of two numbers.
pub open spec fn larger(a: nat, b: nat) -> nat {
    if a > b {
        a
    } else {
        b
    }
}

/// The most bytes a text of the list takes.
pub open spec fn widest(texts: Seq<Seq<char>>) -> nat
    decreases texts.len(),
{
    if texts.len() == 0 {
        0
    } else {
        larger(widest(texts.drop_last()), byte_length(texts.last()))
    }
}

/// The cells of a table.
pub open spec fn cells(rows: Seq<Vec<String>>) -> Seq<Seq<Seq<char>>> {
    Seq::new(rows.len(), |i: int| views(rows[i]@))
}

/// The most bytes a cell of the column takes.
pub open spec fn column_width(rows: Seq<Seq<Seq<char>>>, column: int) -> nat
    decreases rows.len(),
{
    if rows.len() == 0 {
        0
    } else {
        larger(
            column_width(rows.drop_last(), column),
            if column < rows.last().len() {
                byte_length(rows.last()[column])
            } else {
                0
            },
        )
    }
}

/// The cells of a row, each filled up to the width of its column.
pub open spec fn filled(row: Seq<Seq<char>>, rows: Seq<Seq<Seq<char>>>) -> Seq<Seq<char>> {
    Seq::new(row.len(), |c: int| padded(row[c], column_width(rows, c)))
}

/// A row of a table as a line: indented, its columns aligned, and nothing blank at its end.
pub open spec fn aligned_row(row: Seq<Seq<char>>, rows: Seq<Seq<Seq<char>>>) -> Seq<char> {
    trimmed_end("    "@ + joined(filled(row, rows), "  "@))
}

/// The rows of a table as lines.
pub open spec fn aligned(rows: Seq<Seq<Seq<char>>>) -> Seq<Seq<char>> {
    Seq::new(rows.len(), |i: int| aligned_row(rows[i], rows))
}

fn width_of_column(rows: &Vec<Vec<String>>, column: usize) -> (width: usize)
    ensures
        width == column_width(cells(rows@), column as int),
{
    broadcast use group_seqs;

    let ghost all = cells(rows@);
    let mut width: usize = 0;
    let mut i: usize = 0;
    while i < rows.len()
        invariant
            i <= rows@.len(),
            all == cells(rows@),
            width == column_width(all.take(i as int), column as int),
        decreases rows@.len() - i,
    {
        proof {
            assert(all.take(i + 1).drop_last() =~= all.take(i as int));
            assert(all.take(i + 1).last() == views(rows@[i as int]@));
        }
        if column < rows[i].len() {
            assert(views(rows@[i as int]@)[column as int] == rows@[i as int]@[column as int]@);
            let here = length(rows[i][column].as_str());
            if here > width {
                width = here;
            }
        }
        i += 1;
    }
    width
}

/// The rows of a table as lines.
pub fn align(rows: &Vec<Vec<String>>) -> (lines: Vec<String>)
    ensures
        views(lines@) == aligned(cells(rows@)),
{
    broadcast use group_seqs;

    let ghost table = cells(rows@);
    let ghost all = aligned(table);
    let mut lines: Vec<String> = Vec::new();
    let mut i: usize = 0;
    while i < rows.len()
        invariant
            i <= rows@.len(),
            table == cells(rows@),
            all == aligned(table),
            views(lines@) == all.take(i as int),
        decreases rows@.len() - i,
    {
        let row = &rows[i];
        let mut parts: Vec<String> = Vec::new();
        let ghost whole = filled(table[i as int], table);
        let mut c: usize = 0;
        while c < row.len()
            invariant
                i < rows@.len(),
                *row == rows@[i as int],
                c <= row@.len(),
                table == cells(rows@),
                whole == filled(table[i as int], table),
                views(parts@) == whole.take(c as int),
            decreases row@.len() - c,
        {
            proof {
                assert(table[i as int] == views(row@));
                assert(views(row@)[c as int] == row@[c as int]@);
                lemma_take_next(whole, c as int);
            }
            let width = width_of_column(rows, c);
            parts.push(pad(row[c].as_str(), width));
            c += 1;
        }
        assert(whole.take(c as int) =~= whole);
        let mut line = "    ".to_owned();
        line.append(join(&parts, "  ").as_str());
        proof {
            lemma_take_next(all, i as int);
        }
        lines.push(trim_end(line.as_str()));
        i += 1;
    }
    lines
}

/// A column is as wide as its widest cell: no cell is wider, and an empty column has no width.
pub proof fn lemma_column_width(rows: Seq<Seq<Seq<char>>>, column: int)
    requires
        0 <= column,
    ensures
        forall|i: int|
            0 <= i < rows.len() && column < (#[trigger] rows[i]).len() ==> byte_length(rows[i][column])
                <= column_width(rows, column),
        column_width(rows, column) > 0 ==> exists|i: int|
            0 <= i < rows.len() && column < (#[trigger] rows[i]).len() && byte_length(rows[i][column]) == column_width(
                rows,
                column,
            ),
    decreases rows.len(),
{
    if rows.len() > 0 {
        let rest = rows.drop_last();
        let last = rows.len() - 1;
        lemma_column_width(rest, column);
        assert(rows[last] == rows.last());
        assert forall|i: int| 0 <= i < rows.len() && column < (#[trigger] rows[i]).len() implies byte_length(
            rows[i][column],
        ) <= column_width(rows, column) by {
            if i < last {
                assert(rest[i] == rows[i]);
            }
        }
        if column_width(rest, column) == column_width(rows, column) && column_width(rows, column) > 0 {
            let i = choose|i: int|
                0 <= i < rest.len() && column < (#[trigger] rest[i]).len() && byte_length(rest[i][column])
                    == column_width(rest, column);
            assert(rows[i] == rest[i]);
        }
    }
}

/// A text is moved right by spaces before it and by nothing else: it stands at the end, and a text that is
/// wide enough stays.
pub proof fn lemma_right_aligned(s: Seq<char>, width: nat)
    ensures
        s.len() >= width ==> right_aligned(s, width) == s,
        s.len() < width ==> right_aligned(s, width).len() == width,
        right_aligned(s, width).skip(right_aligned(s, width).len() - s.len()) == s,
        forall|i: int| 0 <= i < right_aligned(s, width).len() - s.len() ==> #[trigger] right_aligned(s, width)[i] == ' ',
{
    assert(right_aligned(s, width).skip(right_aligned(s, width).len() - s.len()) =~= s);
}

} // verus!
