//! The lines in which a list of passwords is shown: one password to a
//! line, or a grid of five columns filled column by column.

use vstd::prelude::*;
use vstd::string::*;
use vstd::utf8::encode_utf8;

verus! {

/// The number of columns of the grid.
pub const COLUMNS: usize = 5;

/// The text of each password, in order.
pub open spec fn texts_of(passwords: Seq<String>) -> Seq<Seq<char>> {
    Seq::new(passwords.len(), |i: int| passwords[i]@)
}

/// The width that an entry asks of its column: its length in bytes.
pub open spec fn width_of(item: Seq<char>) -> nat {
    encode_utf8(item).len()
}

/// The greatest width among the entries from index `from` up to, not
/// including, index `to`; 0 where there is none.
pub open spec fn widest(items: Seq<Seq<char>>, from: int, to: int) -> nat
    decreases to - from,
{
    if to <= from {
        0
    } else {
        let rest = widest(items, from, to - 1);
        if width_of(items[to - 1]) > rest {
            width_of(items[to - 1])
        } else {
            rest
        }
    }
}

/// The number of rows of the grid for `count` entries.
pub open spec fn row_count(count: int) -> int {
    (count + COLUMNS - 1) / (COLUMNS as int)
}

/// The width of a column: that of its widest entry. The column holds the
/// entries from index `col * rows` on, `rows` of them or as many as are
/// left.
pub open spec fn column_width(items: Seq<Seq<char>>, rows: int, col: int) -> nat {
    widest(
        items,
        col * rows,
        if (col + 1) * rows < items.len() {
            (col + 1) * rows
        } else {
            items.len() as int
        },
    )
}

/// The entry with blanks behind it, as many as it has fewer characters
/// than `width`.
pub open spec fn padded(item: Seq<char>, width: nat) -> Seq<char> {
    if item.len() < width {
        item + Seq::new((width - item.len()) as nat, |i: int| ' ')
    } else {
        item
    }
}

/// The number of entries that stand in row `row`.
pub open spec fn cells_in_row(count: int, rows: int, row: int) -> int {
    if row < count && rows > 0 {
        (count - row - 1) / rows + 1
    } else {
        0
    }
}

/// The first `cells` cells of row `row`: each entry padded to the width
/// of its column, with one blank between neighbours. The entry in column
/// `col` is the one at index `col * rows + row`.
pub open spec fn row_text(items: Seq<Seq<char>>, rows: int, row: int, cells: int) -> Seq<char>
    decreases cells,
{
    if cells <= 0 {
        Seq::empty()
    } else {
        let col = cells - 1;
        row_text(items, rows, row, col) + (if col > 0 {
            seq![' ']
        } else {
            Seq::empty()
        }) + padded(items[col * rows + row], column_width(items, rows, col))
    }
}

/// The lines that show the entries. Without columns, or with no more
/// entries than the grid has columns, each entry is a line of its own.
/// Otherwise line `r` is row `r` of the grid.
pub open spec fn layout(items: Seq<Seq<char>>, columns: bool) -> Seq<Seq<char>> {
    if !columns || items.len() <= COLUMNS {
        items
    } else {
        let rows = row_count(items.len() as int);
        Seq::new(
            rows as nat,
            |r: int| row_text(items, rows, r, cells_in_row(items.len() as int, rows, r)),
        )
    }
}

/// Finds the greatest width among the passwords from index `from` up to,
/// not including, index `to`.
pub fn widest_of(passwords: &[String], from: usize, to: usize) -> (r: usize)
    requires
        from <= to <= passwords@.len(),
    ensures
        r == widest(texts_of(passwords@), from as int, to as int),
{
    let mut best: usize = 0;
    let mut i: usize = from;
    while i < to
        invariant
            from <= i <= to <= passwords@.len(),
            best == widest(texts_of(passwords@), from as int, i as int),
        decreases to - i,
    {
        let width = passwords[i].as_str().as_bytes().len();
        if width > best {
            best = width;
        }
        i += 1;
    }
    best
}

/// Adds `count` blanks to the line.
pub fn push_blanks(line: &mut String, count: usize)
    ensures
        final(line)@ == old(line)@ + Seq::new(count as nat, |i: int| ' '),
{
    let mut i: usize = 0;
    assert(line@ =~= old(line)@ + Seq::new(0, |i: int| ' '));
    while i < count
        invariant
            i <= count,
            line@ == old(line)@ + Seq::new(i as nat, |i: int| ' '),
        decreases count - i,
    {
        proof {
            reveal_strlit(" ");
        }
        line.append(" ");
        i += 1;
        assert(line@ =~= old(line)@ + Seq::new(i as nat, |i: int| ' '));
    }
}

/// Adds the password to the line, with blanks behind it up to `width`
/// characters.
pub fn push_padded(line: &mut String, password: &str, width: usize)
    ensures
        final(line)@ == old(line)@ + padded(password@, width as nat),
{
    line.append(password);
    let chars = password.unicode_len();
    if chars < width {
        push_blanks(line, width - chars);
        assert(line@ =~= old(line)@ + padded(password@, width as nat));
    }
}

/// Computes the width of each column of a grid of `rows` rows.
pub fn column_widths(passwords: &[String], rows: usize) -> (r: Vec<usize>)
    requires
        rows > 0,
    ensures
        r@.len() == COLUMNS,
        forall|col: int|
            0 <= col < COLUMNS ==> #[trigger] r@[col] == column_width(
                texts_of(passwords@),
                rows as int,
                col,
            ),
{
    let count = passwords.len();
    let ghost items = texts_of(passwords@);
    let mut widths: Vec<usize> = Vec::new();
    let mut from: usize = 0;
    let mut col: usize = 0;
    while col < COLUMNS
        invariant
            rows > 0,
            col <= COLUMNS,
            count == passwords@.len(),
            items == texts_of(passwords@),
            from <= count,
            from == (if col * rows < count {
                col * rows
            } else {
                count as int
            }),
            widths@.len() == col,
            forall|c: int|
                0 <= c < col ==> #[trigger] widths@[c] == column_width(items, rows as int, c),
        decreases COLUMNS - col,
    {
        let to = if count - from > rows {
            from + rows
        } else {
            count
        };
        proof {
            assert((col + 1) * rows == col * rows + rows) by (nonlinear_arith);
            assert(col * rows >= 0) by (nonlinear_arith);
            if col * rows >= count {
                assert(widest(items, col * rows, count as int) == 0);
                assert(widest(items, count as int, count as int) == 0);
            }
        }
        widths.push(widest_of(passwords, from, to));
        from = to;
        col += 1;
    }
    widths
}

/// Builds row `row` of a grid of `rows` rows.
pub fn build_row(passwords: &[String], widths: &Vec<usize>, rows: usize, row: usize) -> (line:
    String)
    requires
        0 < rows,
        row < rows,
        row < passwords@.len(),
        passwords@.len() <= COLUMNS * rows,
        widths@.len() == COLUMNS,
        forall|col: int|
            0 <= col < COLUMNS ==> #[trigger] widths@[col] == column_width(
                texts_of(passwords@),
                rows as int,
                col,
            ),
    ensures
        line@ == row_text(
            texts_of(passwords@),
            rows as int,
            row as int,
            cells_in_row(passwords@.len() as int, rows as int, row as int),
        ),
{
    let count = passwords.len();
    let ghost items = texts_of(passwords@);
    let mut line = String::new();
    let mut at: usize = row;
    let mut col: usize = 0;
    loop
        invariant_except_break
            at < count,
            at == col * rows + row,
            line@ == row_text(items, rows as int, row as int, col as int),
        invariant
            0 < rows,
            row < rows,
            count == passwords@.len(),
            count <= COLUMNS * rows,
            items == texts_of(passwords@),
            widths@.len() == COLUMNS,
            forall|c: int|
                0 <= c < COLUMNS ==> #[trigger] widths@[c] == column_width(items, rows as int, c),
        ensures
            line@ == row_text(
                items,
                rows as int,
                row as int,
                cells_in_row(count as int, rows as int, row as int),
            ),
        decreases count - at,
    {
        proof {
            assert(col < COLUMNS) by (nonlinear_arith)
                requires
                    col * rows + row < count,
                    count <= COLUMNS * rows,
                    rows > 0,
            ;
            reveal_strlit(" ");
        }
        if col > 0 {
            line.append(" ");
        }
        push_padded(&mut line, passwords[at].as_str(), widths[col]);
        proof {
            let before = row_text(items, rows as int, row as int, col as int);
            let gap: Seq<char> = if col > 0 {
                seq![' ']
            } else {
                Seq::empty()
            };
            assert(" "@ =~= seq![' ']);
            assert(line@ =~= before + gap + padded(items[at as int], widths@[col as int] as nat));
            assert(line@ == row_text(items, rows as int, row as int, col + 1));
        }
        col += 1;
        if count - at > rows {
            proof {
                assert(col * rows == (col - 1) * rows + rows) by (nonlinear_arith);
            }
            at += rows;
        } else {
            proof {
                let q = col - 1;
                let x = count - row - 1;
                vstd::arithmetic::div_mod::lemma_fundamental_div_mod_converse(
                    x,
                    rows as int,
                    q,
                    count - at - 1,
                );
            }
            break ;
        }
    }
    line
}

/// Lays the passwords out in lines.
///
/// With `columns` off, or with no more passwords than `COLUMNS`, each
/// password is a line of its own. Otherwise the passwords fill a grid of
/// `COLUMNS` columns column by column, in as few rows as hold them all;
/// each column is as wide as its widest password, entries stand flush
/// left with blanks behind them, and one blank parts two columns.
pub fn layout_passwords(passwords: &[String], columns: bool) -> (lines: Vec<String>)
    ensures
        texts_of(lines@) == layout(texts_of(passwords@), columns),
{
    let count = passwords.len();
    let ghost items = texts_of(passwords@);
    let mut lines: Vec<String> = Vec::new();
    if !columns || count <= COLUMNS {
        let mut i: usize = 0;
        while i < count
            invariant
                i <= count,
                count == passwords@.len(),
                lines@.len() == i,
                forall|j: int| 0 <= j < i ==> (#[trigger] lines@[j])@ == passwords@[j]@,
            decreases count - i,
        {
            lines.push(passwords[i].clone());
            i += 1;
        }
        assert(texts_of(lines@) =~= items);
        return lines;
    }
    let rows = count / COLUMNS + (if count % COLUMNS != 0 {
        1
    } else {
        0
    });
    assert(rows == row_count(count as int));
    let widths = column_widths(passwords, rows);
    let mut row: usize = 0;
    while row < rows
        invariant
            row <= rows,
            0 < rows <= count,
            count == passwords@.len(),
            count <= COLUMNS * rows,
            items == texts_of(passwords@),
            widths@.len() == COLUMNS,
            forall|col: int|
                0 <= col < COLUMNS ==> #[trigger] widths@[col] == column_width(
                    items,
                    rows as int,
                    col,
                ),
            lines@.len() == row,
            forall|r: int|
                0 <= r < row ==> (#[trigger] lines@[r])@ == row_text(
                    items,
                    rows as int,
                    r,
                    cells_in_row(count as int, rows as int, r),
                ),
        decreases rows - row,
    {
        lines.push(build_row(passwords, &widths, rows, row));
        row += 1;
    }
    assert(texts_of(lines@) =~= layout(items, columns));
    lines
}

} // verus!
