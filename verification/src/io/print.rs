//! Chunks as a formatted table.

use crate::chunk::Chunk;
use crate::display::{cell_bytes, write_cell};
use comfy_table::Table;
use vstd::prelude::*;
use vstd::string::StrSliceExecFns;

verus! {

/// The style that tables are drawn in: vertical bars at the sides, dashes
/// above and below, and plus signs where lines meet.
pub const PRESET: &'static str = "||--+-++|    ++++++";

/// The most characters that a cell may hold. The table draws columns of up to
/// 65535 places, a character takes up to three places, and two places go to
/// the padding of a cell.
pub const MAX_CELL_CHARS: usize = 21844;

/// `comfy_table::Table`, of which nothing is seen from here but what the
/// names below say.
#[verifier::external_type_specification]
#[verifier::external_body]
pub struct ExTable(comfy_table::Table);

/// The rows of a `comfy_table::Table` in the order they were added, the header
/// not among them; each row is the texts of its cells.
pub uninterp spec fn table_rows(table: Table) -> Seq<Seq<Seq<char>>>;

/// The header of a `comfy_table::Table`: no row where none was set, else the
/// one row of the texts of its cells.
pub uninterp spec fn table_header(table: Table) -> Seq<Seq<Seq<char>>>;

/// The style of a `comfy_table::Table` as `Table::current_style_as_preset`
/// gives it: one character for each component, a space where none is drawn.
pub uninterp spec fn table_style(table: Table) -> Seq<char>;

/// Whether a `comfy_table::Table` is as `Table::new` made it but for its
/// style, its header and its rows: no arrangement, width, delimiter,
/// constraint, padding or alignment was set, its header was set at most once,
/// and every cell was made from a text alone.
pub uninterp spec fn table_is_plain(table: Table) -> bool;

/// What `to_string` gives for a plain `comfy_table::Table` of this style,
/// header and rows.
pub uninterp spec fn table_text(
    style: Seq<char>,
    header: Seq<Seq<Seq<char>>>,
    rows: Seq<Seq<Seq<char>>>,
) -> Seq<char>;

/// What `String::from_utf8_lossy` makes of `bytes`.
pub uninterp spec fn utf8_lossy(bytes: Seq<u8>) -> Seq<char>;

/// The texts of `cells`.
pub open spec fn texts(cells: Seq<String>) -> Seq<Seq<char>> {
    Seq::new(cells.len(), |i: int| cells[i]@)
}

/// The style that loading `preset` makes of `style`: the characters of the
/// preset take the places of the first components.
pub open spec fn restyled(style: Seq<char>, preset: Seq<char>) -> Seq<char> {
    Seq::new(
        style.len(),
        |i: int|
            if i < preset.len() {
                preset[i]
            } else {
                style[i]
            },
    )
}

/// Whether every cell of `rows` is short enough to be drawn.
pub open spec fn cells_short(rows: Seq<Seq<Seq<char>>>) -> bool {
    forall|r: int, c: int|
        0 <= r < rows.len() && 0 <= c < rows[r].len() ==> (#[trigger] rows[r][c]).len() <= MAX_CELL_CHARS
}

/// `Table::new`: a table without header and rows, in the style `ASCII_FULL`
/// of nineteen components.
#[verifier::external_body]
fn new_table() -> (table: Table)
    ensures
        table_rows(table).len() == 0,
        table_header(table).len() == 0,
        table_style(table) == "||--+==+|-+||++++++"@,
        table_style(table).len() == 19,
        table_is_plain(table),
{
    Table::new()
}

/// `Table::load_preset`: each character of the preset becomes the character
/// of the component at its place, and a space draws none. Nothing else changes.
#[verifier::external_body]
fn load_preset(table: &mut Table, preset: &str)
    ensures
        table_style(*final(table)) == restyled(table_style(*old(table)), preset@),
        table_rows(*final(table)) == table_rows(*old(table)),
        table_header(*final(table)) == table_header(*old(table)),
        table_is_plain(*final(table)) == table_is_plain(*old(table)),
{
    table.load_preset(preset);
}

/// `Table::set_header` on a table that has no header yet: the cells of the
/// header are made from `names`. Nothing else changes.
#[verifier::external_body]
fn set_header(table: &mut Table, names: &[String])
    requires
        table_is_plain(*old(table)),
        table_header(*old(table)).len() == 0,
    ensures
        table_header(*final(table)) == seq![texts(names@)],
        table_rows(*final(table)) == table_rows(*old(table)),
        table_style(*final(table)) == table_style(*old(table)),
        table_is_plain(*final(table)),
{
    table.set_header(names);
}

/// `Table::add_row`: a row of cells made from `cells` comes after the rows
/// there are. Nothing else changes.
#[verifier::external_body]
fn add_row(table: &mut Table, cells: &Vec<String>)
    requires
        table_is_plain(*old(table)),
    ensures
        table_rows(*final(table)) == table_rows(*old(table)).push(texts(cells@)),
        table_header(*final(table)) == table_header(*old(table)),
        table_style(*final(table)) == table_style(*old(table)),
        table_is_plain(*final(table)),
{
    table.add_row(cells);
}

/// `to_string` on a `Table`. The contract only names the text: nothing is
/// claimed of what it is. Cells beyond `MAX_CELL_CHARS` characters are left
/// out, for the widths of the table's columns are 16-bit numbers.
#[verifier::external_body]
fn render(table: &Table) -> (out: String)
    requires
        table_is_plain(*table),
        cells_short(table_header(*table)),
        cells_short(table_rows(*table)),
    ensures
        out@ == table_text(table_style(*table), table_header(*table), table_rows(*table)),
{
    table.to_string()
}

/// `String::from_utf8_lossy`, made into a `String`. The contract only names
/// the text: nothing is claimed of what it is.
#[verifier::external_body]
fn text_of(bytes: &[u8]) -> (out: String)
    ensures
        out@ == utf8_lossy(bytes@),
{
    String::from_utf8_lossy(bytes).into_owned()
}

/// The number of rows of a chunk of these columns.
pub open spec fn row_count(columns: Seq<crate::array::ArrayView>) -> nat {
    if columns.len() == 0 {
        0
    } else {
        columns[0].len()
    }
}

/// The rows of cells that a chunk of these columns fills: one row for each of
/// its rows, one cell for each column.
pub open spec fn chunk_rows(columns: Seq<crate::array::ArrayView>) -> Seq<Seq<Seq<char>>> {
    Seq::new(
        row_count(columns),
        |r: int| Seq::new(columns.len(), |c: int| utf8_lossy(cell_bytes(columns[c], r))),
    )
}

/// The rows of cells that `batches` fill, one batch after the other.
pub open spec fn rows_of(batches: Seq<Chunk>) -> Seq<Seq<Seq<char>>>
    decreases batches.len(),
{
    if batches.len() == 0 {
        Seq::empty()
    } else {
        rows_of(batches.drop_last()) + chunk_rows(batches.last()@)
    }
}

/// The header of the table of `batches`: `names`, but none where there is no batch.
pub open spec fn header_of(batches: Seq<Chunk>, names: Seq<String>) -> Seq<Seq<Seq<char>>> {
    if batches.len() == 0 {
        Seq::empty()
    } else {
        seq![texts(names)]
    }
}

/// Whether the table of `batches` under `names` can be drawn: no cell is
/// longer than `MAX_CELL_CHARS` characters.
pub open spec fn printable(batches: Seq<Chunk>, names: Seq<String>) -> bool {
    cells_short(header_of(batches, names)) && cells_short(rows_of(batches))
}

/// The texts of the cells of row `row` of `chunk`.
fn row_cells(chunk: &Chunk, row: usize) -> (cells: Vec<String>)
    requires
        chunk.wf(),
        row < row_count(chunk@),
    ensures
        texts(cells@) == chunk_rows(chunk@)[row as int],
{
    let mut cells: Vec<String> = Vec::new();
    let mut column: usize = 0;
    while column < chunk.arrays.len()
        invariant
            chunk.wf(),
            row < row_count(chunk@),
            column <= chunk.arrays@.len(),
            cells@.len() == column,
            forall|c: int| 0 <= c < column ==> (#[trigger] cells@[c])@ == utf8_lossy(cell_bytes(chunk@[c], row as int)),
        decreases chunk.arrays.len() - column,
    {
        let mut bytes: Vec<u8> = Vec::new();
        proof {
            assert(chunk@[column as int] == chunk.arrays@[column as int]@);
            assert(chunk@[column as int].len() == chunk@[0].len());
        }
        write_cell(&chunk.arrays[column], row, &mut bytes);
        proof {
            assert(bytes@ =~= cell_bytes(chunk@[column as int], row as int));
        }
        cells.push(text_of(bytes.as_slice()));
        column = column + 1;
    }
    proof {
        assert(texts(cells@) =~= chunk_rows(chunk@)[row as int]);
    }
    cells
}

/// Whether no text of `cells` is longer than `MAX_CELL_CHARS` characters.
fn row_fits(cells: &[String]) -> (ok: bool)
    ensures
        ok == (forall|c: int| 0 <= c < cells@.len() ==> (#[trigger] cells@[c])@.len() <= MAX_CELL_CHARS),
{
    let mut c: usize = 0;
    while c < cells.len()
        invariant
            c <= cells@.len(),
            forall|k: int| 0 <= k < c ==> (#[trigger] cells@[k])@.len() <= MAX_CELL_CHARS,
        decreases cells.len() - c,
    {
        if cells[c].as_str().unicode_len() > MAX_CELL_CHARS {
            return false;
        }
        c = c + 1;
    }
    true
}

/// Whether the table of `batches` under `names` can be drawn.
pub fn is_printable(batches: &[Chunk], names: &[String]) -> (ok: bool)
    requires
        forall|b: int| 0 <= b < batches@.len() ==> (#[trigger] batches@[b]).wf(),
    ensures
        ok == printable(batches@, names@),
{
    if batches.len() == 0 {
        proof {
            assert(rows_of(batches@) =~= Seq::<Seq<Seq<char>>>::empty());
        }
        return true;
    }
    if !row_fits(names) {
        proof {
            let header = header_of(batches@, names@);
            let c = choose|c: int| 0 <= c < names@.len() && (#[trigger] names@[c])@.len() > MAX_CELL_CHARS;
            assert(header[0][c].len() > MAX_CELL_CHARS);
        }
        return false;
    }
    proof {
        let header = header_of(batches@, names@);
        assert forall|r: int, c: int| 0 <= r < header.len() && 0 <= c < header[r].len() implies (
        #[trigger] header[r][c]).len() <= MAX_CELL_CHARS by {
            assert(header[r][c] == names@[c]@);
        }
        assert(rows_of(batches@.take(0)) =~= Seq::<Seq<Seq<char>>>::empty());
    }
    let mut b: usize = 0;
    while b < batches.len()
        invariant
            b <= batches@.len(),
            forall|k: int| 0 <= k < batches@.len() ==> (#[trigger] batches@[k]).wf(),
            cells_short(header_of(batches@, names@)),
            cells_short(rows_of(batches@.take(b as int))),
        decreases batches.len() - b,
    {
        let chunk = &batches[b];
        let rows = chunk.len();
        let mut row: usize = 0;
        while row < rows
            invariant
                b < batches@.len(),
                chunk == &batches@[b as int],
                chunk.wf(),
                rows == row_count(chunk@),
                row <= rows,
                forall|r: int, c: int|
                    0 <= r < row && 0 <= c < chunk_rows(chunk@)[r].len() ==> (#[trigger] chunk_rows(
                        chunk@,
                    )[r][c]).len() <= MAX_CELL_CHARS,
            decreases rows - row,
        {
            let cells = row_cells(chunk, row);
            if !row_fits(cells.as_slice()) {
                proof {
                    let c = choose|c: int|
                        0 <= c < cells@.len() && (#[trigger] cells@[c])@.len() > MAX_CELL_CHARS;
                    assert(texts(cells@)[c] == cells@[c]@);
                    lemma_rows_hold(batches@, b as int, row as int);
                    let all = rows_of(batches@);
                    let at = rows_of(batches@.take(b as int)).len() + row;
                    assert(all[at][c].len() > MAX_CELL_CHARS);
                }
                return false;
            }
            proof {
                assert forall|c: int| 0 <= c < chunk_rows(chunk@)[row as int].len() implies (
                #[trigger] chunk_rows(chunk@)[row as int][c]).len() <= MAX_CELL_CHARS by {
                    assert(texts(cells@)[c] == cells@[c]@);
                }
            }
            row = row + 1;
        }
        proof {
            assert(batches@.take(b + 1).drop_last() =~= batches@.take(b as int));
            assert(batches@.take(b + 1).last() == batches@[b as int]);
        }
        b = b + 1;
    }
    proof {
        assert(batches@.take(batches@.len() as int) =~= batches@);
    }
    true
}

/// Row `row` of batch `b` stands among the rows of all batches after the rows
/// of the batches before `b`.
pub proof fn lemma_rows_hold(batches: Seq<Chunk>, b: int, row: int)
    requires
        0 <= b < batches.len(),
        0 <= row < row_count(batches[b]@),
    ensures
        rows_of(batches.take(b)).len() + row < rows_of(batches).len(),
        rows_of(batches)[rows_of(batches.take(b)).len() + row] == chunk_rows(batches[b]@)[row],
    decreases batches.len(),
{
    let front = batches.drop_last();
    if b == batches.len() - 1 {
        assert(batches.take(b) =~= front);
    } else {
        lemma_rows_hold(front, b, row);
        assert(front.take(b) =~= batches.take(b));
    }
}

/// The table depends on what the columns hold and on the texts of the names
/// alone: batches whose columns hold the same, under names of the same
/// texts, give the same rows, the same header and so the same table.
pub proof fn lemma_same_table(first: Seq<Chunk>, second: Seq<Chunk>, names: Seq<String>, others: Seq<String>)
    requires
        first.len() == second.len(),
        forall|b: int| 0 <= b < first.len() ==> (#[trigger] first[b])@ == second[b]@,
        texts(names) == texts(others),
    ensures
        rows_of(first) == rows_of(second),
        header_of(first, names) == header_of(second, others),
        table_text(PRESET@, header_of(first, names), rows_of(first)) == table_text(
            PRESET@,
            header_of(second, others),
            rows_of(second),
        ),
    decreases first.len(),
{
    if first.len() > 0 {
        assert(first.last()@ == second.last()@);
        lemma_same_table(first.drop_last(), second.drop_last(), names, others);
    }
}

/// Batches without rows give a table of the header alone: the same table as
/// the first of them gives by itself.
pub proof fn lemma_table_without_rows(batches: Seq<Chunk>, names: Seq<String>)
    requires
        batches.len() >= 1,
        forall|b: int| 0 <= b < batches.len() ==> row_count((#[trigger] batches[b])@) == 0,
    ensures
        rows_of(batches) == Seq::<Seq<Seq<char>>>::empty(),
        header_of(batches, names) == seq![texts(names)],
        table_text(PRESET@, header_of(batches, names), rows_of(batches)) == table_text(
            PRESET@,
            header_of(batches.take(1), names),
            rows_of(batches.take(1)),
        ),
    decreases batches.len(),
{
    assert(chunk_rows(batches.last()@) =~= Seq::<Seq<Seq<char>>>::empty());
    if batches.len() > 1 {
        let front = batches.drop_last();
        lemma_table_without_rows(front, names);
        assert(front.take(1) =~= batches.take(1));
        assert(rows_of(batches) =~= Seq::<Seq<Seq<char>>>::empty());
    } else {
        assert(rows_of(batches.drop_last()) =~= Seq::<Seq<Seq<char>>>::empty());
        assert(rows_of(batches) =~= Seq::<Seq<Seq<char>>>::empty());
        assert(batches.take(1) =~= batches);
    }
}

/// Returns a visual representation of `batches`: a table in the style
/// `PRESET` with `names` as its header and one row for each row of each batch.
/// Where there is no batch the table has no header either.
pub fn write(batches: &[Chunk], names: &[String]) -> (out: String)
    requires
        forall|b: int| 0 <= b < batches@.len() ==> (#[trigger] batches@[b]).wf(),
        printable(batches@, names@),
    ensures
        out@ == table_text(PRESET@, header_of(batches@, names@), rows_of(batches@)),
{
    let mut table = new_table();
    load_preset(&mut table, PRESET);
    proof {
        reveal_strlit("||--+-++|    ++++++");
        reveal_strlit("||--+==+|-+||++++++");
        assert(table_style(table) =~= PRESET@);
    }
    if batches.len() == 0 {
        proof {
            assert(rows_of(batches@) =~= Seq::<Seq<Seq<char>>>::empty());
            assert(table_rows(table) =~= rows_of(batches@));
            assert(table_header(table) =~= header_of(batches@, names@));
        }
        return render(&table);
    }
    set_header(&mut table, names);
    proof {
        assert(rows_of(batches@.take(0)) =~= Seq::<Seq<Seq<char>>>::empty());
        assert(table_rows(table) =~= rows_of(batches@.take(0)));
    }
    let mut b: usize = 0;
    while b < batches.len()
        invariant
            b <= batches@.len(),
            forall|k: int| 0 <= k < batches@.len() ==> (#[trigger] batches@[k]).wf(),
            table_is_plain(table),
            table_style(table) == PRESET@,
            table_header(table) == header_of(batches@, names@),
            table_rows(table) == rows_of(batches@.take(b as int)),
        decreases batches.len() - b,
    {
        let chunk = &batches[b];
        let rows = chunk.len();
        let ghost done = rows_of(batches@.take(b as int));
        let mut row: usize = 0;
        proof {
            assert(table_rows(table) =~= done + chunk_rows(chunk@).take(0));
        }
        while row < rows
            invariant
                chunk.wf(),
                rows == row_count(chunk@),
                row <= rows,
                table_is_plain(table),
                table_style(table) == PRESET@,
                table_header(table) == header_of(batches@, names@),
                table_rows(table) == done + chunk_rows(chunk@).take(row as int),
            decreases rows - row,
        {
            let cells = row_cells(chunk, row);
            add_row(&mut table, &cells);
            proof {
                assert(chunk_rows(chunk@).take(row + 1) =~= chunk_rows(chunk@).take(row as int).push(
                    chunk_rows(chunk@)[row as int],
                ));
                assert(table_rows(table) =~= done + chunk_rows(chunk@).take(row + 1));
            }
            row = row + 1;
        }
        proof {
            assert(chunk_rows(chunk@).take(rows as int) =~= chunk_rows(chunk@));
            assert(batches@.take(b + 1).drop_last() =~= batches@.take(b as int));
            assert(batches@.take(b + 1).last() == batches@[b as int]);
        }
        b = b + 1;
    }
    proof {
        assert(batches@.take(batches@.len() as int) =~= batches@);
    }
    render(&table)
}

/// Returns a visual representation of `batches` as `write` does, or `None`
/// where a cell is too long to be drawn.
pub fn try_write(batches: &[Chunk], names: &[String]) -> (out: Option<String>)
    requires
        forall|b: int| 0 <= b < batches@.len() ==> (#[trigger] batches@[b]).wf(),
    ensures
        out is Some <==> printable(batches@, names@),
        out matches Some(text) ==> text@ == table_text(
            PRESET@,
            header_of(batches@, names@),
            rows_of(batches@),
        ),
{
    if is_printable(batches, names) {
        Some(write(batches, names))
    } else {
        None
    }
}

} // verus!
