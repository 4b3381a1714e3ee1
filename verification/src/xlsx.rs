//! Spreadsheets: one sheet on the screen at a time, as a table of aligned columns.

use crate::columns;
use crate::columns::{disp_w, fit_widths, pad_left, pad_right, truncate};
use crate::json;
use crate::state;
use crate::state::{parse_state, put_text, state_u, write_state, ViewerHandleKeyResult};
use crate::text;
use crate::text::{chars_of, decimal_of, fill_left, same_text, signed_decimal};
use crate::viewer;
use crate::viewer::{add_line, add_span, blank_line, clamp_index, line1, line2, panel, repeat, sp, Span, ViewerLine, ViewerSpan};
use vstd::prelude::*;
use vstd::string::*;

verus! {

/// Columns shown at most.
pub const MAX_COLS: usize = 64;

/// Rows shown at most, besides the header.
pub const MAX_ROWS: usize = 5000;

/// Largest width of a column.
pub const MAX_COL_WIDTH: usize = 40;

/// The message when an image is asked for.
pub const NO_IMAGE: &'static str = "XLSX viewer does not support image rendering";

// ── cells ───────────────────────────────────────────────────────────────────

/// A cell of a sheet.
pub enum Cell {
    Empty,
    Text(String),
    Int(i64),
    /// A number in floating point, as it is written.
    Float(String),
    Bool(bool),
    /// A date, a time or a duration, as it is written.
    Moment(String),
    /// An error, by its name.
    Error(String),
}

/// How a cell is written.
pub open spec fn cell_text(cell: Cell) -> Seq<char> {
    match cell {
        Cell::Empty => Seq::empty(),
        Cell::Text(s) => s@,
        Cell::Int(n) => text::decimal(n as int),
        Cell::Float(s) => s@,
        Cell::Bool(b) => if b {
            "true"@
        } else {
            "false"@
        },
        Cell::Moment(s) => s@,
        Cell::Error(s) => "#ERR:"@ + s@,
    }
}

/// Whether a cell holds a number.
pub open spec fn is_number(cell: Cell) -> bool {
    cell is Int || cell is Float
}

/// Writes a cell.
pub fn cell_to_string(cell: &Cell) -> (r: String)
    ensures
        r@ == cell_text(*cell),
{
    match cell {
        Cell::Empty => String::new(),
        Cell::Text(s) => s.clone(),
        Cell::Int(n) => signed_decimal(*n),
        Cell::Float(s) => s.clone(),
        Cell::Bool(b) => {
            if *b {
                "true".to_string()
            } else {
                "false".to_string()
            }
        },
        Cell::Moment(s) => s.clone(),
        Cell::Error(s) => {
            let mut out = "#ERR:".to_string();
            out.append(s.as_str());
            out
        },
    }
}

/// Tests whether a cell holds a number.
pub fn is_numeric_cell(cell: &Cell) -> (r: bool)
    ensures
        r == is_number(*cell),
{
    match cell {
        Cell::Int(_) => true,
        Cell::Float(_) => true,
        _ => false,
    }
}

/// A text on one line: line feeds become spaces.
pub open spec fn one_line(s: Seq<char>) -> Seq<char> {
    s.map_values(
        |c: char|
            if c == '\n' {
                ' '
            } else {
                c
            },
    )
}

fn flatten(s: &str) -> (r: String)
    ensures
        r@ == one_line(s@),
{
    let v = chars_of(s);
    let mut out = String::new();
    for i in 0..v.len()
        invariant
            v@ == s@,
            out@ == one_line(s@).take(i as int),
    {
        out.push(if v[i] == '\n' { ' ' } else { v[i] });
        assert(out@ =~= one_line(s@).take(i + 1));
    }
    assert(one_line(s@).take(s@.len() as int) =~= one_line(s@));
    out
}

/// What column `col` of a row shows; nothing where the row is shorter.
pub open spec fn shown_text(row: Seq<Cell>, col: int) -> Seq<char> {
    if col < row.len() {
        one_line(cell_text(row[col]))
    } else {
        Seq::empty()
    }
}

/// The views of some rows.
pub open spec fn rows_view(rows: Seq<Vec<Cell>>) -> Seq<Seq<Cell>> {
    rows.map_values(|r: Vec<Cell>| r@)
}

/// The width that column `col` asks for: that of its widest cell, between 3 and 40.
pub open spec fn wanted_width(rows: Seq<Seq<Cell>>, col: int) -> int
    decreases rows.len(),
{
    if rows.len() == 0 {
        3
    } else {
        let rest = wanted_width(rows.drop_last(), col);
        let here = columns::disp(shown_text(rows.last(), col)) as int;
        let wider = if here > rest {
            here
        } else {
            rest
        };
        if wider < 40 {
            wider
        } else {
            40
        }
    }
}

/// Every cell of column `col` below the header is a number or empty.
pub open spec fn is_numeric_column(rows: Seq<Seq<Cell>>, col: int) -> bool {
    forall|i: int|
        1 <= i < rows.len() && col < #[trigger] rows[i].len() ==> rows[i][col] is Empty || is_number(
            rows[i][col],
        )
}

/// Number of columns shown.
pub open spec fn visible_columns(total_cols: int, offset: int) -> int {
    let left = viewer::less(total_cols, offset);
    if left < 64 {
        left
    } else {
        64
    }
}

/// The rows that are shown: at most 5000 and the header.
pub open spec fn shown_rows(rows: Seq<Seq<Cell>>) -> Seq<Seq<Cell>> {
    if rows.len() <= 5001 {
        rows
    } else {
        rows.take(5001)
    }
}

/// The widths that the visible columns ask for.
pub open spec fn wanted_widths(rows: Seq<Seq<Cell>>, offset: int, n: int) -> Seq<usize> {
    Seq::new(n as nat, |ci: int| wanted_width(rows, offset + ci) as usize)
}

/// The widths that the visible columns get.
pub open spec fn fitted(wanted: Seq<usize>, max_w: int) -> Seq<usize> {
    choose|r: Seq<usize>| columns::is_fit(wanted, max_w, r)
}

proof fn lemma_fitted(wanted: Seq<usize>, max_w: int, r: Seq<usize>)
    requires
        columns::is_fit(wanted, max_w, r),
    ensures
        fitted(wanted, max_w) == r,
{
    columns::law_fit_is_unique(wanted, max_w, fitted(wanted, max_w), r);
}

// ── line numbers ────────────────────────────────────────────────────────────

/// The width of the column of line numbers: the digits of the largest one, a bar and a space.
pub open spec fn lineno_width(total_rows: int) -> int {
    columns::disp(text::decimal(total_rows)) as int + 2
}

proof fn lemma_digits_narrow(n: nat)
    ensures
        columns::disp(text::digits(n, 10)) == text::digits(n, 10).len(),
        text::digits(n, 10).len() >= 1,
        n <= u64::MAX ==> text::digits(n, 10).len() <= 20,
    decreases n,
{
    lemma_digits_short(n, 20);
    lemma_digits_disp(n);
}

proof fn lemma_digits_disp(n: nat)
    ensures
        columns::disp(text::digits(n, 10)) == text::digits(n, 10).len(),
        text::digits(n, 10).len() >= 1,
    decreases n,
{
    let s = text::digits(n, 10);
    if n < 10 {
        assert(s.drop_last() =~= Seq::empty());
        assert(columns::disp(s.drop_last()) == 0);
    } else {
        lemma_digits_disp(n / 10);
        assert(s.drop_last() =~= text::digits(n / 10, 10));
    }
}

/// A number below the `k`th power of ten has at most `k` digits.
proof fn lemma_digits_short(n: nat, k: nat)
    requires
        k >= 1,
    ensures
        n < vstd::arithmetic::power::pow(10, k) ==> text::digits(n, 10).len() <= k,
        k == 20 && n <= u64::MAX ==> text::digits(n, 10).len() <= 20,
    decreases k,
{
    vstd::arithmetic::power::lemma_pow1(10);
    if n >= 10 && k > 1 {
        lemma_digits_short(n / 10, (k - 1) as nat);
        vstd::arithmetic::power::lemma_pow_adds(10, (k - 1) as nat, 1);
        assert(n < vstd::arithmetic::power::pow(10, k) ==> n / 10 < vstd::arithmetic::power::pow(
            10,
            (k - 1) as nat,
        ));
    }
    if k == 20 {
        reveal_with_fuel(vstd::arithmetic::power::pow, 21);
        assert(vstd::arithmetic::power::pow(10, 20) == 100_000_000_000_000_000_000);
    }
}

/// The width of the column of line numbers.
pub fn line_no_col_width(total_rows: usize) -> (r: usize)
    ensures
        r == lineno_width(total_rows as int),
        3 <= r <= 22,
{
    proof {
        lemma_digits_narrow(total_rows as nat);
    }
    disp_w(decimal_of(total_rows as u64).as_str()) + 2
}

/// The line number of a row; blank for the header.
pub open spec fn lineno_span(row_no: Option<usize>, col_w: int) -> Span {
    let number = match row_no {
        Some(n) => text::decimal(n as int),
        None => ""@,
    };
    viewer::span(
        text::filled(number, (col_w - 2) as nat, ' ') + "\u{2502} "@,
        "darkgray"@,
        false,
    )
}

/// The line number of a row; blank for the header.
pub fn make_lineno_span(row_no: Option<usize>, col_w: usize) -> (r: ViewerSpan)
    requires
        col_w >= 2,
    ensures
        r@ == lineno_span(row_no, col_w as int),
{
    let number = match row_no {
        Some(n) => decimal_of(n as u64),
        None => "".to_string(),
    };
    let mut s = fill_left(number.as_str(), col_w - 2, ' ');
    s.append("\u{2502} ");
    sp(s.as_str(), "darkgray", false)
}

// ── the table ───────────────────────────────────────────────────────────────

/// A sheet: its rows, and its height and width. The rows may stop after those that are shown.
pub struct Sheet {
    pub rows: Vec<Vec<Cell>>,
    pub height: usize,
    pub width: usize,
}

/// How the columns of a table are laid out.
pub struct Layout {
    /// The first column shown.
    pub offset: int,
    /// The widths of the columns shown.
    pub widths: Seq<usize>,
    /// The width of the line numbers.
    pub lineno: int,
}

/// The layout of a sheet on a panel.
pub open spec fn layout(rows: Seq<Seq<Cell>>, height: int, width: int, offset: int, panel_w: int) -> Layout {
    let lineno = lineno_width(height);
    Layout {
        offset,
        widths: fitted(
            wanted_widths(rows, offset, visible_columns(width, offset)),
            viewer::less(panel_w, lineno),
        ),
        lineno,
    }
}

/// What a cell has to show in a column of width `w`: nothing where there is no width.
pub open spec fn text_within(row: Seq<Cell>, col: int, w: int) -> Seq<char> {
    if w == 0 {
        Seq::empty()
    } else {
        shown_text(row, col)
    }
}

/// A cell of the table. Numbers stand at the right, everything else at the left; the header
/// stands out.
pub open spec fn cell_span(rows: Seq<Seq<Cell>>, l: Layout, row: int, ci: int) -> Span {
    let w = l.widths[ci] as int;
    let s = text_within(rows[row], l.offset + ci, w);
    let numeric = is_numeric_column(rows, l.offset + ci);
    if row == 0 {
        viewer::span(columns::left_aligned(s, w), "lightcyan"@, true)
    } else if numeric {
        viewer::span(columns::right_aligned(s, w), "lightgreen"@, false)
    } else {
        viewer::span(columns::left_aligned(s, w), "white"@, false)
    }
}

/// The first `n` cells of a row with the separators between them.
pub open spec fn row_spans(rows: Seq<Seq<Cell>>, l: Layout, row: int, n: int) -> Seq<Span>
    decreases n,
{
    if n <= 0 {
        Seq::empty()
    } else if n == 1 {
        seq![cell_span(rows, l, row, 0)]
    } else {
        row_spans(rows, l, row, n - 1).push(viewer::span("  \u{2502}  "@, "darkgray"@, false)).push(
            cell_span(rows, l, row, n - 1),
        )
    }
}

/// A row of the table.
pub open spec fn row_line(rows: Seq<Seq<Cell>>, l: Layout, row: int) -> Seq<Span> {
    seq![
        lineno_span(
            if row == 0 {
                None
            } else {
                Some(row as usize)
            },
            l.lineno,
        ),
    ] + row_spans(rows, l, row, l.widths.len() as int)
}

/// The rule below the first `n` columns of the header.
pub open spec fn rule_spans(l: Layout, n: int) -> Seq<Span>
    decreases n,
{
    if n <= 0 {
        Seq::empty()
    } else {
        let bar = viewer::span(
            viewer::repeated("\u{2500}"@, l.widths[n - 1] as nat),
            "darkgray"@,
            false,
        );
        if n == 1 {
            seq![bar]
        } else {
            rule_spans(l, n - 1).push(
                viewer::span("\u{2500}\u{2500}\u{253C}\u{2500}\u{2500}"@, "darkgray"@, false),
            ).push(bar)
        }
    }
}

/// The line between the header and the rows below it.
pub open spec fn rule_line(l: Layout) -> Seq<Span> {
    seq![
        viewer::span(
            viewer::repeated(" "@, (l.lineno - 2) as nat) + "\u{253C}\u{2500}"@,
            "darkgray"@,
            false,
        ),
    ] + rule_spans(l, l.widths.len() as int)
}

/// The lines of the first `n` rows.
pub open spec fn table_lines(rows: Seq<Seq<Cell>>, l: Layout, n: int) -> Seq<Seq<Span>>
    decreases n,
{
    if n <= 0 {
        Seq::empty()
    } else if n == 1 {
        seq![row_line(rows, l, 0), rule_line(l)]
    } else {
        table_lines(rows, l, n - 1).push(row_line(rows, l, n - 1))
    }
}

/// The tabs of the sheets.
pub open spec fn tabs(names: Seq<Seq<char>>, selected: int) -> Seq<Span> {
    Seq::new(
        names.len(),
        |i: int|
            if i == selected {
                viewer::span("["@ + names[i] + "]"@, "lightcyan"@, true)
            } else {
                viewer::span(" "@ + columns::cut(names[i], 12) + " "@, "darkgray"@, false)
            },
    )
}

/// The status bar.
pub open spec fn status_line(
    names: Seq<Seq<char>>,
    selected: int,
    height: int,
    width: int,
    offset: usize,
) -> Seq<Span> {
    let visible = visible_columns(width, offset as int);
    let head = seq![
        viewer::span("XLSX"@, "yellow"@, true),
        viewer::span("  sheet: "@, "darkgray"@, false),
    ];
    let size = seq![
        viewer::span("  rows: "@, "darkgray"@, false),
        viewer::span(text::decimal(height), "cyan"@, false),
        viewer::span("  cols: "@, "darkgray"@, false),
        viewer::span(text::decimal(width), "cyan"@, false),
    ];
    let part = if offset > 0 || width > visible + offset {
        seq![
            viewer::span(
                "  col "@ + text::decimal(offset.wrapping_add(1) as int) + "-"@ + text::decimal(
                    offset + visible,
                ) + "/"@ + text::decimal(width),
                "lightyellow"@,
                false,
            ),
        ]
    } else {
        Seq::empty()
    };
    let sheet_keys = if names.len() > 1 {
        seq![viewer::span("  [tab/[/]] sheet"@, "darkgray"@, false)]
    } else {
        Seq::empty()
    };
    let column_keys = if width > visible {
        seq![viewer::span("  [</> \u{2190}/\u{2192}] cols"@, "darkgray"@, false)]
    } else {
        Seq::empty()
    };
    head + tabs(names, selected) + size + part + sheet_keys + column_keys
}

/// The line that tells of rows that are not shown.
pub open spec fn more_line(height: int) -> Seq<Span> {
    seq![
        viewer::span(
            "  \u{2026} showing first "@ + text::decimal(5000) + " of "@ + text::decimal(height) + " rows"@,
            "darkgray"@,
            false,
        ),
    ]
}

/// What is shown of a workbook with the sheets `names`, of which `requested` or the last one
/// is `sheet`.
pub open spec fn page(
    names: Seq<Seq<char>>,
    requested: int,
    sheet: Sheet,
    offset: usize,
    width: u64,
) -> Seq<Seq<Span>> {
    if names.len() == 0 {
        seq![
            seq![
                viewer::span("XLSX Viewer"@, "yellow"@, true),
                viewer::span("  Workbook has no sheets."@, "red"@, false),
            ],
        ]
    } else {
        let rows = shown_rows(rows_view(sheet.rows@));
        let l = layout(
            rows,
            sheet.height as int,
            sheet.width as int,
            offset as int,
            viewer::panel_width(width, 120) as int,
        );
        let status = status_line(
            names,
            viewer::clamped(requested, names.len() as int),
            sheet.height as int,
            sheet.width as int,
            offset,
        );
        let more = if sheet.height > 5000 {
            seq![more_line(sheet.height as int)]
        } else {
            Seq::empty()
        };
        seq![status, viewer::blank()] + table_lines(rows, l, rows.len() as int) + more
    }
}

fn shown_cell(row: &Vec<Cell>, col: usize) -> (r: String)
    ensures
        r@ == shown_text(row@, col as int),
{
    if col < row.len() {
        flatten(cell_to_string(&row[col]).as_str())
    } else {
        String::new()
    }
}

/// Number of rows shown.
fn shown_count(rows: &Vec<Vec<Cell>>) -> (r: usize)
    ensures
        r == shown_rows(rows_view(rows@)).len(),
        r <= rows@.len(),
        forall|i: int| 0 <= i < r ==> (#[trigger] rows@[i])@ == shown_rows(rows_view(rows@))[i],
{
    let n: usize = rows.len();
    if n <= 5001 {
        n
    } else {
        MAX_ROWS + 1
    }
}

fn column_width(rows: &Vec<Vec<Cell>>, count: usize, col: usize, Ghost(view): Ghost<Seq<Seq<Cell>>>) -> (r: usize)
    requires
        count <= rows@.len(),
        count == view.len(),
        forall|i: int| 0 <= i < count ==> (#[trigger] rows@[i])@ == view[i],
    ensures
        r == wanted_width(view, col as int),
        3 <= r <= 40,
{
    let mut w: usize = columns::MIN_COL_WIDTH;
    for i in 0..count
        invariant
            count <= rows@.len(),
            count == view.len(),
            forall|j: int| 0 <= j < count ==> (#[trigger] rows@[j])@ == view[j],
            w == wanted_width(view.take(i as int), col as int),
            3 <= w <= 40,
    {
        assert(view.take(i + 1).drop_last() =~= view.take(i as int));
        assert(rows@[i as int]@ == view[i as int]);
        let here: usize = disp_w(shown_cell(&rows[i], col).as_str());
        let wider: usize = if here > w { here } else { w };
        w = if wider < MAX_COL_WIDTH { wider } else { MAX_COL_WIDTH };
    }
    assert(view.take(view.len() as int) =~= view);
    w
}

fn column_is_numeric(rows: &Vec<Vec<Cell>>, count: usize, col: usize, Ghost(view): Ghost<Seq<Seq<Cell>>>) -> (r:
    bool)
    requires
        count <= rows@.len(),
        count == view.len(),
        forall|i: int| 0 <= i < count ==> (#[trigger] rows@[i])@ == view[i],
    ensures
        r == is_numeric_column(view, col as int),
{
    if count == 0 {
        return true;
    }
    for i in 1..count
        invariant
            count <= rows@.len(),
            count == view.len(),
            forall|j: int| 0 <= j < count ==> (#[trigger] rows@[j])@ == view[j],
            forall|j: int|
                1 <= j < i && col < #[trigger] view[j].len() ==> view[j][col as int] is Empty
                    || is_number(view[j][col as int]),
    {
        assert(rows@[i as int]@ == view[i as int]);
        if col < rows[i].len() {
            let empty = match &rows[i][col] {
                Cell::Empty => true,
                _ => false,
            };
            if !empty && !is_numeric_cell(&rows[i][col]) {
                assert(col < view[i as int].len());
                return false;
            }
        }
    }
    true
}

fn cell_at(row: &Vec<Cell>, col: usize, w: usize, header: bool, numeric: bool) -> (r: ViewerSpan)
    ensures
        r@ == ({
            let s = text_within(row@, col as int, w as int);
            if header {
                viewer::span(columns::left_aligned(s, w as int), "lightcyan"@, true)
            } else if numeric {
                viewer::span(columns::right_aligned(s, w as int), "lightgreen"@, false)
            } else {
                viewer::span(columns::left_aligned(s, w as int), "white"@, false)
            }
        }),
{
    let s = if w == 0 {
        String::new()
    } else {
        shown_cell(row, col)
    };
    if header {
        sp(pad_right(s.as_str(), w).as_str(), "lightcyan", true)
    } else if numeric {
        sp(pad_left(s.as_str(), w).as_str(), "lightgreen", false)
    } else {
        sp(pad_right(s.as_str(), w).as_str(), "white", false)
    }
}

fn render_row(
    row: &Vec<Cell>,
    number: usize,
    offset: usize,
    widths: &Vec<usize>,
    numeric: &Vec<bool>,
    lineno: usize,
    Ghost(rows): Ghost<Seq<Seq<Cell>>>,
    Ghost(l): Ghost<Layout>,
) -> (r: ViewerLine)
    requires
        number < rows.len(),
        row@ == rows[number as int],
        l.offset == offset,
        l.widths == widths@,
        l.lineno == lineno,
        lineno >= 2,
        numeric@.len() == widths@.len(),
        offset + widths@.len() <= usize::MAX,
        forall|i: int|
            0 <= i < numeric@.len() ==> #[trigger] numeric@[i] == is_numeric_column(rows, offset + i),
    ensures
        r@ == row_line(rows, l, number as int),
{
    let mut spans: Vec<ViewerSpan> = Vec::new();
    add_span(&mut spans, make_lineno_span(if number == 0 { None } else { Some(number) }, lineno));
    let ghost first = viewer::spans_of(spans@);
    assert(first =~= first + row_spans(rows, l, number as int, 0));
    for ci in 0..widths.len()
        invariant
            number < rows.len(),
            row@ == rows[number as int],
            l.offset == offset,
            l.widths == widths@,
            numeric@.len() == widths@.len(),
            offset + widths@.len() <= usize::MAX,
            forall|i: int|
                0 <= i < numeric@.len() ==> #[trigger] numeric@[i] == is_numeric_column(rows, offset + i),
            viewer::spans_of(spans@) == first + row_spans(rows, l, number as int, ci as int),
    {
        let ghost before = viewer::spans_of(spans@);
        if ci > 0 {
            add_span(&mut spans, sp("  \u{2502}  ", "darkgray", false));
        }
        add_span(&mut spans, cell_at(row, offset + ci, widths[ci], number == 0, numeric[ci]));
        assert(viewer::spans_of(spans@) =~= first + row_spans(rows, l, number as int, ci + 1));
    }
    assert(viewer::spans_of(spans@) =~= row_line(rows, l, number as int));
    ViewerLine { spans }
}

fn render_rule(widths: &Vec<usize>, lineno: usize, Ghost(l): Ghost<Layout>) -> (r: ViewerLine)
    requires
        l.widths == widths@,
        l.lineno == lineno,
        lineno >= 2,
    ensures
        r@ == rule_line(l),
{
    let mut spans: Vec<ViewerSpan> = Vec::new();
    let mut corner = repeat(" ", lineno - 2);
    corner.append("\u{253C}\u{2500}");
    add_span(&mut spans, sp(corner.as_str(), "darkgray", false));
    let ghost first = viewer::spans_of(spans@);
    assert(first =~= first + rule_spans(l, 0));
    for ci in 0..widths.len()
        invariant
            l.widths == widths@,
            viewer::spans_of(spans@) == first + rule_spans(l, ci as int),
    {
        if ci > 0 {
            add_span(&mut spans, sp("\u{2500}\u{2500}\u{253C}\u{2500}\u{2500}", "darkgray", false));
        }
        add_span(&mut spans, sp(repeat("\u{2500}", widths[ci]).as_str(), "darkgray", false));
        assert(viewer::spans_of(spans@) =~= first + rule_spans(l, ci + 1));
    }
    assert(viewer::spans_of(spans@) =~= rule_line(l));
    ViewerLine { spans }
}

#[verifier::spinoff_prover]
#[verifier::rlimit(40)]
fn render_status(names: &Vec<String>, selected: usize, height: usize, width: usize, offset: usize) -> (r:
    ViewerLine)
    ensures
        r@ == status_line(
            text::texts(names@),
            selected as int,
            height as int,
            width as int,
            offset,
        ),
{
    let ghost all = text::texts(names@);
    let left: usize = if width < offset { 0 } else { width - offset };
    let visible: usize = if left < MAX_COLS { left } else { MAX_COLS };
    let mut spans: Vec<ViewerSpan> = Vec::new();
    add_span(&mut spans, sp("XLSX", "yellow", true));
    add_span(&mut spans, sp("  sheet: ", "darkgray", false));
    let ghost head = viewer::spans_of(spans@);
    let ghost wanted = tabs(all, selected as int);
    assert(head =~= head + wanted.take(0));
    for i in 0..names.len()
        invariant
            all == text::texts(names@),
            wanted == tabs(all, selected as int),
            viewer::spans_of(spans@) == head + wanted.take(i as int),
    {
        assert(all[i as int] == names@[i as int]@);
        if i == selected {
            let mut tab = "[".to_string();
            tab.append(names[i].as_str());
            tab.append("]");
            add_span(&mut spans, sp(tab.as_str(), "lightcyan", true));
        } else {
            let mut tab = " ".to_string();
            tab.append(truncate(names[i].as_str(), 12).as_str());
            tab.append(" ");
            add_span(&mut spans, sp(tab.as_str(), "darkgray", false));
        }
        assert(wanted.take(i + 1) =~= wanted.take(i as int).push(wanted[i as int]));
        assert(viewer::spans_of(spans@) =~= head + wanted.take(i + 1));
    }
    assert(wanted.take(wanted.len() as int) =~= wanted);
    add_span(&mut spans, sp("  rows: ", "darkgray", false));
    add_span(&mut spans, sp(decimal_of(height as u64).as_str(), "cyan", false));
    add_span(&mut spans, sp("  cols: ", "darkgray", false));
    add_span(&mut spans, sp(decimal_of(width as u64).as_str(), "cyan", false));
    if offset > 0 || width > visible + offset {
        let mut part = "  col ".to_string();
        part.append(decimal_of(offset.wrapping_add(1) as u64).as_str());
        part.append("-");
        part.append(decimal_of((offset + visible) as u64).as_str());
        part.append("/");
        part.append(decimal_of(width as u64).as_str());
        add_span(&mut spans, sp(part.as_str(), "lightyellow", false));
    }
    if names.len() > 1 {
        add_span(&mut spans, sp("  [tab/[/]] sheet", "darkgray", false));
    }
    if width > visible {
        add_span(&mut spans, sp("  [</> \u{2190}/\u{2192}] cols", "darkgray", false));
    }
    assert(viewer::spans_of(spans@) =~= status_line(
        all,
        selected as int,
        height as int,
        width as int,
        offset,
    ));
    ViewerLine { spans }
}

proof fn lemma_total_small(w: Seq<usize>)
    requires
        w.len() <= 64,
        forall|i: int| 0 <= i < w.len() ==> #[trigger] w[i] <= 40,
    ensures
        0 <= columns::sum(w) <= 40 * w.len(),
        columns::total(w) <= 4000,
    decreases w.len(),
{
    if w.len() > 0 {
        let v = w.drop_last();
        assert forall|i: int| 0 <= i < v.len() implies #[trigger] v[i] <= 40 by {
            assert(v[i] == w[i]);
        }
        lemma_total_small(v);
        assert(w[w.len() - 1] <= 40);
    }
}

/// The sheet and the first column that a state asks for.
pub fn requested_place(state_json: &str) -> (r: (usize, usize))
    ensures
        r.0 == state::index_in(state::state_of(state_json@), "sheet"@, 0),
        r.1 == state::index_in(state::state_of(state_json@), "col_offset"@, 0),
{
    let current = parse_state(state_json);
    (state_u(&current, "sheet", 0), state_u(&current, "col_offset", 0))
}

/// Shows the requested sheet of a workbook, or its last one, from column `offset` on.
pub fn render_document(
    names: &Vec<String>,
    requested: usize,
    sheet: &Sheet,
    offset: usize,
    width: u64,
) -> (r: Vec<ViewerLine>)
    ensures
        viewer::lines_view(r@) == page(
            text::texts(names@),
            requested as int,
            *sheet,
            offset,
            width,
        ),
{
    let mut out: Vec<ViewerLine> = Vec::new();
    assert(text::texts(names@).len() == names@.len());
    if names.len() == 0 {
        add_line(
            &mut out,
            line2(sp("XLSX Viewer", "yellow", true), sp("  Workbook has no sheets.", "red", false)),
        );
        assert(viewer::lines_view(out@) =~= page(
            text::texts(names@),
            requested as int,
            *sheet,
            offset,
            width,
        ));
        return out;
    }
    let selected: usize = clamp_index(requested, names.len());
    let panel_w: usize = panel(width, 120);
    let ghost rows = shown_rows(rows_view(sheet.rows@));
    let count: usize = shown_count(&sheet.rows);
    let left: usize = if sheet.width < offset { 0 } else { sheet.width - offset };
    let visible: usize = if left < MAX_COLS { left } else { MAX_COLS };
    let mut widths: Vec<usize> = Vec::new();
    let mut numeric: Vec<bool> = Vec::new();
    for ci in 0..visible
        invariant
            rows == shown_rows(rows_view(sheet.rows@)),
            count == rows.len(),
            count <= sheet.rows@.len(),
            forall|i: int| 0 <= i < count ==> (#[trigger] sheet.rows@[i])@ == rows[i],
            visible <= 64,
            visible > 0 ==> offset + visible <= sheet.width,
            widths@.len() == ci,
            numeric@.len() == ci,
            forall|i: int| 0 <= i < ci ==> #[trigger] widths@[i] == wanted_width(rows, offset + i),
            forall|i: int| 0 <= i < ci ==> #[trigger] widths@[i] <= 40,
            forall|i: int| 0 <= i < ci ==> #[trigger] numeric@[i] == is_numeric_column(rows, offset + i),
    {
        widths.push(column_width(&sheet.rows, count, offset + ci, Ghost(rows)));
        numeric.push(column_is_numeric(&sheet.rows, count, offset + ci, Ghost(rows)));
    }
    let lineno: usize = line_no_col_width(sheet.height);
    let table_w: usize = if panel_w < lineno { 0 } else { panel_w - lineno };
    proof {
        lemma_total_small(widths@);
        assert(widths@ =~= wanted_widths(rows, offset as int, visible as int));
    }
    let fit = fit_widths(widths.as_slice(), table_w);
    let ghost l = layout(
        rows,
        sheet.height as int,
        sheet.width as int,
        offset as int,
        panel_w as int,
    );
    proof {
        lemma_fitted(widths@, table_w as int, fit@);
        columns::law_fit_shrinks(widths@, table_w as int, fit@);
        assert(l.widths == fit@);
    }
    add_line(&mut out, render_status(names, selected, sheet.height, sheet.width, offset));
    add_line(&mut out, blank_line());
    let ghost head = viewer::lines_view(out@);
    assert(head =~= head + table_lines(rows, l, 0));
    for i in 0..count
        invariant
            rows == shown_rows(rows_view(sheet.rows@)),
            count == rows.len(),
            count <= sheet.rows@.len(),
            forall|j: int| 0 <= j < count ==> (#[trigger] sheet.rows@[j])@ == rows[j],
            l.offset == offset,
            l.widths == fit@,
            l.lineno == lineno,
            lineno >= 2,
            numeric@.len() == fit@.len(),
            offset + fit@.len() <= usize::MAX,
            forall|j: int|
                0 <= j < numeric@.len() ==> #[trigger] numeric@[j] == is_numeric_column(rows, offset + j),
            viewer::lines_view(out@) == head + table_lines(rows, l, i as int),
    {
        assert(sheet.rows@[i as int]@ == rows[i as int]);
        add_line(
            &mut out,
            render_row(&sheet.rows[i], i, offset, &fit, &numeric, lineno, Ghost(rows), Ghost(l)),
        );
        if i == 0 {
            add_line(&mut out, render_rule(&fit, lineno, Ghost(l)));
        }
        assert(viewer::lines_view(out@) =~= head + table_lines(rows, l, i + 1));
    }
    if sheet.height > MAX_ROWS {
        let mut more = "  \u{2026} showing first ".to_string();
        more.append(decimal_of(MAX_ROWS as u64).as_str());
        more.append(" of ");
        more.append(decimal_of(sheet.height as u64).as_str());
        more.append(" rows");
        add_line(&mut out, line1(sp(more.as_str(), "darkgray", false)));
    }
    assert(viewer::lines_view(out@) =~= page(
        text::texts(names@),
        requested as int,
        *sheet,
        offset,
        width,
    ));
    out
}

// ── keys ────────────────────────────────────────────────────────────────────

/// The place in a workbook: sheet and first column.
pub struct Place {
    pub sheet: i64,
    pub col: i64,
}

/// The number, but not below zero.
pub open spec fn at_least_zero(n: i64) -> i64 {
    if n < 0 {
        0
    } else {
        n
    }
}

/// The place that a key leads to, in a workbook of `sheets` sheets whose current sheet has
/// `cols` columns; none for a key that means nothing here.
pub open spec fn moved(key: Seq<char>, at: Place, sheets: i64, cols: i64) -> Option<Place> {
    if key == "tab"@ || key == "char:]]"@ || key == "char:]"@ {
        let next = at.sheet.wrapping_add(1);
        let last = sheets.wrapping_sub(1);
        Some(
            Place {
                sheet: if next < last {
                    next
                } else {
                    last
                },
                ..at
            },
        )
    } else if key == "backtab"@ || key == "char:[["@ || key == "char:["@ {
        Some(Place { sheet: at_least_zero(at.sheet.wrapping_sub(1)), ..at })
    } else if key == "right"@ || key == "char:>"@ {
        let next = at.col.wrapping_add(1);
        let last = at_least_zero(cols.wrapping_sub(1));
        Some(
            Place {
                col: if next < last {
                    next
                } else {
                    last
                },
                ..at
            },
        )
    } else if key == "left"@ || key == "char:<"@ {
        Some(Place { col: at_least_zero(at.col.wrapping_sub(1)), ..at })
    } else if key == "home"@ {
        Some(Place { col: 0, ..at })
    } else {
        None
    }
}

/// The place that a key leads to; none for a key that means nothing here.
pub fn move_by(key: &str, at: Place, sheets: i64, cols: i64) -> (r: Option<Place>)
    ensures
        r == moved(key@, at, sheets, cols),
{
    if same_text(key, "tab") || same_text(key, "char:]]") || same_text(key, "char:]") {
        let next: i64 = at.sheet.wrapping_add(1);
        let last: i64 = sheets.wrapping_sub(1);
        Some(Place { sheet: if next < last { next } else { last }, col: at.col })
    } else if same_text(key, "backtab") || same_text(key, "char:[[") || same_text(key, "char:[") {
        let previous: i64 = at.sheet.wrapping_sub(1);
        Some(Place { sheet: if previous < 0 { 0 } else { previous }, col: at.col })
    } else if same_text(key, "right") || same_text(key, "char:>") {
        let next: i64 = at.col.wrapping_add(1);
        let end: i64 = cols.wrapping_sub(1);
        let last: i64 = if end < 0 { 0 } else { end };
        Some(Place { sheet: at.sheet, col: if next < last { next } else { last } })
    } else if same_text(key, "left") || same_text(key, "char:<") {
        let previous: i64 = at.col.wrapping_sub(1);
        Some(Place { sheet: at.sheet, col: if previous < 0 { 0 } else { previous } })
    } else if same_text(key, "home") {
        Some(Place { sheet: at.sheet, col: 0 })
    } else {
        None
    }
}

/// The sheets of the workbook and the columns of its current sheet; one sheet without columns
/// where the workbook cannot be opened.
pub open spec fn extent(book: Option<(usize, usize)>) -> (i64, i64) {
    match book {
        Some((sheets, cols)) => (sheets as i64, cols as i64),
        None => (1, 0),
    }
}

/// A state with the given place in it.
pub open spec fn with_place(before: json::Json, at: Place) -> json::Json {
    state::with_text(
        state::with_text(before, "sheet"@, text::decimal(at_least_zero(at.sheet) as int)),
        "col_offset"@,
        text::decimal(at_least_zero(at.col) as int),
    )
}

/// Handles a key. `book` are the sheets of the workbook and the columns of its current sheet.
/// The new state holds the new place, and the next call finds it there, with everything else
/// that the state held.
pub fn handle_key(key: &str, state_json: &str, book: Option<(usize, usize)>) -> (r: ViewerHandleKeyResult)
    ensures
        ({
            let before = state::state_of(state_json@);
            let at = Place {
                sheet: state::index_in(before, "sheet"@, 0) as i64,
                col: state::index_in(before, "col_offset"@, 0) as i64,
            };
            let (sheets, cols) = extent(book);
            let next = match moved(key@, at, sheets, cols) {
                Some(p) => p,
                None => at,
            };
            &&& r.consumed == (moved(key@, at, sheets, cols) is Some)
            &&& r.state_json@ == json::json_text(with_place(before, next))
            &&& at_least_zero(next.sheet) <= usize::MAX ==> state::index_in(
                state::state_of(r.state_json@),
                "sheet"@,
                0,
            ) == at_least_zero(next.sheet)
            &&& at_least_zero(next.col) <= usize::MAX ==> state::index_in(
                state::state_of(r.state_json@),
                "col_offset"@,
                0,
            ) == at_least_zero(next.col)
            &&& forall|k: Seq<char>|
                k != "sheet"@ && k != "col_offset"@ ==> #[trigger] json::keeps_field(
                    before,
                    state::state_of(r.state_json@),
                    k,
                )
        }),
{
    let mut current = parse_state(state_json);
    let ghost before = json::model(current);
    let sheet: i64 = state_u(&current, "sheet", 0) as i64;
    let col: i64 = state_u(&current, "col_offset", 0) as i64;
    let (sheets, cols): (i64, i64) = match book {
        Some((sheets, cols)) => (sheets as i64, cols as i64),
        None => (1, 0),
    };
    let (consumed, next) = match move_by(key, Place { sheet, col }, sheets, cols) {
        Some(p) => (true, p),
        None => (false, Place { sheet, col }),
    };
    let new_sheet: i64 = if next.sheet < 0 { 0 } else { next.sheet };
    let new_col: i64 = if next.col < 0 { 0 } else { next.col };
    put_text(&mut current, "sheet", signed_decimal(new_sheet).as_str());
    put_text(&mut current, "col_offset", signed_decimal(new_col).as_str());
    let state_json = write_state(&current);
    proof {
        reveal_strlit("sheet");
        reveal_strlit("col_offset");
        assert("sheet"@.len() != "col_offset"@.len());
        let after = state::state_of(state_json@);
        let middle = state::with_text(before, "sheet"@, text::decimal(new_sheet as int));
        state::lemma_text_put(middle, "col_offset"@, text::decimal(new_col as int), after);
        assert(json::keeps_field(middle, after, "sheet"@));
        assert forall|k: Seq<char>| k != "sheet"@ && k != "col_offset"@ implies
            #[trigger] json::keeps_field(before, after, k) by {
            assert(json::keeps_field(middle, after, k));
        }
        if new_sheet <= usize::MAX {
            state::law_stored_index_is_read(after, "sheet"@, new_sheet as nat, 0);
        }
        if new_col <= usize::MAX {
            state::law_stored_index_is_read(after, "col_offset"@, new_col as nat, 0);
        }
    }
    ViewerHandleKeyResult { consumed, state_json }
}

/// Within a workbook no key leads out of it.
pub proof fn law_place_stays_in_the_workbook(key: Seq<char>, at: Place, sheets: i64, cols: i64)
    requires
        0 <= at.sheet < sheets,
        0 <= at.col < cols,
    ensures
        moved(key, at, sheets, cols) matches Some(p) ==> 0 <= p.sheet < sheets && 0 <= p.col < cols,
{
}

/// Every column of the table takes the columns it was given, so the columns of all rows stand
/// below each other. A number that starts with an emoji selector is the exception.
pub proof fn law_cells_fill_their_columns(rows: Seq<Seq<Cell>>, l: Layout, row: int, ci: int)
    requires
        0 <= ci < l.widths.len(),
        shown_text(rows[row], l.offset + ci).len() > 0 ==> !columns::is_emoji_selector(
            shown_text(rows[row], l.offset + ci)[0],
        ),
    ensures
        columns::disp(cell_span(rows, l, row, ci).text) == l.widths[ci],
{
    let w = l.widths[ci] as int;
    let s = text_within(rows[row], l.offset + ci, w);
    if w == 0 {
        assert(columns::disp(s) == 0);
    } else {
        columns::law_left_aligned_fills_the_column(s, w);
        columns::law_right_aligned_fills_the_column(s, w);
    }
}

// ── laws of the cells ───────────────────────────────────────────────────────

/// What a cell is written as: texts, decimals and dates as they are, whole numbers in decimal digits
/// with a minus sign below zero.
pub proof fn law_cells_are_written_out(cell: Cell)
    ensures
        cell is Empty ==> cell_text(cell).len() == 0,
        cell matches Cell::Text(s) ==> cell_text(cell) == s@,
        cell matches Cell::Float(s) ==> cell_text(cell) == s@,
        cell matches Cell::Moment(s) ==> cell_text(cell) == s@,
        cell matches Cell::Bool(b) ==> cell_text(cell) == (if b {
            seq!['t', 'r', 'u', 'e']
        } else {
            seq!['f', 'a', 'l', 's', 'e']
        }),
        cell matches Cell::Error(s) ==> cell_text(cell) == seq!['#', 'E', 'R', 'R', ':'] + s@,
        cell matches Cell::Int(n) ==> n >= 0 ==> text::value_in_base(cell_text(cell), 10) == n,
        cell matches Cell::Int(n) ==> n < 0 ==> cell_text(cell)[0] == '-' && text::value_in_base(
            cell_text(cell).skip(1),
            10,
        ) == -n,
{
    reveal_strlit("true");
    reveal_strlit("false");
    reveal_strlit("#ERR:");
    match cell {
        Cell::Bool(b) => {
            assert("true"@ =~= seq!['t', 'r', 'u', 'e']);
            assert("false"@ =~= seq!['f', 'a', 'l', 's', 'e']);
        },
        Cell::Error(s) => {
            assert("#ERR:"@ =~= seq!['#', 'E', 'R', 'R', ':']);
        },
        Cell::Int(n) => {
            if n >= 0 {
                text::law_digits_stand_for_the_number(n as nat, 10);
            } else {
                let d = text::digits((-n) as nat, 10);
                text::law_digits_stand_for_the_number((-n) as nat, 10);
                assert((seq!['-'] + d).skip(1) =~= d);
            }
        },
        _ => {},
    }
}

/// The text that is shown for a cell is the text of the cell, character by character; only line
/// feeds are spaces. Beyond the end of a row nothing is shown.
pub proof fn law_shown_text_is_the_text_of_the_cell(row: Seq<Cell>, col: int)
    requires
        0 <= col,
    ensures
        col < row.len() ==> {
            let t = cell_text(row[col]);
            &&& shown_text(row, col).len() == t.len()
            &&& forall|i: int|
                0 <= i < t.len() ==> #[trigger] shown_text(row, col)[i] == (if t[i] == '\n' {
                    ' '
                } else {
                    t[i]
                })
            &&& !t.contains('\n') ==> shown_text(row, col) == t
        },
        col >= row.len() ==> shown_text(row, col).len() == 0,
{
    if col < row.len() {
        let t = cell_text(row[col]);
        if !t.contains('\n') {
            assert forall|i: int| 0 <= i < t.len() implies shown_text(row, col)[i] == t[i] by {
                assert(t.contains(t[i]));
            }
            assert(shown_text(row, col) =~= t);
        }
    }
}

/// A column below whose header there are numbers only, and cells without content.
pub open spec fn has_numbers_only(rows: Seq<Seq<Cell>>, col: int) -> bool {
    forall|i: int|
        1 <= i < rows.len() && col < rows[i].len() ==> (#[trigger] rows[i][col]) is Int || rows[i][col] is Float
            || rows[i][col] is Empty
}

/// A cell that fits its column is shown whole, with spaces behind it; below the header of a column
/// of numbers with spaces before it.
pub proof fn law_cells_that_fit_are_shown_whole(rows: Seq<Seq<Cell>>, l: Layout, row: int, ci: int)
    requires
        0 <= row < rows.len(),
        0 <= ci < l.widths.len(),
        0 <= l.offset,
        l.offset + ci < rows[row].len(),
        !cell_text(rows[row][l.offset + ci]).contains('\n'),
        columns::disp(cell_text(rows[row][l.offset + ci])) <= l.widths[ci],
        l.widths[ci] > 0,
    ensures
        ({
            let t = cell_text(rows[row][l.offset + ci]);
            let pad = Seq::new((l.widths[ci] - columns::disp(t)) as nat, |i: int| ' ');
            cell_span(rows, l, row, ci).text == (if row > 0 && has_numbers_only(rows, l.offset + ci) {
                pad + t
            } else {
                t + pad
            })
        }),
{
    let col = l.offset + ci;
    let t = cell_text(rows[row][col]);
    law_shown_text_is_the_text_of_the_cell(rows[row], col);
    columns::law_short_text_is_filled_with_spaces(t, l.widths[ci] as int);
    assert(has_numbers_only(rows, col) <==> is_numeric_column(rows, col)) by {
        if has_numbers_only(rows, col) {
            assert forall|i: int| 1 <= i < rows.len() && col < #[trigger] rows[i].len() implies rows[i][col]
                is Empty || is_number(rows[i][col]) by {
                assert(rows[i][col] is Int || rows[i][col] is Float || rows[i][col] is Empty);
            }
        }
        if is_numeric_column(rows, col) {
            assert forall|i: int| 1 <= i < rows.len() && col < rows[i].len() implies (#[trigger] rows[i][col])
                is Int || rows[i][col] is Float || rows[i][col] is Empty by {
                assert(rows[i].len() > col);
            }
        }
    }
}

proof fn lemma_row_spans(rows: Seq<Seq<Cell>>, l: Layout, row: int, n: int, ci: int)
    requires
        0 <= ci < n,
    ensures
        ({
            let spans = row_spans(rows, l, row, n);
            &&& spans.len() == 2 * n - 1
            &&& spans[2 * ci] == cell_span(rows, l, row, ci)
            &&& ci > 0 ==> spans[2 * ci - 1].text == "  \u{2502}  "@
        }),
    decreases n,
{
    if n > 1 {
        if ci < n - 1 {
            lemma_row_spans(rows, l, row, n - 1, ci);
        } else {
            lemma_row_spans(rows, l, row, n - 1, 0);
        }
    }
}

proof fn lemma_table_lines(rows: Seq<Seq<Cell>>, l: Layout, n: int, k: int)
    requires
        0 <= k < n,
    ensures
        table_lines(rows, l, n).len() == n + 1,
        table_lines(rows, l, n)[if k == 0 {
            0
        } else {
            k + 1
        }] == row_line(rows, l, k),
        table_lines(rows, l, n)[1] == rule_line(l),
    decreases n,
{
    if n > 1 {
        if k < n - 1 {
            lemma_table_lines(rows, l, n - 1, k);
        } else {
            lemma_table_lines(rows, l, n - 1, 0);
        }
    }
}

/// Below the status bar and a blank line a page has the header, a rule, and then the rows of the
/// sheet, one line each. A line has its number and then the cells of its row, with a rule between
/// each and the next.
pub proof fn law_page_shows_row_by_row(
    names: Seq<Seq<char>>,
    requested: int,
    sheet: Sheet,
    offset: usize,
    width: u64,
    k: int,
    ci: int,
)
    requires
        names.len() > 0,
        0 <= k < sheet.rows@.len(),
        k <= 5000,
        ({
            let l = layout(
                shown_rows(rows_view(sheet.rows@)),
                sheet.height as int,
                sheet.width as int,
                offset as int,
                viewer::panel_width(width, 120) as int,
            );
            0 <= ci < l.widths.len()
        }),
    ensures
        ({
            let rows = shown_rows(rows_view(sheet.rows@));
            let l = layout(
                rows,
                sheet.height as int,
                sheet.width as int,
                offset as int,
                viewer::panel_width(width, 120) as int,
            );
            let line = page(names, requested, sheet, offset, width)[if k == 0 {
                2
            } else {
                k + 3
            }];
            &&& rows[k] == sheet.rows@[k]@
            &&& line.len() == 2 * l.widths.len()
            &&& line[1 + 2 * ci] == cell_span(rows, l, k, ci)
            &&& ci > 0 ==> line[2 * ci].text == "  \u{2502}  "@
            &&& l.offset == offset
        }),
{
    let rows = shown_rows(rows_view(sheet.rows@));
    let l = layout(
        rows,
        sheet.height as int,
        sheet.width as int,
        offset as int,
        viewer::panel_width(width, 120) as int,
    );
    assert(rows_view(sheet.rows@)[k] == sheet.rows@[k]@);
    lemma_table_lines(rows, l, rows.len() as int, k);
    lemma_row_spans(rows, l, k, l.widths.len() as int, ci);
}

/// The lines are numbered as the rows below the header are, from one; the header has no number.
pub proof fn law_rows_are_numbered(rows: Seq<Seq<Cell>>, l: Layout, k: int)
    requires
        0 <= k <= usize::MAX,
        l.lineno >= 2,
    ensures
        ({
            let t = row_line(rows, l, k)[0].text;
            let number = text::decimal(k);
            let n = t.len() as int;
            &&& n >= 2 && t[n - 2] == '\u{2502}' && t[n - 1] == ' '
            &&& k > 0 ==> n >= number.len() + 2 && t.subrange(n - 2 - number.len(), n - 2) == number
            &&& k == 0 ==> forall|i: int| 0 <= i < n - 2 ==> #[trigger] t[i] == ' '
        }),
{
    reveal_strlit("\u{2502} ");
    reveal_strlit("");
    let number = if k == 0 {
        ""@
    } else {
        text::decimal(k)
    };
    let filled = text::filled(number, (l.lineno - 2) as nat, ' ');
    text::law_filled_text_ends_with_the_text(number, (l.lineno - 2) as nat, ' ');
    let t = row_line(rows, l, k)[0].text;
    assert(t =~= filled + "\u{2502} "@);
    let n = t.len() as int;
    assert(t.subrange(n - 2 - number.len(), n - 2) =~= filled.skip(filled.len() - number.len()));
}

/// A column is as wide as its widest text, but at least three and at most forty columns.
pub proof fn law_columns_are_as_wide_as_their_texts(rows: Seq<Seq<Cell>>, col: int, i: int)
    requires
        0 <= i < rows.len(),
    ensures
        3 <= wanted_width(rows, col) <= 40,
        columns::disp(shown_text(rows[i], col)) <= wanted_width(rows, col) || wanted_width(rows, col) == 40,
        wanted_width(rows, col) == 3 || exists|j: int|
            0 <= j < rows.len() && columns::disp(#[trigger] shown_text(rows[j], col)) >= wanted_width(rows, col),
    decreases rows.len(),
{
    let head = rows.drop_last();
    lemma_width_bounds(rows, col);
    if head.len() > 0 {
        let k = if i < head.len() {
            i
        } else {
            0
        };
        law_columns_are_as_wide_as_their_texts(head, col, k);
        assert(head[k] == rows[k]);
        if wanted_width(head, col) > 3 {
            let j = choose|j: int|
                0 <= j < head.len() && columns::disp(#[trigger] shown_text(head[j], col)) >= wanted_width(
                    head,
                    col,
                );
            assert(head[j] == rows[j]);
            assert(columns::disp(shown_text(rows[j], col)) >= wanted_width(head, col));
        }
    } else {
        assert(wanted_width(head, col) == 3);
    }
    assert(rows[rows.len() - 1] == rows.last());
    assert(columns::disp(shown_text(rows[rows.len() - 1], col)) >= 0);
}

proof fn lemma_width_bounds(rows: Seq<Seq<Cell>>, col: int)
    ensures
        3 <= wanted_width(rows, col) <= 40,
    decreases rows.len(),
{
    if rows.len() > 0 {
        lemma_width_bounds(rows.drop_last(), col);
    }
}

/// From the first shown column on all columns are shown, or 64 of them.
pub proof fn law_columns_from_the_offset_are_shown(total_cols: int, offset: int)
    requires
        0 <= offset <= total_cols,
    ensures
        0 <= visible_columns(total_cols, offset) <= 64,
        offset + visible_columns(total_cols, offset) <= total_cols,
        visible_columns(total_cols, offset) == 64 || offset + visible_columns(total_cols, offset) == total_cols,
{
}

/// Each sheet has its tab, in order; the selected one, and only that, is bold and in brackets.
pub proof fn law_selected_sheet_is_marked(names: Seq<Seq<char>>, selected: int, i: int)
    requires
        0 <= i < names.len(),
    ensures
        tabs(names, selected).len() == names.len(),
        tabs(names, selected)[i].bold == (i == selected),
        i == selected ==> tabs(names, selected)[i].text == seq!['['] + names[i] + seq![']'],
        i != selected && columns::disp(names[i]) <= 12 ==> tabs(names, selected)[i].text == seq![' '] + names[i]
            + seq![' '],
{
    reveal_strlit("[");
    reveal_strlit("]");
    reveal_strlit(" ");
    assert("["@ =~= seq!['[']);
    assert("]"@ =~= seq![']']);
    assert(" "@ =~= seq![' ']);
}

// ── laws of the keys ────────────────────────────────────────────────────────

/// Each key moves to its place: to the next sheet or column or the one before, as long as there is
/// one, or to the first column. It changes nothing else, and any other key moves nowhere.
pub proof fn law_keys_move_to_their_place(key: Seq<char>, at: Place, sheets: i64, cols: i64)
    requires
        0 <= at.sheet < sheets,
        0 <= at.col < cols,
    ensures
        key == "tab"@ || key == "char:]]"@ || key == "char:]"@ ==> moved(key, at, sheets, cols) == Some(
            Place {
                sheet: if at.sheet + 1 < sheets {
                    (at.sheet + 1) as i64
                } else {
                    at.sheet
                },
                col: at.col,
            },
        ),
        key == "backtab"@ || key == "char:[["@ || key == "char:["@ ==> moved(key, at, sheets, cols) == Some(
            Place {
                sheet: if at.sheet > 0 {
                    (at.sheet - 1) as i64
                } else {
                    0
                },
                col: at.col,
            },
        ),
        key == "right"@ || key == "char:>"@ ==> moved(key, at, sheets, cols) == Some(
            Place {
                sheet: at.sheet,
                col: if at.col + 1 < cols {
                    (at.col + 1) as i64
                } else {
                    at.col
                },
            },
        ),
        key == "left"@ || key == "char:<"@ ==> moved(key, at, sheets, cols) == Some(
            Place {
                sheet: at.sheet,
                col: if at.col > 0 {
                    (at.col - 1) as i64
                } else {
                    0
                },
            },
        ),
        key == "home"@ ==> moved(key, at, sheets, cols) == Some(Place { sheet: at.sheet, col: 0 }),
        moved(key, at, sheets, cols) is Some ==> (key == "tab"@ || key == "char:]]"@ || key == "char:]"@ || key
            == "backtab"@ || key == "char:[["@ || key == "char:["@ || key == "right"@ || key == "char:>"@ || key
            == "left"@ || key == "char:<"@ || key == "home"@),
{
    reveal_strlit("tab");
    reveal_strlit("char:]]");
    reveal_strlit("char:]");
    reveal_strlit("backtab");
    reveal_strlit("char:[[");
    reveal_strlit("char:[");
    reveal_strlit("right");
    reveal_strlit("char:>");
    reveal_strlit("left");
    reveal_strlit("char:<");
    reveal_strlit("home");
    assert("tab"@.len() == 3 && "char:]]"@.len() == 7 && "char:]"@.len() == 6 && "backtab"@.len() == 7);
    assert("char:[["@.len() == 7 && "char:["@.len() == 6 && "right"@.len() == 5 && "char:>"@.len() == 6);
    assert("left"@.len() == 4 && "char:<"@.len() == 6 && "home"@.len() == 4);
    assert("char:]]"@[5] == ']' && "backtab"@[5] == 'a' && "char:[["@[5] == '[' && "char:]"@[5] == ']');
    assert("char:["@[5] == '[' && "char:>"@[5] == '>' && "char:<"@[5] == '<' && "left"@[0] == 'l');
    assert("home"@[0] == 'h');
}

/// Where the panel has room for it, every shown column is as wide as it wants to be.
pub proof fn law_columns_have_the_width_they_want(
    rows: Seq<Seq<Cell>>,
    height: int,
    width: int,
    offset: int,
    panel_w: int,
    ci: int,
)
    requires
        0 <= offset <= width,
        0 <= ci < visible_columns(width, offset),
        columns::sum(wanted_widths(rows, offset, visible_columns(width, offset))) + 5 * (visible_columns(
            width,
            offset,
        ) - 1) + lineno_width(height) <= panel_w,
    ensures
        ({
            let l = layout(rows, height, width, offset, panel_w);
            &&& l.widths.len() == visible_columns(width, offset)
            &&& l.widths[ci] == wanted_width(rows, offset + ci)
            &&& l.offset == offset
        }),
{
    let wanted = wanted_widths(rows, offset, visible_columns(width, offset));
    let room = viewer::less(panel_w, lineno_width(height));
    lemma_width_bounds(rows, offset + ci);
    lemma_sum_not_negative(wanted);
    assert(columns::is_fit(wanted, room, wanted));
    assert(columns::is_fit(wanted, room, fitted(wanted, room)));
}

proof fn lemma_sum_not_negative(w: Seq<usize>)
    ensures
        columns::sum(w) >= 0,
    decreases w.len(),
{
    if w.len() > 0 {
        lemma_sum_not_negative(w.drop_last());
    }
}

/// A page has a line for each shown row, below the status bar and a blank line, and a rule below the
/// header. Of a longer sheet the last line says so.
pub proof fn law_page_has_a_line_for_each_row(
    names: Seq<Seq<char>>,
    requested: int,
    sheet: Sheet,
    offset: usize,
    width: u64,
)
    requires
        names.len() > 0,
        sheet.rows@.len() > 0,
    ensures
        page(names, requested, sheet, offset, width).len() == 3 + (if sheet.rows@.len() <= 5001 {
            sheet.rows@.len() as int
        } else {
            5001
        }) + (if sheet.height > 5000 {
            1int
        } else {
            0int
        }),
{
    let rows = shown_rows(rows_view(sheet.rows@));
    let l = layout(
        rows,
        sheet.height as int,
        sheet.width as int,
        offset as int,
        viewer::panel_width(width, 120) as int,
    );
    lemma_table_lines(rows, l, rows.len() as int, 0);
}

/// A cell that does not fit its column is cut: the start of its text, as much as there is room for,
/// and an ellipsis.
pub proof fn law_cells_that_do_not_fit_are_cut(rows: Seq<Seq<Cell>>, l: Layout, row: int, ci: int) -> (n: int)
    requires
        0 <= row < rows.len(),
        0 <= ci < l.widths.len(),
        0 <= l.offset,
        l.offset + ci < rows[row].len(),
        !cell_text(rows[row][l.offset + ci]).contains('\n'),
        columns::disp(cell_text(rows[row][l.offset + ci])) > l.widths[ci],
        l.widths[ci] > 0,
    ensures
        ({
            let t = cell_text(rows[row][l.offset + ci]);
            let start = t.take(n).push('\u{2026}');
            let pad = Seq::new((l.widths[ci] - columns::disp(start)) as nat, |i: int| ' ');
            &&& 0 <= n < t.len()
            &&& columns::disp(start) <= l.widths[ci]
            &&& columns::disp(t.take(n + 1)) > l.widths[ci] - 1
            &&& cell_span(rows, l, row, ci).text == (if row > 0 && is_numeric_column(rows, l.offset + ci) {
                pad + start
            } else {
                start + pad
            })
        }),
{
    let col = l.offset + ci;
    let t = cell_text(rows[row][col]);
    let w = l.widths[ci] as int;
    law_shown_text_is_the_text_of_the_cell(rows[row], col);
    columns::law_cut_fits(t, w);
    let n = columns::cut(t, w).len() - 1;
    let start = t.take(n).push('\u{2026}');
    let pad = Seq::new((w - columns::disp(start)) as nat, |i: int| ' ');
    assert(columns::spaces(w - columns::disp(start)) =~= pad);
    if columns::disp(start) == w {
        assert(start + pad =~= start);
        assert(pad + start =~= start);
    }
    n
}

/// The status bar has the rows and the columns of the sheet, behind the tabs.
pub proof fn law_status_tells_the_size(names: Seq<Seq<char>>, selected: int, height: int, width: int, offset: usize)
    ensures
        ({
            let line = status_line(names, selected, height, width, offset);
            &&& line.len() >= 6 + names.len()
            &&& line.subrange(2, 2 + names.len() as int) == tabs(names, selected)
            &&& line[3 + names.len() as int].text == text::decimal(height)
            &&& line[5 + names.len() as int].text == text::decimal(width)
        }),
{
    let line = status_line(names, selected, height, width, offset);
    assert(line.subrange(2, 2 + names.len() as int) =~= tabs(names, selected));
}

/// Where only some of the columns are shown, the status bar tells which.
pub proof fn law_status_tells_the_shown_columns(
    names: Seq<Seq<char>>,
    selected: int,
    height: int,
    width: int,
    offset: usize,
)
    requires
        0 < offset < width,
        width <= usize::MAX,
    ensures
        ({
            let line = status_line(names, selected, height, width, offset);
            let last = if offset + 64 < width {
                offset + 64
            } else {
                width
            };
            line[6 + names.len() as int].text == seq![' ', ' ', 'c', 'o', 'l', ' '] + text::decimal(offset + 1) + seq![
                '-',
            ] + text::decimal(last) + seq!['/'] + text::decimal(width)
        }),
{
    reveal_strlit("  col ");
    reveal_strlit("-");
    reveal_strlit("/");
    assert("  col "@ =~= seq![' ', ' ', 'c', 'o', 'l', ' ']);
    assert("-"@ =~= seq!['-']);
    assert("/"@ =~= seq!['/']);
}

/// The header is bold and in light cyan, numbers are in light green and everything else is white.
pub proof fn law_cells_have_their_colour(rows: Seq<Seq<Cell>>, l: Layout, row: int, ci: int)
    requires
        0 <= row,
    ensures
        ({
            let cell = cell_span(rows, l, row, ci);
            &&& row == 0 ==> cell.fg == "lightcyan"@ && cell.bold
            &&& row > 0 && is_numeric_column(rows, l.offset + ci) ==> cell.fg == "lightgreen"@ && !cell.bold
            &&& row > 0 && !is_numeric_column(rows, l.offset + ci) ==> cell.fg == "white"@ && !cell.bold
        }),
{
}

/// The rule below the header has a bar for each column, as wide as that, and a cross between each and
/// the next.
pub proof fn law_rule_is_as_wide_as_the_columns(l: Layout, ci: int)
    requires
        0 <= ci < l.widths.len(),
    ensures
        rule_line(l).len() == 2 * l.widths.len(),
        rule_line(l)[1 + 2 * ci].text == Seq::new(l.widths[ci] as nat, |i: int| '\u{2500}'),
        ci > 0 ==> rule_line(l)[2 * ci].text == "\u{2500}\u{2500}\u{253C}\u{2500}\u{2500}"@,
{
    lemma_rule_spans(l, l.widths.len() as int, ci);
}

proof fn lemma_rule_spans(l: Layout, n: int, ci: int)
    requires
        0 <= ci < n,
    ensures
        rule_spans(l, n).len() == 2 * n - 1,
        rule_spans(l, n)[2 * ci].text == Seq::new(l.widths[ci] as nat, |i: int| '\u{2500}'),
        ci > 0 ==> rule_spans(l, n)[2 * ci - 1].text == "\u{2500}\u{2500}\u{253C}\u{2500}\u{2500}"@,
    decreases n,
{
    lemma_bar(l.widths[n - 1] as nat);
    if n > 1 {
        if ci < n - 1 {
            lemma_rule_spans(l, n - 1, ci);
        } else {
            lemma_rule_spans(l, n - 1, 0);
        }
    }
}

proof fn lemma_bar(n: nat)
    ensures
        viewer::repeated("\u{2500}"@, n) == Seq::new(n, |i: int| '\u{2500}'),
    decreases n,
{
    reveal_strlit("\u{2500}");
    if n > 0 {
        lemma_bar((n - 1) as nat);
    }
    assert(viewer::repeated("\u{2500}"@, n) =~= Seq::new(n, |i: int| '\u{2500}'));
}

/// The numbers of the rows take as many columns as the number of rows has digits, and two more.
pub proof fn law_room_for_the_row_numbers(total_rows: int)
    requires
        0 <= total_rows,
    ensures
        lineno_width(total_rows) == text::decimal(total_rows).len() + 2,
{
    let d = text::decimal(total_rows);
    lemma_digits_printable(total_rows as nat);
    columns::law_ascii_takes_one_column_each(d);
}

proof fn lemma_digits_printable(n: nat)
    ensures
        forall|i: int| 0 <= i < text::digits(n, 10).len() ==> ' ' <= #[trigger] text::digits(n, 10)[i] <= '~',
    decreases n,
{
    let d = text::digits(n, 10);
    if n >= 10 {
        lemma_digits_printable(n / 10);
        let head = text::digits(n / 10, 10);
        assert forall|i: int| 0 <= i < d.len() implies ' ' <= #[trigger] d[i] <= '~' by {
            if i < head.len() {
                assert(d[i] == head[i]);
            }
        }
    }
}

/// A place is stored with its sheet and its column, and nothing else of the state changes. A workbook
/// has the sheets and columns that it has; one that cannot be read counts as a single sheet.
pub proof fn law_place_is_stored(before: json::Json, at: Place, other: Seq<char>, sheets: usize, cols: usize)
    requires
        at.sheet >= 0,
        at.col >= 0,
        sheets <= i64::MAX,
        cols <= i64::MAX,
    ensures
        json::text_field(with_place(before, at), "sheet"@) == Some(text::decimal(at.sheet as int)),
        json::text_field(with_place(before, at), "col_offset"@) == Some(text::decimal(at.col as int)),
        other != "sheet"@ && other != "col_offset"@ ==> json::field(with_place(before, at), other) == json::field(
            before,
            other,
        ),
        extent(Some((sheets, cols))).0 == sheets,
        extent(Some((sheets, cols))).1 == cols,
        extent(None) == (1i64, 0i64),
{
    reveal_strlit("sheet");
    reveal_strlit("col_offset");
    assert("sheet"@.len() == 5 && "col_offset"@.len() == 10);
}

} // verus!
