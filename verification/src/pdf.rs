//! PDF documents: the text or the picture of one page at a time.

use crate::json;
use crate::paths;
use crate::state;
use crate::state::{parse_state, put_text, state_u, write_state, ViewerHandleKeyResult};
use crate::text;
use crate::text::{decimal_of, fill_left, same_text, signed_decimal, string_of, strip_both, CharClass};
use crate::viewer;
use crate::viewer::{
    add_line, add_span, blank_line, clamp_index, error_lines, line1, line2, panel, sp, Span, ViewerLine,
    ViewerSpan,
};
use crate::width::Measure;
use crate::wrap;
use crate::wrap::wrap_text;
use base64::Engine;
use vstd::prelude::*;
use vstd::string::*;

verus! {

/// Breaks raw text, whose paragraphs end with line feeds, into lines of at most `max_w`
/// columns; only a single character can be wider.
pub fn word_wrap(text: &str, max_w: usize) -> (r: Vec<String>)
    ensures
        text::texts(r@) == wrap::wrapped(text@, Measure::Display, max_w as nat),
        max_w > 0 ==> forall|i: int|
            0 <= i < r@.len() ==> Measure::Display.of((#[trigger] r@[i])@) <= max_w || r@[i]@.len() == 1,
{
    wrap_text(text, Measure::Display, max_w)
}

// ── text of a page ──────────────────────────────────────────────────────────

/// A line of text on a page.
pub struct PageLine {
    /// It stands far below the line before it.
    pub gap: bool,
    /// Its characters; none where one has no code.
    pub chars: Vec<Option<char>>,
}

/// The characters of a line that have a code and are no line feeds.
pub open spec fn line_chars(chars: Seq<Option<char>>) -> Seq<char>
    decreases chars.len(),
{
    if chars.len() == 0 {
        Seq::empty()
    } else {
        match chars.last() {
            Some(c) if c != '\n' => line_chars(chars.drop_last()).push(c),
            _ => line_chars(chars.drop_last()),
        }
    }
}

/// `out` with one more line. A line without characters counts for nothing; one that is blank
/// only leaves the gap before it.
pub open spec fn with_line(out: Seq<char>, line: PageLine) -> Seq<char> {
    if line.chars@.len() == 0 {
        out
    } else {
        let spaced = if line.gap {
            out.push('\n')
        } else {
            out
        };
        let t = text::trimmed(line_chars(line.chars@));
        if t.len() == 0 {
            spaced
        } else {
            (spaced + t).push('\n')
        }
    }
}

/// `out` with the lines of a block.
pub open spec fn with_lines(out: Seq<char>, lines: Seq<PageLine>) -> Seq<char>
    decreases lines.len(),
{
    if lines.len() == 0 {
        out
    } else {
        with_line(with_lines(out, lines.drop_last()), lines.last())
    }
}

/// A blank line stands at the end.
pub open spec fn ends_blank(out: Seq<char>) -> bool {
    out.len() >= 2 && out.last() == '\n' && out[out.len() - 2] == '\n'
}

/// `out` with a block, and a blank line behind it.
pub open spec fn with_block(out: Seq<char>, lines: Seq<PageLine>) -> Seq<char> {
    let more = with_lines(out, lines);
    if ends_blank(more) {
        more
    } else {
        more.push('\n')
    }
}

/// The text of a page: its blocks, one after another.
pub open spec fn page_text(blocks: Seq<Vec<PageLine>>) -> Seq<char>
    decreases blocks.len(),
{
    if blocks.len() == 0 {
        Seq::empty()
    } else {
        with_block(page_text(blocks.drop_last()), blocks.last()@)
    }
}

fn push_line(out: &mut Vec<char>, line: &PageLine)
    ensures
        final(out)@ == with_line(old(out)@, *line),
{
    if line.chars.len() == 0 {
        return ;
    }
    if line.gap {
        out.push('\n');
    }
    let ghost spaced = out@;
    let mut kept: Vec<char> = Vec::new();
    for i in 0..line.chars.len()
        invariant
            kept@ == line_chars(line.chars@.take(i as int)),
    {
        assert(line.chars@.take(i + 1).drop_last() =~= line.chars@.take(i as int));
        match line.chars[i] {
            Some(c) => {
                if c != '\n' {
                    kept.push(c);
                }
            },
            None => {},
        }
    }
    assert(line.chars@.take(line.chars@.len() as int) =~= line.chars@);
    let t = strip_both(kept.as_slice(), CharClass::White);
    if t.len() > 0 {
        out.extend_from_slice(t);
        assert(out@ =~= spaced + t@);
        out.push('\n');
    }
}

/// Puts the text of a page together from the lines of its blocks.
pub fn assemble_page_text(blocks: &Vec<Vec<PageLine>>) -> (r: String)
    ensures
        r@ == page_text(blocks@),
{
    let mut out: Vec<char> = Vec::new();
    assert(out@ =~= page_text(blocks@.take(0)));
    for b in 0..blocks.len()
        invariant
            out@ == page_text(blocks@.take(b as int)),
    {
        assert(blocks@.take(b + 1).drop_last() =~= blocks@.take(b as int));
        let ghost start = out@;
        let lines = &blocks[b];
        assert(out@ =~= with_lines(start, lines@.take(0)));
        for i in 0..lines.len()
            invariant
                out@ == with_lines(start, lines@.take(i as int)),
        {
            assert(lines@.take(i + 1).drop_last() =~= lines@.take(i as int));
            push_line(&mut out, &lines[i]);
        }
        assert(lines@.take(lines@.len() as int) =~= lines@);
        let n: usize = out.len();
        if !(n >= 2 && out[n - 1] == '\n' && out[n - 2] == '\n') {
            out.push('\n');
        }
    }
    assert(blocks@.take(blocks@.len() as int) =~= blocks@);
    string_of(out.as_slice())
}

/// The text is empty or its last line is complete.
pub open spec fn is_ended(out: Seq<char>) -> bool {
    out.len() == 0 || out.last() == '\n'
}

proof fn lemma_lines_ended(out: Seq<char>, lines: Seq<PageLine>)
    requires
        is_ended(out),
    ensures
        is_ended(with_lines(out, lines)),
        out.len() > 0 ==> with_lines(out, lines).len() > 0,
    decreases lines.len(),
{
    if lines.len() > 0 {
        lemma_lines_ended(out, lines.drop_last());
    }
}

/// Every block of a page ends with a blank line, so that the next one stands apart from it. A
/// page that starts with a block without text starts with an empty line.
pub proof fn law_blocks_stand_apart(blocks: Seq<Vec<PageLine>>)
    ensures
        blocks.len() > 0 ==> ends_blank(page_text(blocks)) || page_text(blocks) == seq!['\n'],
    decreases blocks.len(),
{
    if blocks.len() > 0 {
        let head = blocks.drop_last();
        law_blocks_stand_apart(head);
        let out = page_text(head);
        lemma_lines_ended(out, blocks.last()@);
        let more = with_lines(out, blocks.last()@);
        if more.len() == 0 {
            assert(more.push('\n') =~= seq!['\n']);
        } else if !ends_blank(more) {
            assert(more.push('\n').last() == '\n');
            assert(more.push('\n')[more.len() - 1] == '\n');
        }
    }
}

// ── one page as text ────────────────────────────────────────────────────────

/// The status bar.
pub open spec fn status_line(name: Seq<char>, page: int, total: int) -> Seq<Span> {
    seq![
        viewer::span("PDF"@, "yellow"@, true),
        viewer::span("  "@ + name, "lightcyan"@, false),
        viewer::span(
            "  page "@ + text::decimal(page + 1) + "/"@ + text::decimal(total),
            "cyan"@,
            false,
        ),
        viewer::span("  [tab/[/]] page"@, "darkgray"@, false),
    ]
}

/// A line of the page with its number, which is as wide as the number of pages.
pub open spec fn body_line(line: Seq<char>, number: int, total: int) -> Seq<Span> {
    if line.len() == 0 {
        viewer::blank()
    } else {
        seq![
            viewer::span(
                text::filled(text::decimal(number), text::decimal(total).len(), ' ') + "\u{2502} "@,
                "darkgray"@,
                false,
            ),
            viewer::span(line, "white"@, false),
        ]
    }
}

/// The lines of the page.
pub open spec fn body_lines(lines: Seq<Seq<char>>, total: int) -> Seq<Seq<Span>> {
    if lines.len() == 0 {
        seq![seq![viewer::span("  (no text on this page)"@, "darkgray"@, true)]]
    } else {
        Seq::new(lines.len(), |i: int| body_line(lines[i], i + 1, total))
    }
}

/// The line below a page.
pub open spec fn footer_line(page: int, total: int) -> Seq<Span> {
    if page + 1 < total {
        seq![
            viewer::span("  \u{2500}\u{2500} end of page \u{2500}\u{2500} "@, "darkgray"@, false),
            viewer::span("tab"@, "cyan"@, false),
            viewer::span(" / "@, "darkgray"@, false),
            viewer::span("]"@, "cyan"@, false),
            viewer::span(" \u{2192} next page"@, "darkgray"@, false),
        ]
    } else {
        seq![viewer::span("  \u{2500}\u{2500} end of document \u{2500}\u{2500}"@, "darkgray"@, false)]
    }
}

/// What is shown of the page `requested`, or of the last one, under the name `name`.
pub open spec fn page_view(name: Seq<char>, requested: int, total: int, raw: Seq<char>, width: u64) -> Seq<
    Seq<Span>,
> {
    if total == 0 {
        viewer::error_view("PDF Viewer  "@, "Cannot open PDF or document is empty"@)
    } else {
        let page = viewer::clamped(requested, total);
        let max_w = viewer::less(viewer::panel_width(width, 80) as int, 4) as nat;
        seq![status_line(name, page, total), viewer::blank()] + body_lines(
            wrap::wrapped(raw, Measure::Display, max_w),
            total,
        ) + seq![viewer::blank(), footer_line(page, total)]
    }
}

fn status_bar(name: &str, page: usize, total: usize) -> (r: ViewerLine)
    requires
        page < total,
    ensures
        r@ == status_line(name@, page as int, total as int),
{
    let mut spans: Vec<ViewerSpan> = Vec::new();
    add_span(&mut spans, sp("PDF", "yellow", true));
    let mut title = "  ".to_string();
    title.append(name);
    add_span(&mut spans, sp(title.as_str(), "lightcyan", false));
    let mut place = "  page ".to_string();
    place.append(decimal_of((page + 1) as u64).as_str());
    place.append("/");
    place.append(decimal_of(total as u64).as_str());
    add_span(&mut spans, sp(place.as_str(), "cyan", false));
    add_span(&mut spans, sp("  [tab/[/]] page", "darkgray", false));
    assert(viewer::spans_of(spans@) =~= status_line(name@, page as int, total as int));
    ViewerLine { spans }
}

fn footer(page: usize, total: usize) -> (r: ViewerLine)
    requires
        page < total,
    ensures
        r@ == footer_line(page as int, total as int),
{
    let mut spans: Vec<ViewerSpan> = Vec::new();
    if page + 1 < total {
        add_span(&mut spans, sp("  \u{2500}\u{2500} end of page \u{2500}\u{2500} ", "darkgray", false));
        add_span(&mut spans, sp("tab", "cyan", false));
        add_span(&mut spans, sp(" / ", "darkgray", false));
        add_span(&mut spans, sp("]", "cyan", false));
        add_span(&mut spans, sp(" \u{2192} next page", "darkgray", false));
    } else {
        add_span(&mut spans, sp("  \u{2500}\u{2500} end of document \u{2500}\u{2500}", "darkgray", false));
    }
    assert(viewer::spans_of(spans@) =~= footer_line(page as int, total as int));
    ViewerLine { spans }
}

/// The page that a state asks for.
pub fn requested_page(state_json: &str) -> (r: usize)
    ensures
        r == state::index_in(state::state_of(state_json@), "page"@, 0),
{
    state_u(&parse_state(state_json), "page", 0)
}

/// Shows a page under the name `name`.
pub fn render_named(name: &str, requested: usize, total: usize, raw: &str, width: u64) -> (r: Vec<ViewerLine>)
    ensures
        viewer::lines_view(r@) == page_view(name@, requested as int, total as int, raw@, width),
{
    if total == 0 {
        return error_lines("PDF Viewer  ", "Cannot open PDF or document is empty");
    }
    let page: usize = clamp_index(requested, total);
    let panel_w: usize = panel(width, 80);
    let max_w: usize = if panel_w < 4 { 0 } else { panel_w - 4 };
    let wrapped = word_wrap(raw, max_w);
    let ghost lines = wrap::wrapped(raw@, Measure::Display, max_w as nat);
    assert(text::texts(wrapped@).len() == wrapped@.len());
    let number_w: usize = decimal_of(total as u64).as_str().unicode_len();
    let mut out: Vec<ViewerLine> = Vec::new();
    add_line(&mut out, status_bar(name, page, total));
    add_line(&mut out, blank_line());
    let ghost head = viewer::lines_view(out@);
    let ghost body = body_lines(lines, total as int);
    if wrapped.len() == 0 {
        add_line(&mut out, line1(sp("  (no text on this page)", "darkgray", true)));
        assert(viewer::lines_view(out@) =~= head + body);
    } else {
        assert(head =~= head + body.take(0));
        for i in 0..wrapped.len()
            invariant
                text::texts(wrapped@) == lines,
                wrapped@.len() == lines.len(),
                lines.len() > 0,
                number_w == text::decimal(total as int).len(),
                body == body_lines(lines, total as int),
                viewer::lines_view(out@) == head + body.take(i as int),
        {
            assert(text::texts(wrapped@)[i as int] == wrapped@[i as int]@);
            let line = wrapped[i].as_str();
            if line.unicode_len() == 0 {
                add_line(&mut out, blank_line());
            } else {
                let mut number = fill_left(decimal_of((i + 1) as u64).as_str(), number_w, ' ');
                number.append("\u{2502} ");
                add_line(
                    &mut out,
                    line2(sp(number.as_str(), "darkgray", false), sp(line, "white", false)),
                );
            }
            assert(body.take(i + 1) =~= body.take(i as int).push(body[i as int]));
            assert(viewer::lines_view(out@) =~= head + body.take(i + 1));
        }
        assert(body.take(body.len() as int) =~= body);
    }
    add_line(&mut out, blank_line());
    add_line(&mut out, footer(page, total));
    assert(viewer::lines_view(out@) =~= page_view(
        name@,
        requested as int,
        total as int,
        raw@,
        width,
    ));
    out
}

/// The name shown for a document: its file name, or the path where it has none.
pub open spec fn shown_name(path: Seq<char>) -> Seq<char> {
    match paths::last_component(path) {
        Some(name) => name,
        None => path,
    }
}

/// Shows a page of the document at `path`.
pub fn render_document(path: &str, requested: usize, total: usize, raw: &str, width: u64) -> (r: Vec<ViewerLine>)
    ensures
        paths::is_portable(path@) ==> viewer::lines_view(r@) == page_view(
            shown_name(path@),
            requested as int,
            total as int,
            raw@,
            width,
        ),
        exists|name: Seq<char>|
            viewer::lines_view(r@) == #[trigger] page_view(
                name,
                requested as int,
                total as int,
                raw@,
                width,
            ),
{
    match paths::file_name(path) {
        Some(name) => render_named(name.as_str(), requested, total, raw, width),
        None => render_named(path, requested, total, raw, width),
    }
}

// ── one page as a picture ───────────────────────────────────────────────────

/// Samples of a rendered page.
pub struct Pixmap {
    /// Samples for each pixel.
    pub n: usize,
    pub width: usize,
    pub height: usize,
    /// Samples from the start of one row to that of the next.
    pub stride: usize,
    pub samples: Vec<u8>,
}

impl Pixmap {
    /// Row `y` is there in full.
    pub open spec fn has_row(self, y: int) -> bool {
        y * self.stride + self.width * self.n <= self.samples@.len()
    }

    /// Number of rows before the first that is not there in full.
    pub open spec fn rows_from(self, y: int) -> int
        decreases self.height - y,
    {
        if y < self.height && self.has_row(y) {
            self.rows_from(y + 1)
        } else {
            y
        }
    }

    /// The first three samples of each pixel of row `y`.
    pub open spec fn row_rgb(self, y: int) -> Seq<u8> {
        Seq::new(
            3 * self.width as nat,
            |k: int| self.samples@[y * self.stride + (k / 3) * self.n + k % 3],
        )
    }

    /// The first three samples of each pixel of the first `rows` rows.
    pub open spec fn rgb(self, rows: int) -> Seq<u8>
        decreases rows,
    {
        if rows <= 0 {
            Seq::empty()
        } else {
            self.rgb(rows - 1) + self.row_rgb(rows - 1)
        }
    }
}

/// Copies the first three samples of each pixel of a row.
fn push_row(map: &Pixmap, start: usize, out: &mut Vec<u8>, Ghost(y): Ghost<int>)
    requires
        map.n >= 3,
        start == y * map.stride,
        start + map.width * map.n <= map.samples@.len(),
    ensures
        final(out)@ == old(out)@ + map.row_rgb(y),
{
    let ghost before = out@;
    let ghost row = map.row_rgb(y);
    assert(before =~= before + row.take(0));
    for x in 0..map.width
        invariant
            map.n >= 3,
            start == y * map.stride,
            start + map.width * map.n <= map.samples@.len(),
            row == map.row_rgb(y),
            out@ == before + row.take(3 * x),
    {
        proof {
            assert(0 <= x * map.n && x * map.n + map.n <= map.width * map.n) by (nonlinear_arith)
                requires
                    0 <= x < map.width,
                    0 <= map.n,
            ;
            assert((3 * x) / 3 == x && (3 * x + 1) / 3 == x && (3 * x + 2) / 3 == x);
        }
        let total: usize = map.samples.len();
        assert(x * map.n <= total);
        let at: usize = start + x * map.n;
        out.push(map.samples[at]);
        out.push(map.samples[at + 1]);
        out.push(map.samples[at + 2]);
        assert(out@ =~= before + row.take(3 * (x + 1)));
    }
    assert(row.take(3 * map.width) =~= row);
}

/// The red, green and blue samples of all rows that are there in full; an error where the
/// pixels have fewer than three samples.
pub fn rgb_samples(map: &Pixmap) -> (r: Result<Vec<u8>, String>)
    ensures
        r is Err <==> map.n < 3,
        r is Err ==> r->Err_0@ == "Unsupported pixmap format: "@ + text::decimal(map.n as int)
            + " channels"@,
        r is Ok ==> r->Ok_0@ == map.rgb(map.rows_from(0)),
{
    if map.n < 3 {
        let mut m = "Unsupported pixmap format: ".to_string();
        m.append(decimal_of(map.n as u64).as_str());
        m.append(" channels");
        return Err(m);
    }
    let mut out: Vec<u8> = Vec::new();
    let have: u128 = map.samples.len() as u128;
    proof {
        assert(map.width * map.n <= u64::MAX * u64::MAX) by (nonlinear_arith)
            requires
                0 <= map.width <= u64::MAX,
                0 <= map.n <= u64::MAX,
        ;
    }
    let row_len: u128 = map.width as u128 * map.n as u128;
    let mut y: usize = 0;
    let mut complete = true;
    while y < map.height && complete
        invariant
            map.n >= 3,
            have == map.samples@.len(),
            have <= usize::MAX,
            row_len == map.width * map.n,
            y <= map.height,
            map.rows_from(y as int) == map.rows_from(0),
            !complete ==> map.rows_from(y as int) == y,
            out@ == map.rgb(y as int),
        decreases map.height - y + (if complete { 1int } else { 0 }),
    {
        proof {
            assert(0 <= y * map.stride <= u64::MAX * u64::MAX) by (nonlinear_arith)
                requires
                    0 <= y <= u64::MAX,
                    0 <= map.stride <= u64::MAX,
            ;
        }
        let start: u128 = y as u128 * map.stride as u128;
        if row_len > have || start > have - row_len {
            complete = false;
        } else {
            push_row(map, start as usize, &mut out, Ghost(y as int));
            y = y + 1;
        }
    }
    Ok(out)
}

/// The character for six bits in base 64.
pub open spec fn base64_char(v: int) -> char {
    if v < 26 {
        (65 + v) as char
    } else if v < 52 {
        (71 + v) as char
    } else if v < 62 {
        (v - 4) as char
    } else if v == 62 {
        '+'
    } else {
        '/'
    }
}

/// Bytes in base 64: four characters for three bytes, the last four filled up with `=`.
pub open spec fn base64_text(data: Seq<u8>) -> Seq<char>
    decreases data.len(),
{
    if data.len() == 0 {
        Seq::empty()
    } else {
        let a = data[0] as int;
        let b = if data.len() > 1 {
            data[1] as int
        } else {
            0
        };
        let c = if data.len() > 2 {
            data[2] as int
        } else {
            0
        };
        let group = seq![
            base64_char(a / 4),
            base64_char(a % 4 * 16 + b / 16),
            if data.len() > 1 {
                base64_char(b % 16 * 4 + c / 64)
            } else {
                '='
            },
            if data.len() > 2 {
                base64_char(c % 64)
            } else {
                '='
            },
        ];
        if data.len() <= 3 {
            group
        } else {
            group + base64_text(data.skip(3))
        }
    }
}

/// `base64::engine::general_purpose::STANDARD.encode`: base 64 with the standard alphabet and
/// padding.
#[verifier::external_body]
fn to_base64(data: &[u8]) -> (r: String)
    ensures
        r@ == base64_text(data@),
{
    base64::engine::general_purpose::STANDARD.encode(data)
}

/// Base 64 takes four characters for every three bytes begun.
pub proof fn law_base64_length(data: Seq<u8>)
    ensures
        base64_text(data).len() == (data.len() + 2) / 3 * 4,
    decreases data.len(),
{
    if data.len() > 3 {
        law_base64_length(data.skip(3));
    }
}

/// A picture with its size in pixels.
pub struct ViewerImage {
    pub data: String,
    pub format: String,
    pub width: u32,
    pub height: u32,
}

/// A page as a picture, with lines above it.
pub struct ViewerDocumentImage {
    pub image: ViewerImage,
    pub overlay_lines: Vec<ViewerLine>,
}

/// The page as a picture of `width` by `height` pixels, under the name `name`.
pub fn image_named(
    name: &str,
    requested: usize,
    total: usize,
    map: &Pixmap,
    width: u32,
    height: u32,
) -> (r: Result<ViewerDocumentImage, String>)
    ensures
        r is Err <==> total == 0 || map.n < 3,
        total == 0 ==> r->Err_0@ == "Cannot open PDF or document is empty"@,
        total > 0 && map.n < 3 ==> r->Err_0@ == "Unsupported pixmap format: "@ + text::decimal(
            map.n as int,
        ) + " channels"@,
        r is Ok ==> {
            &&& r->Ok_0.image.data@ == base64_text(map.rgb(map.rows_from(0)))
            &&& r->Ok_0.image.format@ == "rgb"@
            &&& r->Ok_0.image.width == width
            &&& r->Ok_0.image.height == height
            &&& viewer::lines_view(r->Ok_0.overlay_lines@) == seq![
                status_line(name@, viewer::clamped(requested as int, total as int), total as int),
            ]
        },
{
    if total == 0 {
        return Err("Cannot open PDF or document is empty".to_string());
    }
    let page: usize = clamp_index(requested, total);
    let data = rgb_samples(map)?;
    let mut overlay_lines: Vec<ViewerLine> = Vec::new();
    add_line(&mut overlay_lines, status_bar(name, page, total));
    assert(viewer::lines_view(overlay_lines@) =~= seq![status_line(name@, page as int, total as int)]);
    Ok(
        ViewerDocumentImage {
            image: ViewerImage {
                data: to_base64(data.as_slice()),
                format: "rgb".to_string(),
                width,
                height,
            },
            overlay_lines,
        },
    )
}

/// A page of the document at `path` as a picture.
pub fn render_document_image(
    path: &str,
    requested: usize,
    total: usize,
    map: &Pixmap,
    width: u32,
    height: u32,
) -> (r: Result<ViewerDocumentImage, String>)
    ensures
        r is Err <==> total == 0 || map.n < 3,
        total == 0 ==> r->Err_0@ == "Cannot open PDF or document is empty"@,
        total > 0 && map.n < 3 ==> r->Err_0@ == "Unsupported pixmap format: "@ + text::decimal(
            map.n as int,
        ) + " channels"@,
        r is Ok ==> {
            &&& r->Ok_0.image.data@ == base64_text(map.rgb(map.rows_from(0)))
            &&& r->Ok_0.image.format@ == "rgb"@
            &&& r->Ok_0.image.width == width
            &&& r->Ok_0.image.height == height
            &&& exists|name: Seq<char>|
                viewer::lines_view(r->Ok_0.overlay_lines@) == seq![
                    #[trigger] status_line(
                        name,
                        viewer::clamped(requested as int, total as int),
                        total as int,
                    ),
                ]
            &&& paths::is_portable(path@) ==> viewer::lines_view(r->Ok_0.overlay_lines@) == seq![
                status_line(
                    shown_name(path@),
                    viewer::clamped(requested as int, total as int),
                    total as int,
                ),
            ]
        },
{
    match paths::file_name(path) {
        Some(name) => image_named(name.as_str(), requested, total, map, width, height),
        None => image_named(path, requested, total, map, width, height),
    }
}

// ── keys ────────────────────────────────────────────────────────────────────

/// The last page of a document of `total` pages.
pub open spec fn last_page(total: i64) -> i64 {
    if total.wrapping_sub(1) < 0 {
        0
    } else {
        total.wrapping_sub(1)
    }
}

/// The page that a key leads to from `page`, in a document of `total` pages.
pub open spec fn next_page(key: Seq<char>, page: i64, total: i64) -> i64 {
    if key == "tab"@ || key == "char:]"@ || key == "char:n"@ || key == "pagedown"@ {
        if page.wrapping_add(1) < last_page(total) {
            page.wrapping_add(1)
        } else {
            last_page(total)
        }
    } else if key == "backtab"@ || key == "char:["@ || key == "char:p"@ || key == "pageup"@ {
        if page.wrapping_sub(1) < 0 {
            0
        } else {
            page.wrapping_sub(1)
        }
    } else if key == "home"@ || key == "char:g"@ {
        0
    } else if key == "end"@ || key == "char:G"@ {
        last_page(total)
    } else {
        page
    }
}

/// The page that a key leads to.
pub fn turn(key: &str, page: i64, total: i64) -> (r: i64)
    ensures
        r == next_page(key@, page, total),
{
    let end: i64 = total.wrapping_sub(1);
    let last: i64 = if end < 0 { 0 } else { end };
    if same_text(key, "tab") || same_text(key, "char:]") || same_text(key, "char:n") || same_text(
        key,
        "pagedown",
    ) {
        let next: i64 = page.wrapping_add(1);
        if next < last {
            next
        } else {
            last
        }
    } else if same_text(key, "backtab") || same_text(key, "char:[") || same_text(key, "char:p")
        || same_text(key, "pageup") {
        let previous: i64 = page.wrapping_sub(1);
        if previous < 0 {
            0
        } else {
            previous
        }
    } else if same_text(key, "home") || same_text(key, "char:g") {
        0
    } else if same_text(key, "end") || same_text(key, "char:G") {
        last
    } else {
        page
    }
}

/// Handles a key. The new state holds the new page, and the next call finds it there, with
/// everything else that the state held.
pub fn handle_key(key: &str, state_json: &str, total: usize) -> (r: ViewerHandleKeyResult)
    ensures
        ({
            let before = state::state_of(state_json@);
            let page = state::index_in(before, "page"@, 0) as i64;
            let next = next_page(key@, page, total as i64);
            &&& r.consumed == (next != page)
            &&& r.state_json@ == json::json_text(
                state::with_text(before, "page"@, text::decimal(next as int)),
            )
            &&& 0 <= next <= usize::MAX ==> state::index_in(state::state_of(r.state_json@), "page"@, 0)
                == next
            &&& forall|k: Seq<char>|
                k != "page"@ ==> #[trigger] json::keeps_field(before, state::state_of(r.state_json@), k)
        }),
{
    let mut current = parse_state(state_json);
    let ghost before = json::model(current);
    let page: i64 = state_u(&current, "page", 0) as i64;
    let next: i64 = turn(key, page, total as i64);
    put_text(&mut current, "page", signed_decimal(next).as_str());
    let state_json = write_state(&current);
    proof {
        state::lemma_text_put(
            before,
            "page"@,
            text::decimal(next as int),
            state::state_of(state_json@),
        );
        if 0 <= next <= usize::MAX {
            state::law_stored_index_is_read(state::state_of(state_json@), "page"@, next as nat, 0);
        }
    }
    ViewerHandleKeyResult { consumed: next != page, state_json }
}

/// Within a document no key leads out of it.
pub proof fn law_page_stays_in_the_document(key: Seq<char>, page: i64, total: i64)
    requires
        0 <= page < total,
    ensures
        0 <= next_page(key, page, total) < total,
{
}

// ── laws of the page text ───────────────────────────────────────────────────

/// A line whose characters all have a code and are no line feeds.
pub open spec fn is_readable(line: PageLine) -> bool {
    forall|i: int| 0 <= i < line.chars@.len() ==> (#[trigger] line.chars@[i]) is Some && line.chars@[i]->0 != '\n'
}

/// The characters of a readable line.
pub open spec fn characters(line: PageLine) -> Seq<char> {
    Seq::new(line.chars@.len(), |i: int| line.chars@[i]->0)
}

proof fn lemma_line_chars(chars: Seq<Option<char>>)
    requires
        forall|i: int| 0 <= i < chars.len() ==> (#[trigger] chars[i]) is Some && chars[i]->0 != '\n',
    ensures
        line_chars(chars) == Seq::new(chars.len(), |i: int| chars[i]->0),
    decreases chars.len(),
{
    let all = Seq::new(chars.len(), |i: int| chars[i]->0);
    if chars.len() > 0 {
        let head = chars.drop_last();
        assert forall|i: int| 0 <= i < head.len() implies (#[trigger] head[i]) is Some && head[i]->0 != '\n' by {
            assert(head[i] == chars[i]);
        }
        lemma_line_chars(head);
        assert(chars[chars.len() - 1] is Some && chars[chars.len() - 1]->0 != '\n');
        assert(line_chars(chars) =~= all);
    } else {
        assert(line_chars(chars) =~= all);
    }
}

/// A readable line keeps all of its characters, spaces too, in their order. Characters without a
/// code and line feeds leave no trace, wherever they stand.
pub proof fn law_lines_keep_their_characters(line: PageLine, a: Seq<Option<char>>, b: Seq<Option<char>>)
    requires
        is_readable(line),
    ensures
        line_chars(line.chars@) == characters(line),
        line_chars(a.push(None) + b) == line_chars(a + b),
        line_chars(a.push(Some('\n')) + b) == line_chars(a + b),
{
    lemma_line_chars(line.chars@);
    lemma_line_chars_concat(a.push(None), b);
    lemma_line_chars_concat(a.push(Some('\n')), b);
    lemma_line_chars_concat(a, b);
    assert(a.push(None).drop_last() =~= a);
    assert(a.push(Some('\n')).drop_last() =~= a);
}

proof fn lemma_line_chars_concat(a: Seq<Option<char>>, b: Seq<Option<char>>)
    ensures
        line_chars(a + b) == line_chars(a) + line_chars(b),
    decreases b.len(),
{
    if b.len() == 0 {
        assert(a + b =~= a);
        assert(line_chars(a) + line_chars(b) =~= line_chars(a));
    } else {
        lemma_line_chars_concat(a, b.drop_last());
        assert((a + b).drop_last() =~= a + b.drop_last());
        assert((a + b).last() == b.last());
        assert(line_chars(a + b) =~= line_chars(a) + line_chars(b));
    }
}

/// The texts of some lines without the white space around them; blank lines have none.
pub open spec fn texts_of_lines(lines: Seq<PageLine>) -> Seq<Seq<char>>
    decreases lines.len(),
{
    if lines.len() == 0 {
        Seq::empty()
    } else {
        let before = texts_of_lines(lines.drop_last());
        let t = characters(lines.last());
        if text::solid(t).len() == 0 {
            before
        } else {
            before.push(text::trimmed(t))
        }
    }
}

/// The texts of the lines of some blocks.
pub open spec fn texts_of_blocks(blocks: Seq<Vec<PageLine>>) -> Seq<Seq<char>>
    decreases blocks.len(),
{
    if blocks.len() == 0 {
        Seq::empty()
    } else {
        texts_of_blocks(blocks.drop_last()) + texts_of_lines(blocks.last()@)
    }
}

proof fn lemma_no_pieces()
    ensures
        text::words(Seq::empty(), CharClass::Only('\n')) == Seq::<Seq<char>>::empty(),
{
    let none = seq![Seq::<char>::empty()];
    assert(none.drop_last() =~= Seq::empty());
    assert(text::non_empty(none.drop_last()) =~= Seq::empty());
    assert(text::split(Seq::empty(), CharClass::Only('\n')) =~= none);
}

proof fn lemma_ended_concat(out: Seq<char>, x: Seq<char>)
    requires
        is_ended(out),
    ensures
        text::words(out + x, CharClass::Only('\n')) == text::words(out, CharClass::Only('\n')) + text::words(
            x,
            CharClass::Only('\n'),
        ),
{
    let k = CharClass::Only('\n');
    lemma_no_pieces();
    let none = Seq::<char>::empty();
    if out.len() == 0 {
        assert(out =~= none);
        assert(out + x =~= x);
        assert(text::words(out, k) + text::words(x, k) =~= text::words(x, k));
    } else {
        let a = out.drop_last();
        assert(a.push('\n') =~= out);
        assert(a.push('\n') + none =~= out);
        wrap::lemma_words_around(a, '\n', x, k);
        wrap::lemma_words_around(a, '\n', none, k);
        assert(text::words(a, k) + text::words(none, k) =~= text::words(a, k));
    }
}

proof fn lemma_blank_text(t: Seq<char>)
    ensures
        text::solid(t).len() == 0 <==> text::trimmed(t).len() == 0,
{
    text::lemma_trimmed_solid(t);
    let u = text::trimmed(t);
    text::lemma_trim_both_ends(t, CharClass::White);
    if u.len() > 0 {
        assert(text::solid(u).len() > 0);
    }
}

proof fn lemma_line_text(out: Seq<char>, line: PageLine)
    requires
        is_ended(out),
        is_readable(line),
    ensures
        is_ended(with_line(out, line)),
        text::words(with_line(out, line), CharClass::Only('\n')) == text::words(out, CharClass::Only('\n'))
            + texts_of_lines(seq![line]),
{
    let k = CharClass::Only('\n');
    let t = text::trimmed(characters(line));
    lemma_line_chars(line.chars@);
    lemma_blank_text(characters(line));
    lemma_no_pieces();
    let one = seq![line];
    assert(one.drop_last() =~= Seq::empty());
    assert(texts_of_lines(one.drop_last()) =~= Seq::empty());
    let now = with_line(out, line);
    let before = text::words(out, k);
    if line.chars@.len() == 0 {
        assert(characters(line) =~= Seq::empty());
        assert(text::solid(characters(line)).len() == 0);
        assert(before + texts_of_lines(one) =~= before);
    } else {
        let spaced = if line.gap {
            out.push('\n')
        } else {
            out
        };
        let none = Seq::<char>::empty();
        assert(text::words(spaced, k) == before) by {
            if line.gap {
                wrap::lemma_words_around(out, '\n', none, k);
                assert(out.push('\n') + none =~= out.push('\n'));
                assert(before + text::words(none, k) =~= before);
            }
        }
        assert(is_ended(spaced));
        if t.len() == 0 {
            assert(before + texts_of_lines(one) =~= before);
        } else {
            let at = text::law_trimming_takes_the_ends_only(characters(line), CharClass::White);
            assert forall|i: int| 0 <= i < t.len() implies !k.has(#[trigger] t[i]) by {
                assert(t[i] == characters(line)[at + i]);
                assert(line.chars@[at + i]->0 != '\n');
            }
            text::lemma_split_solid(t, k);
            assert(seq![t].drop_last() =~= Seq::empty());
            assert(text::non_empty(seq![t].drop_last()) =~= Seq::empty());
            assert(text::words(t, k) =~= seq![t]);
            lemma_ended_concat(spaced, t);
            wrap::lemma_words_around(spaced + t, '\n', none, k);
            assert((spaced + t).push('\n') + none =~= now);
            assert(before + seq![t] + text::words(none, k) =~= before + texts_of_lines(one));
        }
    }
}

proof fn lemma_lines_text(out: Seq<char>, lines: Seq<PageLine>)
    requires
        is_ended(out),
        forall|i: int| 0 <= i < lines.len() ==> is_readable(#[trigger] lines[i]),
    ensures
        is_ended(with_lines(out, lines)),
        text::words(with_lines(out, lines), CharClass::Only('\n')) == text::words(
            out,
            CharClass::Only('\n'),
        ) + texts_of_lines(lines),
    decreases lines.len(),
{
    let before = text::words(out, CharClass::Only('\n'));
    if lines.len() > 0 {
        let head = lines.drop_last();
        assert forall|i: int| 0 <= i < head.len() implies is_readable(#[trigger] head[i]) by {
            assert(head[i] == lines[i]);
        }
        lemma_lines_text(out, head);
        assert(is_readable(lines[lines.len() - 1]));
        lemma_line_text(with_lines(out, head), lines.last());
        let one = seq![lines.last()];
        assert(one.drop_last() =~= Seq::empty());
        assert(texts_of_lines(one.drop_last()) =~= Seq::empty());
        assert(texts_of_lines(head) + texts_of_lines(one) =~= texts_of_lines(lines));
        assert((before + texts_of_lines(head)) + texts_of_lines(one) =~= before + texts_of_lines(lines));
    } else {
        assert(before + texts_of_lines(lines) =~= before);
    }
}

/// The lines of a page text that are not empty are the lines of the page, one after another and
/// each in full, without the white space around it.
pub proof fn law_page_text_has_the_lines(blocks: Seq<Vec<PageLine>>)
    requires
        forall|i: int, j: int|
            0 <= i < blocks.len() && 0 <= j < blocks[i]@.len() ==> is_readable(#[trigger] blocks[i]@[j]),
    ensures
        text::words(page_text(blocks), CharClass::Only('\n')) == texts_of_blocks(blocks),
        is_ended(page_text(blocks)),
    decreases blocks.len(),
{
    let k = CharClass::Only('\n');
    lemma_no_pieces();
    if blocks.len() > 0 {
        let head = blocks.drop_last();
        let lines = blocks.last()@;
        assert forall|i: int, j: int| 0 <= i < head.len() && 0 <= j < head[i]@.len() implies is_readable(
            #[trigger] head[i]@[j],
        ) by {
            assert(head[i] == blocks[i]);
            assert(is_readable(blocks[i]@[j]));
        }
        law_page_text_has_the_lines(head);
        assert forall|j: int| 0 <= j < lines.len() implies is_readable(#[trigger] lines[j]) by {
            assert(is_readable(blocks[blocks.len() - 1]@[j]));
        }
        lemma_lines_text(page_text(head), lines);
        let more = with_lines(page_text(head), lines);
        let none = Seq::<char>::empty();
        wrap::lemma_words_around(more, '\n', none, k);
        assert(more.push('\n') + none =~= more.push('\n'));
        assert(text::words(more, k) + text::words(none, k) =~= text::words(more, k));
    } else {
        assert(texts_of_blocks(blocks) =~= Seq::empty());
    }
}

/// Two lines of one block: each ends with a line feed, a gap leaves an empty line between them, and
/// the block ends with an empty line.
pub proof fn law_gaps_are_empty_lines(blocks: Seq<Vec<PageLine>>, a: PageLine, b: PageLine)
    requires
        blocks.len() == 1,
        blocks[0]@ == seq![a, b],
        is_readable(a),
        is_readable(b),
        !a.gap,
        text::solid(characters(a)).len() > 0,
        text::solid(characters(b)).len() > 0,
    ensures
        page_text(blocks) == text::trimmed(characters(a)) + (if b.gap {
            seq!['\n', '\n']
        } else {
            seq!['\n']
        }) + text::trimmed(characters(b)) + seq!['\n', '\n'],
{
    let ta = text::trimmed(characters(a));
    let tb = text::trimmed(characters(b));
    lemma_line_chars(a.chars@);
    lemma_line_chars(b.chars@);
    lemma_blank_text(characters(a));
    lemma_blank_text(characters(b));
    text::lemma_trim_both_ends(characters(b), CharClass::White);
    assert(a.chars@.len() > 0 && b.chars@.len() > 0) by {
        if a.chars@.len() == 0 {
            assert(characters(a) =~= Seq::empty());
        }
        if b.chars@.len() == 0 {
            assert(characters(b) =~= Seq::empty());
        }
    }
    let none = Seq::<char>::empty();
    let lines = seq![a, b];
    assert(lines.drop_last() =~= seq![a]);
    assert(seq![a].drop_last() =~= Seq::empty());
    assert(with_lines(none, seq![a].drop_last()) == none);
    assert(none + ta =~= ta);
    assert(with_lines(none, seq![a]) == ta.push('\n'));
    let more = with_lines(none, lines);
    assert(blocks.drop_last() =~= Seq::empty());
    assert(page_text(blocks.drop_last()) == none);
    let expected = ta + (if b.gap {
        seq!['\n', '\n']
    } else {
        seq!['\n']
    }) + tb;
    assert(more =~= expected.push('\n'));
    assert(more[more.len() - 2] == tb.last());
    assert(!text::is_white(tb.last()));
    assert(page_text(blocks) == more.push('\n'));
    assert(more.push('\n') =~= expected + seq!['\n', '\n']);
}

// ── laws of the page ────────────────────────────────────────────────────────

/// What the lines of a page show behind their numbers.
pub open spec fn shown_texts(lines: Seq<Seq<Span>>) -> Seq<Seq<char>> {
    Seq::new(lines.len(), |i: int| lines[i].last().text)
}

/// Between the two lines at the top and the two at the bottom a page shows all of its text: every
/// solid character of it, in order.
pub proof fn law_page_shows_its_text(name: Seq<char>, requested: int, total: int, raw: Seq<char>, width: u64)
    requires
        total > 0,
        width <= u32::MAX,
    ensures
        ({
            let page = page_view(name, requested, total, raw, width);
            &&& page.len() >= 5
            &&& wrap::solid_lines(shown_texts(page.subrange(2, page.len() - 2))) == text::solid(raw)
        }),
{
    let max_w = viewer::less(viewer::panel_width(width, 80) as int, 4) as nat;
    let lines = wrap::wrapped(raw, Measure::Display, max_w);
    let page = page_view(name, requested, total, raw, width);
    assert(max_w > 0);
    wrap::lemma_some_line(raw, Measure::Display, max_w);
    wrap::law_wrap_keeps_solid_characters(raw, Measure::Display, max_w);
    let body = page.subrange(2, page.len() - 2);
    assert(body =~= body_lines(lines, total));
    reveal_strlit("");
    assert(shown_texts(body) =~= lines) by {
        assert forall|i: int| 0 <= i < lines.len() implies shown_texts(body)[i] == lines[i] by {
            if lines[i].len() == 0 {
                assert(lines[i] =~= ""@);
            }
        }
    }
}

/// Every line with text starts with its number, counted from one, and a rule.
pub proof fn law_lines_are_numbered(
    name: Seq<char>,
    requested: int,
    total: int,
    raw: Seq<char>,
    width: u64,
    i: int,
)
    requires
        total > 0,
        width <= u32::MAX,
        2 <= i < page_view(name, requested, total, raw, width).len() - 2,
        page_view(name, requested, total, raw, width)[i].last().text.len() > 0,
    ensures
        ({
            let line = page_view(name, requested, total, raw, width)[i];
            let number = text::decimal(i - 1);
            let n = line[0].text.len() as int;
            &&& line.len() == 2
            &&& n >= number.len() + 2
            &&& line[0].text.subrange(n - 2 - number.len(), n - 2) == number
            &&& line[0].text[n - 2] == '\u{2502}'
            &&& line[0].text[n - 1] == ' '
        }),
{
    let max_w = viewer::less(viewer::panel_width(width, 80) as int, 4) as nat;
    let lines = wrap::wrapped(raw, Measure::Display, max_w);
    wrap::lemma_some_line(raw, Measure::Display, max_w);
    let page = page_view(name, requested, total, raw, width);
    assert(page[i] == body_lines(lines, total)[i - 2]);
    reveal_strlit("");
    reveal_strlit("\u{2502} ");
    let number = text::decimal(i - 1);
    text::law_filled_text_ends_with_the_text(number, text::decimal(total).len(), ' ');
    let filled = text::filled(number, text::decimal(total).len(), ' ');
    let line = page[i];
    let n = line[0].text.len() as int;
    assert(line[0].text.subrange(n - 2 - number.len(), n - 2) =~= filled.skip(filled.len() - number.len()));
}

// ── laws of the picture ─────────────────────────────────────────────────────

impl Pixmap {
    proof fn lemma_rgb_len(self, rows: int)
        requires
            0 <= rows,
        ensures
            self.rgb(rows).len() == rows * (3 * self.width),
        decreases rows,
    {
        if rows > 0 {
            self.lemma_rgb_len(rows - 1);
            assert((rows - 1) * (3 * self.width) + 3 * self.width == rows * (3 * self.width)) by (nonlinear_arith);
        } else {
            assert(0 * (3 * self.width) == 0);
        }
    }

    proof fn lemma_pixel(self, rows: int, x: int, y: int, c: int)
        requires
            0 <= x < self.width,
            0 <= y < rows,
            0 <= c < 3,
        ensures
            0 <= y * (3 * self.width) + 3 * x + c < self.rgb(rows).len(),
            self.rgb(rows)[y * (3 * self.width) + 3 * x + c] == self.samples@[y * self.stride + x * self.n + c],
        decreases rows,
    {
        let k = 3 * x + c;
        self.lemma_rgb_len(rows);
        self.lemma_rgb_len(rows - 1);
        assert(0 <= y * (3 * self.width)) by (nonlinear_arith)
            requires
                0 <= y,
        ;
        if y < rows - 1 {
            self.lemma_pixel(rows - 1, x, y, c);
        } else {
            assert(k / 3 == x && k % 3 == c);
            assert(self.row_rgb(y)[k] == self.samples@[y * self.stride + x * self.n + c]);
        }
    }

    /// A picture has three bytes for each pixel, row by row from the top: the first three samples
    /// of that pixel, in their order. It has all rows if the samples reach that far.
    pub proof fn law_pixels_keep_their_place(self, x: int, y: int, c: int)
        requires
            0 <= x < self.width,
            0 <= y < self.height,
            0 <= c < 3,
            (self.height - 1) * self.stride + self.width * self.n <= self.samples@.len(),
        ensures
            ({
                let rgb = self.rgb(self.rows_from(0));
                &&& rgb.len() == self.height * (3 * self.width)
                &&& rgb[y * (3 * self.width) + 3 * x + c] == self.samples@[y * self.stride + x * self.n + c]
            }),
    {
        self.lemma_all_rows(0);
        self.lemma_rgb_len(self.height as int);
        self.lemma_pixel(self.height as int, x, y, c);
    }

    proof fn lemma_all_rows(self, y: int)
        requires
            0 <= y <= self.height,
            (self.height - 1) * self.stride + self.width * self.n <= self.samples@.len(),
        ensures
            self.rows_from(y) == self.height,
        decreases self.height - y,
    {
        if y < self.height {
            assert(y * self.stride <= (self.height - 1) * self.stride) by (nonlinear_arith)
                requires
                    y <= self.height - 1,
            ;
            self.lemma_all_rows(y + 1);
        }
    }
}

// ── laws of the keys ────────────────────────────────────────────────────────

/// Each key turns to its page: the next or the one before, as long as there is one, the first or the
/// last. Any other key turns no page.
pub proof fn law_keys_turn_to_their_page(key: Seq<char>, page: i64, total: i64)
    requires
        0 <= page < total,
    ensures
        key == "tab"@ || key == "char:]"@ || key == "char:n"@ || key == "pagedown"@ ==> {
            &&& page + 1 < total ==> next_page(key, page, total) == page + 1
            &&& page + 1 == total ==> next_page(key, page, total) == page
        },
        key == "backtab"@ || key == "char:["@ || key == "char:p"@ || key == "pageup"@ ==> {
            &&& page > 0 ==> next_page(key, page, total) == page - 1
            &&& page == 0 ==> next_page(key, page, total) == 0
        },
        key == "home"@ || key == "char:g"@ ==> next_page(key, page, total) == 0,
        key == "end"@ || key == "char:G"@ ==> next_page(key, page, total) == total - 1,
        next_page(key, page, total) != page ==> (key == "tab"@ || key == "char:]"@ || key == "char:n"@ || key
            == "pagedown"@ || key == "backtab"@ || key == "char:["@ || key == "char:p"@ || key == "pageup"@ || key
            == "home"@ || key == "char:g"@ || key == "end"@ || key == "char:G"@),
{
    reveal_strlit("tab");
    reveal_strlit("char:]");
    reveal_strlit("char:n");
    reveal_strlit("pagedown");
    reveal_strlit("backtab");
    reveal_strlit("char:[");
    reveal_strlit("char:p");
    reveal_strlit("pageup");
    reveal_strlit("home");
    reveal_strlit("char:g");
    reveal_strlit("end");
    reveal_strlit("char:G");
    assert("tab"@[0] == 't' && "end"@[0] == 'e' && "home"@.len() == 4 && "pageup"@[0] == 'p');
    assert("char:]"@[5] == ']' && "char:n"@[5] == 'n' && "char:["@[5] == '[' && "char:p"@[5] == 'p');
    assert("char:g"@[5] == 'g' && "char:G"@[5] == 'G' && "char:]"@[0] == 'c' && "char:n"@[0] == 'c');
    assert("char:["@[0] == 'c' && "char:p"@[0] == 'c' && "char:g"@[0] == 'c' && "char:G"@[0] == 'c');
    assert("pagedown"@.len() == 8 && "backtab"@.len() == 7 && "tab"@.len() == 3 && "end"@.len() == 3);
    assert("pageup"@.len() == 6);
}

// ── laws of the status bar ──────────────────────────────────────────────────

/// The first line of a page has the name of the document and tells which page of how many it is; the
/// last one says whether another one follows.
pub proof fn law_page_tells_its_number(name: Seq<char>, requested: int, total: int, raw: Seq<char>, width: u64)
    requires
        0 <= requested,
        total > 0,
    ensures
        ({
            let page = page_view(name, requested, total, raw, width);
            let number = if requested < total {
                requested + 1
            } else {
                total
            };
            let label = seq![' ', ' ', 'p', 'a', 'g', 'e', ' '];
            &&& page.len() >= 4
            &&& page[0][1].text == seq![' ', ' '] + name
            &&& page[0][2].text == label + text::decimal(number) + seq!['/'] + text::decimal(total)
            &&& page.last().len() == (if number < total {
                5int
            } else {
                1int
            })
        }),
{
    reveal_strlit("  ");
    reveal_strlit("  page ");
    reveal_strlit("/");
    assert("  "@ =~= seq![' ', ' ']);
    assert("  page "@ =~= seq![' ', ' ', 'p', 'a', 'g', 'e', ' ']);
    assert("/"@ =~= seq!['/']);
    let max_w = viewer::less(viewer::panel_width(width, 80) as int, 4) as nat;
    let body = body_lines(wrap::wrapped(raw, Measure::Display, max_w), total);
    let page = page_view(name, requested, total, raw, width);
    assert(page.len() == body.len() + 4);
}

impl Pixmap {
    /// Rows that the samples do not reach are left out, and all that follow them.
    pub proof fn law_incomplete_rows_are_left_out(self, y: int)
        requires
            0 <= y < self.height,
            y * self.stride + self.width * self.n > self.samples@.len(),
        ensures
            self.rgb(self.rows_from(0)).len() <= y * (3 * self.width),
    {
        self.lemma_rows_bounded(0, y);
        self.lemma_rgb_len(self.rows_from(0));
        assert(self.rows_from(0) * (3 * self.width) <= y * (3 * self.width)) by (nonlinear_arith)
            requires
                0 <= self.rows_from(0) <= y,
        ;
    }

    proof fn lemma_rows_bounded(self, from: int, y: int)
        requires
            0 <= from <= y < self.height,
            !self.has_row(y),
        ensures
            from <= self.rows_from(from) <= y,
        decreases self.height - from,
    {
        if from < y && self.has_row(from) {
            self.lemma_rows_bounded(from + 1, y);
        }
    }
}

/// Text is white behind a dark grey number; a page without text says so.
pub proof fn law_text_is_white(line: Seq<char>, number: int, total: int)
    requires
        line.len() > 0,
    ensures
        body_line(line, number, total).last().fg == "white"@,
        !body_line(line, number, total).last().bold,
        body_line(line, number, total)[0].fg == "darkgray"@,
        body_lines(Seq::empty(), total).len() == 1,
        body_lines(Seq::empty(), total)[0].last().text == "  (no text on this page)"@,
{
}

proof fn lemma_line_added(out: Seq<char>, line: PageLine)
    ensures
        with_line(out, line) == out + with_line(Seq::empty(), line),
{
    let none = Seq::<char>::empty();
    assert(out + none =~= out);
    let t = text::trimmed(line_chars(line.chars@));
    if line.chars@.len() > 0 {
        let a = if line.gap {
            out.push('\n')
        } else {
            out
        };
        let b = if line.gap {
            none.push('\n')
        } else {
            none
        };
        assert(a =~= out + b);
        assert((a + t).push('\n') =~= out + (b + t).push('\n'));
    }
}

proof fn lemma_lines_added(out: Seq<char>, lines: Seq<PageLine>)
    ensures
        with_lines(out, lines) == out + with_lines(Seq::empty(), lines),
    decreases lines.len(),
{
    let none = Seq::<char>::empty();
    if lines.len() > 0 {
        lemma_lines_added(out, lines.drop_last());
        let x = with_lines(none, lines.drop_last());
        lemma_line_added(out + x, lines.last());
        lemma_line_added(x, lines.last());
        let y = with_line(none, lines.last());
        assert((out + x) + y =~= out + (x + y));
    } else {
        assert(out + none =~= out);
    }
}

/// Blocks with text follow each other as they are: each adds what it is by itself.
pub proof fn law_blocks_follow_each_other(head: Seq<Vec<PageLine>>, block: Vec<PageLine>)
    requires
        with_lines(Seq::empty(), block@).len() >= 2,
    ensures
        page_text(head.push(block)) == page_text(head) + page_text(seq![block]),
{
    let none = Seq::<char>::empty();
    let out = page_text(head);
    let x = with_lines(none, block@);
    lemma_lines_added(out, block@);
    assert(head.push(block).drop_last() =~= head);
    assert(seq![block].drop_last() =~= Seq::empty());
    assert(page_text(seq![block].drop_last()) == none);
    assert(page_text(seq![block]) == with_block(none, block@));
    assert((out + x).push('\n') =~= out + x.push('\n'));
}

/// The lines of a block follow each other in the same way.
pub proof fn law_lines_follow_each_other(out: Seq<char>, a: Seq<PageLine>, b: Seq<PageLine>)
    ensures
        with_lines(out, a + b) == with_lines(out, a) + with_lines(Seq::empty(), b),
    decreases b.len(),
{
    let none = Seq::<char>::empty();
    if b.len() == 0 {
        assert(a + b =~= a);
        assert(with_lines(out, a) + none =~= with_lines(out, a));
    } else {
        law_lines_follow_each_other(out, a, b.drop_last());
        assert((a + b).drop_last() =~= a + b.drop_last());
        let x = with_lines(none, b.drop_last());
        lemma_line_added(with_lines(out, a) + x, b.last());
        lemma_line_added(x, b.last());
        assert((with_lines(out, a) + x) + with_line(none, b.last()) =~= with_lines(out, a) + (x + with_line(
            none,
            b.last(),
        )));
    }
}

/// A document is shown under its file name, and under its whole path where that has none.
pub proof fn law_documents_are_shown_by_name(dir: Seq<char>, name: Seq<char>, path: Seq<char>)
    requires
        paths::is_plain_name(name),
        paths::last_component(path) is None,
    ensures
        shown_name(crate::remote::joined(dir, name)) == name,
        shown_name(path) == path,
{
    crate::remote::law_joined_path_ends_with_the_name(dir, name);
}

} // verus!
