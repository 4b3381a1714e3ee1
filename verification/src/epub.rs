//! Books in EPUB: one chapter on the screen at a time.

use crate::html;
use crate::html::{html_to_styled_lines, Styled, StyledLine, StyledLineType};
use crate::json;
use crate::state;
use crate::state::{parse_state, put_text, state_u, write_state, ViewerHandleKeyResult};
use crate::text;
use crate::text::{decimal_of, same_text, signed_decimal};
use crate::viewer;
use crate::viewer::{
    add_line, add_lines, add_span, blank_line, clamp_index, error_lines, line1, line2, line3, panel, repeat,
    sp, Span, ViewerLine, ViewerSpan,
};
use crate::width::Measure;
use crate::wrap;
use crate::wrap::wrap_text;
use vstd::prelude::*;
use vstd::string::*;
use vstd::utf8::*;

verus! {

/// The message when an image is asked for.
pub const NO_IMAGE: &'static str = "EPUB viewer does not support image rendering";

/// Breaks the paragraphs of `text`, which end with line feeds, into lines of at most `max_w`
/// columns; only a single character can be wider.
pub fn word_wrap(text: &str, max_w: usize) -> (r: Vec<String>)
    ensures
        text::texts(r@) == wrap::wrapped(text@, Measure::Columns, max_w as nat),
        max_w > 0 ==> forall|i: int|
            0 <= i < r@.len() ==> Measure::Columns.of((#[trigger] r@[i])@) <= max_w || r@[i]@.len() == 1,
{
    wrap_text(text, Measure::Columns, max_w)
}

// ── one line ────────────────────────────────────────────────────────────────

/// The upper case of an ASCII character.
pub open spec fn ascii_upper(c: char) -> char {
    if 'a' <= c <= 'z' {
        (c as u32 - 32) as char
    } else {
        c
    }
}

/// The upper case of a text with characters beyond ASCII, as `str::to_uppercase` gives it.
pub uninterp spec fn unicode_upper(s: Seq<char>) -> Seq<char>;

/// `str::to_uppercase`: ASCII letters change one by one; the mapping of other characters is
/// Unicode's.
#[verifier::external_body]
fn to_uppercase(s: &str) -> (r: String)
    ensures
        r@ == (if is_ascii_chars(s@) {
            s@.map_values(|c: char| ascii_upper(c))
        } else {
            unicode_upper(s@)
        }),
{
    s.to_uppercase()
}

/// The upper case of a text.
pub open spec fn uppered(s: Seq<char>) -> Seq<char> {
    if is_ascii_chars(s) {
        s.map_values(|c: char| ascii_upper(c))
    } else {
        unicode_upper(s)
    }
}

/// What a line is shown as. A heading of the first level stands in upper case below a blank
/// line; everything else takes one line.
pub open spec fn shown(ty: StyledLineType, line: Seq<char>) -> Seq<Seq<Span>> {
    if line.len() == 0 {
        seq![viewer::blank()]
    } else {
        match ty {
            StyledLineType::Heading(level) => if level == 1 {
                seq![
                    viewer::blank(),
                    seq![viewer::span("  "@ + uppered(line), "lightcyan"@, true)],
                ]
            } else if level == 2 {
                seq![
                    seq![
                        viewer::span("  "@, "darkgray"@, false),
                        viewer::span(line, "cyan"@, true),
                    ],
                ]
            } else {
                seq![
                    seq![
                        viewer::span(
                            "  "@ + viewer::repeated("  "@, (level - 1) as nat),
                            "darkgray"@,
                            false,
                        ),
                        viewer::span("\u{25B8} "@, "lightyellow"@, false),
                        viewer::span(line, "lightyellow"@, true),
                    ],
                ]
            },
            StyledLineType::Quote => seq![
                seq![
                    viewer::span("  \u{2502} "@, "yellow"@, false),
                    viewer::span(line, "yellow"@, false),
                ],
            ],
            StyledLineType::Code => seq![
                seq![viewer::span("  "@, "darkgray"@, false), viewer::span(line, "gray"@, false)],
            ],
            StyledLineType::ListItem(depth) => seq![
                seq![
                    viewer::span(viewer::repeated("    "@, depth as nat), "white"@, false),
                    viewer::span("\u{2022} "@, "lightyellow"@, false),
                    viewer::span(line, "white"@, false),
                ],
            ],
            StyledLineType::Normal => seq![seq![viewer::span("  "@ + line, "white"@, false)]],
        }
    }
}

/// What some lines of one style are shown as.
pub open spec fn shown_all(ty: StyledLineType, lines: Seq<Seq<char>>) -> Seq<Seq<Span>>
    decreases lines.len(),
{
    if lines.len() == 0 {
        Seq::empty()
    } else {
        shown_all(ty, lines.drop_last()) + shown(ty, lines.last())
    }
}

/// The lines that a styled line fills.
pub open spec fn shown_lines(l: Styled, max_w: nat) -> Seq<Seq<Span>> {
    shown_all(l.ty, wrap::wrapped(l.text, Measure::Columns, max_w))
}

/// A line of a style that takes one line.
fn show_one(ty: StyledLineType, line: &str) -> (r: ViewerLine)
    requires
        ty != StyledLineType::Heading(0),
        ty != StyledLineType::Heading(1),
        line@.len() > 0,
    ensures
        seq![r@] == shown(ty, line@),
{
    match ty {
        StyledLineType::Heading(level) => {
            if level == 2 {
                line2(sp("  ", "darkgray", false), sp(line, "cyan", true))
            } else {
                let mut indent = "  ".to_string();
                indent.append(repeat("  ", (level - 1) as usize).as_str());
                line3(
                    sp(indent.as_str(), "darkgray", false),
                    sp("\u{25B8} ", "lightyellow", false),
                    sp(line, "lightyellow", true),
                )
            }
        },
        StyledLineType::Quote => line2(sp("  \u{2502} ", "yellow", false), sp(line, "yellow", false)),
        StyledLineType::Code => line2(sp("  ", "darkgray", false), sp(line, "gray", false)),
        StyledLineType::ListItem(depth) => {
            let spaces = repeat("    ", depth);
            line3(
                sp(spaces.as_str(), "white", false),
                sp("\u{2022} ", "lightyellow", false),
                sp(line, "white", false),
            )
        },
        StyledLineType::Normal => {
            let mut s = "  ".to_string();
            s.append(line);
            line1(sp(s.as_str(), "white", false))
        },
    }
}

/// Appends what a line is shown as.
fn show_line(ty: StyledLineType, line: &str, out: &mut Vec<ViewerLine>)
    requires
        ty != StyledLineType::Heading(0),
    ensures
        viewer::lines_view(final(out)@) == viewer::lines_view(old(out)@) + shown(ty, line@),
{
    let ghost before = viewer::lines_view(out@);
    let first_level = match ty {
        StyledLineType::Heading(level) => level == 1,
        _ => false,
    };
    if line.unicode_len() == 0 {
        add_line(out, blank_line());
    } else if first_level {
        let mut s = "  ".to_string();
        s.append(to_uppercase(line).as_str());
        add_line(out, blank_line());
        add_line(out, line1(sp(s.as_str(), "lightcyan", true)));
    } else {
        add_line(out, show_one(ty, line));
    }
    assert(viewer::lines_view(out@) =~= before + shown(ty, line@));
}

/// Renders a styled line with its colours, indentation and word wrap.
pub fn render_styled_line(styled: &StyledLine, max_w: usize) -> (r: Vec<ViewerLine>)
    requires
        styled.ty != StyledLineType::Heading(0),
    ensures
        viewer::lines_view(r@) == shown_lines(styled@, max_w as nat),
{
    let wrapped = word_wrap(styled.text.as_str(), max_w);
    let ghost all = text::texts(wrapped@);
    let mut out: Vec<ViewerLine> = Vec::new();
    assert(viewer::lines_view(out@) =~= shown_all(styled.ty, all.take(0)));
    for i in 0..wrapped.len()
        invariant
            styled.ty != StyledLineType::Heading(0),
            all == text::texts(wrapped@),
            viewer::lines_view(out@) == shown_all(styled.ty, all.take(i as int)),
    {
        assert(all[i as int] == wrapped@[i as int]@);
        assert(all.take(i + 1).drop_last() =~= all.take(i as int));
        show_line(styled.ty, wrapped[i].as_str(), &mut out);
    }
    assert(all.take(all.len() as int) =~= all);
    out
}

/// A heading of the first level in one line is shown as a blank line and then, in upper case,
/// as a bold line in light cyan.
pub proof fn law_title_stands_below_a_blank_line(l: Styled, max_w: nat)
    requires
        l.ty == StyledLineType::Heading(1),
        l.text.len() > 0,
        wrap::wrapped(l.text, Measure::Columns, max_w) == seq![l.text],
    ensures
        shown_lines(l, max_w) == seq![
            viewer::blank(),
            seq![viewer::span("  "@ + uppered(l.text), "lightcyan"@, true)],
        ],
{
    let lines = seq![l.text];
    assert(lines.drop_last() =~= Seq::empty());
    assert(shown_all(l.ty, lines.drop_last()) =~= Seq::empty());
    assert(shown_all(l.ty, lines) =~= shown(l.ty, l.text));
}

// ── one chapter ─────────────────────────────────────────────────────────────

/// The lines of some styled lines, one after another.
pub open spec fn body_lines(lines: Seq<Styled>, max_w: nat) -> Seq<Seq<Span>>
    decreases lines.len(),
{
    if lines.len() == 0 {
        Seq::empty()
    } else {
        body_lines(lines.drop_last(), max_w) + shown_lines(lines.last(), max_w)
    }
}

/// The status bar.
pub open spec fn status_line(title: Seq<char>, author: Seq<char>, chapter: int, count: int) -> Seq<Span> {
    let head = seq![
        viewer::span("EPUB"@, "yellow"@, true),
        viewer::span("  "@ + title, "lightcyan"@, false),
    ];
    let by = if author.len() == 0 {
        Seq::empty()
    } else {
        seq![viewer::span("  \u{2014} "@ + author, "darkgray"@, false)]
    };
    let place = seq![
        viewer::span(
            "  ["@ + text::decimal(chapter + 1) + "/"@ + text::decimal(count) + "]"@,
            "cyan"@,
            false,
        ),
    ];
    let keys = if count > 1 {
        seq![viewer::span("  [tab/[/]] chapter"@, "darkgray"@, false)]
    } else {
        Seq::empty()
    };
    head + by + place + keys
}

/// The line below a chapter.
pub open spec fn footer_line(chapter: int, count: int) -> Seq<Span> {
    if chapter + 1 < count {
        seq![
            viewer::span("  \u{2500}\u{2500} end of chapter \u{2500}\u{2500} "@, "darkgray"@, false),
            viewer::span("tab"@, "cyan"@, false),
            viewer::span(" / "@, "darkgray"@, false),
            viewer::span("]"@, "cyan"@, false),
            viewer::span(" \u{2192} next chapter"@, "darkgray"@, false),
        ]
    } else {
        seq![viewer::span("  \u{2500}\u{2500} end of book \u{2500}\u{2500}"@, "darkgray"@, false)]
    }
}

/// What is shown of a book.
pub open spec fn page(
    requested: int,
    count: int,
    title: Option<Seq<char>>,
    author: Option<Seq<char>>,
    content: Option<Seq<char>>,
    width: u64,
) -> Seq<Seq<Span>> {
    let chapter = viewer::clamped(requested, count);
    if count == 0 {
        viewer::error_view("EPUB Viewer  "@, "EPUB has no chapters"@)
    } else {
        match content {
            None => viewer::error_view("EPUB Viewer  "@, "Cannot read chapter content"@),
            Some(markup) => {
                let max_w = viewer::less(viewer::panel_width(width, 80) as int, 4) as nat;
                let status = status_line(
                    match title {
                        Some(t) => t,
                        None => "Unknown"@,
                    },
                    match author {
                        Some(a) => a,
                        None => ""@,
                    },
                    chapter,
                    count,
                );
                seq![status, viewer::blank()] + body_lines(html::lines_of_html(markup), max_w) + seq![
                    viewer::blank(),
                    footer_line(chapter, count),
                ]
            },
        }
    }
}

fn text_or<'a>(value: &'a Option<String>, other: &'a str) -> (r: &'a str)
    ensures
        r@ == (match value {
            Some(s) => s@,
            None => other@,
        }),
{
    match value {
        Some(s) => s.as_str(),
        None => other,
    }
}

fn status_bar(title: &str, author: &str, chapter: usize, count: usize) -> (r: ViewerLine)
    requires
        chapter < count,
    ensures
        r@ == status_line(title@, author@, chapter as int, count as int),
{
    let mut spans: Vec<ViewerSpan> = Vec::new();
    add_span(&mut spans, sp("EPUB", "yellow", true));
    let mut name = "  ".to_string();
    name.append(title);
    add_span(&mut spans, sp(name.as_str(), "lightcyan", false));
    if author.unicode_len() > 0 {
        let mut by = "  \u{2014} ".to_string();
        by.append(author);
        add_span(&mut spans, sp(by.as_str(), "darkgray", false));
    }
    let mut place = "  [".to_string();
    place.append(decimal_of((chapter + 1) as u64).as_str());
    place.append("/");
    place.append(decimal_of(count as u64).as_str());
    place.append("]");
    add_span(&mut spans, sp(place.as_str(), "cyan", false));
    if count > 1 {
        add_span(&mut spans, sp("  [tab/[/]] chapter", "darkgray", false));
    }
    assert(viewer::spans_of(spans@) =~= status_line(title@, author@, chapter as int, count as int));
    ViewerLine { spans }
}

fn footer(chapter: usize, count: usize) -> (r: ViewerLine)
    requires
        chapter < count,
    ensures
        r@ == footer_line(chapter as int, count as int),
{
    let mut spans: Vec<ViewerSpan> = Vec::new();
    if chapter + 1 < count {
        add_span(&mut spans, sp("  \u{2500}\u{2500} end of chapter \u{2500}\u{2500} ", "darkgray", false));
        add_span(&mut spans, sp("tab", "cyan", false));
        add_span(&mut spans, sp(" / ", "darkgray", false));
        add_span(&mut spans, sp("]", "cyan", false));
        add_span(&mut spans, sp(" \u{2192} next chapter", "darkgray", false));
    } else {
        add_span(&mut spans, sp("  \u{2500}\u{2500} end of book \u{2500}\u{2500}", "darkgray", false));
    }
    assert(viewer::spans_of(spans@) =~= footer_line(chapter as int, count as int));
    ViewerLine { spans }
}

fn render_body(markup: &str, max_w: usize) -> (r: Vec<ViewerLine>)
    ensures
        viewer::lines_view(r@) == body_lines(html::lines_of_html(markup@), max_w as nat),
{
    let styled_lines = html_to_styled_lines(markup);
    let ghost all = html::lines_of_html(markup@);
    assert(html::styled(styled_lines@).len() == styled_lines@.len());
    let mut out: Vec<ViewerLine> = Vec::new();
    assert(viewer::lines_view(out@) =~= body_lines(all.take(0), max_w as nat));
    for i in 0..styled_lines.len()
        invariant
            all == html::lines_of_html(markup@),
            html::styled(styled_lines@) == all,
            viewer::lines_view(out@) == body_lines(all.take(i as int), max_w as nat),
    {
        proof {
            assert(html::styled(styled_lines@)[i as int] == styled_lines@[i as int]@);
            html::law_lines_are_clean(markup@, i as int);
            assert(all.take(i + 1).drop_last() =~= all.take(i as int));
        }
        let more = render_styled_line(&styled_lines[i], max_w);
        add_lines(&mut out, more);
    }
    assert(all.take(all.len() as int) =~= all);
    out
}

/// Lines that start with nothing bold.
pub open spec fn starts_plain(lines: Seq<Seq<Span>>) -> bool {
    lines.len() > 0 ==> lines[0].len() > 0 && !lines[0][0].bold
}

proof fn lemma_shown_starts_plain(ty: StyledLineType, lines: Seq<Seq<char>>)
    ensures
        starts_plain(shown_all(ty, lines)),
    decreases lines.len(),
{
    if lines.len() > 0 {
        lemma_shown_starts_plain(ty, lines.drop_last());
        assert(starts_plain(shown(ty, lines.last())));
    }
}

/// No chapter starts with a title right below the status bar, so that none has to be left out
/// there: a heading of the first level stands below a blank line, and any other line starts
/// with something that is not bold.
pub proof fn law_chapter_starts_without_a_title(lines: Seq<Styled>, max_w: nat)
    ensures
        starts_plain(body_lines(lines, max_w)),
    decreases lines.len(),
{
    if lines.len() > 0 {
        let last = lines.last();
        law_chapter_starts_without_a_title(lines.drop_last(), max_w);
        lemma_shown_starts_plain(last.ty, wrap::wrapped(last.text, Measure::Columns, max_w));
    }
}

/// The chapter that a state asks for.
pub fn requested_chapter(state_json: &str) -> (r: usize)
    ensures
        r == state::index_in(state::state_of(state_json@), "chapter"@, 0),
{
    state_u(&parse_state(state_json), "chapter", 0)
}

/// Shows the requested chapter of a book of `count` chapters, or its last one; `content` is
/// the markup of that chapter.
pub fn render_document(
    requested: usize,
    count: usize,
    title: &Option<String>,
    author: &Option<String>,
    content: &Option<String>,
    width: u64,
) -> (r: Vec<ViewerLine>)
    ensures
        viewer::lines_view(r@) == page(
            requested as int,
            count as int,
            crate::paths::text_of(*title),
            crate::paths::text_of(*author),
            crate::paths::text_of(*content),
            width,
        ),
{
    if count == 0 {
        return error_lines("EPUB Viewer  ", "EPUB has no chapters");
    }
    let chapter: usize = clamp_index(requested, count);
    let markup = match content {
        Some(markup) => markup,
        None => return error_lines("EPUB Viewer  ", "Cannot read chapter content"),
    };
    let panel_w: usize = panel(width, 80);
    let max_w: usize = if panel_w < 4 { 0 } else { panel_w - 4 };
    let rendered = render_body(markup.as_str(), max_w);
    let mut out: Vec<ViewerLine> = Vec::new();
    add_line(&mut out, status_bar(text_or(title, "Unknown"), text_or(author, ""), chapter, count));
    add_line(&mut out, blank_line());
    add_lines(&mut out, rendered);
    add_line(&mut out, blank_line());
    add_line(&mut out, footer(chapter, count));
    assert(viewer::lines_view(out@) =~= page(
        requested as int,
        count as int,
        crate::paths::text_of(*title),
        crate::paths::text_of(*author),
        crate::paths::text_of(*content),
        width,
    ));
    out
}

// ── keys ────────────────────────────────────────────────────────────────────

/// The smaller of two numbers.
pub open spec fn lesser(a: i64, b: i64) -> i64 {
    if a < b {
        a
    } else {
        b
    }
}

/// The larger of two numbers.
pub open spec fn greater(a: i64, b: i64) -> i64 {
    if a < b {
        b
    } else {
        a
    }
}

/// The chapter that a key leads to from `chapter`, in a book of `count` chapters.
pub open spec fn next_chapter(key: Seq<char>, chapter: i64, count: i64) -> i64 {
    if key == "tab"@ || key == "char:]"@ || key == "char:n"@ {
        lesser(chapter.wrapping_add(1), count.wrapping_sub(1))
    } else if key == "backtab"@ || key == "char:["@ || key == "char:p"@ {
        greater(chapter.wrapping_sub(1), 0)
    } else {
        chapter
    }
}

/// The chapter that a key leads to.
pub fn turn(key: &str, chapter: i64, count: i64) -> (r: i64)
    ensures
        r == next_chapter(key@, chapter, count),
{
    if same_text(key, "tab") || same_text(key, "char:]") || same_text(key, "char:n") {
        let next: i64 = chapter.wrapping_add(1);
        let last: i64 = count.wrapping_sub(1);
        if next < last {
            next
        } else {
            last
        }
    } else if same_text(key, "backtab") || same_text(key, "char:[") || same_text(key, "char:p") {
        let previous: i64 = chapter.wrapping_sub(1);
        if previous < 0 {
            0
        } else {
            previous
        }
    } else {
        chapter
    }
}

/// Number of chapters to go by: one where the book cannot be opened.
pub open spec fn chapters(spine: Option<usize>) -> i64 {
    match spine {
        Some(n) => n as i64,
        None => 1,
    }
}

/// Handles a key. The new state holds the new chapter, and the next call finds it there, with
/// everything else that the state held.
pub fn handle_key(key: &str, state_json: &str, spine: Option<usize>) -> (r: ViewerHandleKeyResult)
    ensures
        ({
            let before = state::state_of(state_json@);
            let chapter = state::index_in(before, "chapter"@, 0) as i64;
            let next = next_chapter(key@, chapter, chapters(spine));
            &&& r.consumed == (next != chapter)
            &&& r.state_json@ == json::json_text(
                state::with_text(before, "chapter"@, text::decimal(next as int)),
            )
            &&& 0 <= next <= usize::MAX ==> state::index_in(
                state::state_of(r.state_json@),
                "chapter"@,
                0,
            ) == next
            &&& forall|k: Seq<char>|
                k != "chapter"@ ==> #[trigger] json::keeps_field(before, state::state_of(r.state_json@), k)
        }),
{
    let mut current = parse_state(state_json);
    let ghost before = json::model(current);
    let chapter: i64 = state_u(&current, "chapter", 0) as i64;
    let count: i64 = match spine {
        Some(n) => n as i64,
        None => 1,
    };
    let next: i64 = turn(key, chapter, count);
    let written = signed_decimal(next);
    put_text(&mut current, "chapter", written.as_str());
    let state_json = write_state(&current);
    proof {
        state::lemma_text_put(
            before,
            "chapter"@,
            text::decimal(next as int),
            state::state_of(state_json@),
        );
        if 0 <= next <= usize::MAX {
            state::law_stored_index_is_read(
                state::state_of(state_json@),
                "chapter"@,
                next as nat,
                0,
            );
        }
    }
    ViewerHandleKeyResult { consumed: next != chapter, state_json }
}

/// Within a book no key leads out of it.
pub proof fn law_chapter_stays_in_the_book(key: Seq<char>, chapter: i64, count: i64)
    requires
        0 <= chapter < count,
    ensures
        0 <= next_chapter(key, chapter, count) < count,
{
}

/// Turning forward and back again leads to the same chapter, unless it was the last one.
pub proof fn law_forward_and_back(chapter: i64, count: i64)
    requires
        0 <= chapter,
        chapter + 1 < count,
    ensures
        next_chapter("backtab"@, next_chapter("tab"@, chapter, count), count) == chapter,
{
    reveal_strlit("tab");
    reveal_strlit("backtab");
    reveal_strlit("char:]");
    reveal_strlit("char:n");
    assert("backtab"@[0] != "tab"@[0]);
    assert("backtab"@.len() != "char:]"@.len());
    assert("backtab"@.len() != "char:n"@.len());
}

// ── laws of the chapter ─────────────────────────────────────────────────────

/// The characters that a line shows last: those of the text, behind bullets and indents.
pub open spec fn shown_texts(lines: Seq<Seq<Span>>) -> Seq<Seq<char>> {
    Seq::new(lines.len(), |i: int| lines[i].last().text)
}

/// What a line is shown as ends with its text; a normal line and a heading of the first level have
/// two spaces before it in the same span. Empty lines are empty.
pub proof fn law_lines_show_their_text(ty: StyledLineType, line: Seq<char>)
    ensures
        shown(ty, line).len() > 0,
        shown(ty, line).last().len() > 0,
        line.len() == 0 ==> shown(ty, line).last().last().text.len() == 0,
        line.len() > 0 ==> shown(ty, line).last().last().text == (if ty == StyledLineType::Normal {
            seq![' ', ' '] + line
        } else if ty == StyledLineType::Heading(1) {
            seq![' ', ' '] + uppered(line)
        } else {
            line
        }),
        ty != StyledLineType::Heading(1) ==> shown(ty, line).len() == 1,
{
    reveal_strlit("");
    reveal_strlit("  ");
    assert("  "@ =~= seq![' ', ' ']);
}

proof fn lemma_two_spaces(line: Seq<char>)
    ensures
        text::solid(seq![' ', ' '] + line) == text::solid(line),
{
    let pad = seq![' ', ' '];
    text::lemma_solid_concat(pad, line);
    assert forall|i: int| 0 <= i < pad.len() implies text::is_white(#[trigger] pad[i]) by {}
    text::lemma_solid_white(pad);
    assert(Seq::<char>::empty() + text::solid(line) =~= text::solid(line));
}

proof fn lemma_solid_lines_concat(a: Seq<Seq<char>>, b: Seq<Seq<char>>)
    ensures
        wrap::solid_lines(a + b) == wrap::solid_lines(a) + wrap::solid_lines(b),
    decreases b.len(),
{
    if b.len() == 0 {
        assert(a + b =~= a);
        assert(wrap::solid_lines(a) + wrap::solid_lines(b) =~= wrap::solid_lines(a));
    } else {
        lemma_solid_lines_concat(a, b.drop_last());
        assert((a + b).drop_last() =~= a + b.drop_last());
        assert((a + b).last() == b.last());
        assert(wrap::solid_lines(a) + (wrap::solid_lines(b.drop_last()) + text::solid(b.last())) =~= (
        wrap::solid_lines(a) + wrap::solid_lines(b.drop_last())) + text::solid(b.last()));
    }
}

proof fn lemma_shown_all_solid(ty: StyledLineType, lines: Seq<Seq<char>>)
    requires
        ty != StyledLineType::Heading(1),
    ensures
        wrap::solid_lines(shown_texts(shown_all(ty, lines))) == wrap::solid_lines(lines),
    decreases lines.len(),
{
    if lines.len() > 0 {
        let head = lines.drop_last();
        let line = lines.last();
        lemma_shown_all_solid(ty, head);
        law_lines_show_their_text(ty, line);
        lemma_two_spaces(line);
        let all = shown_all(ty, lines);
        assert(shown_texts(all).drop_last() =~= shown_texts(shown_all(ty, head)));
        assert(shown_texts(all).last() == shown(ty, line).last().last().text);
        if line.len() == 0 {
            assert(text::solid(shown_texts(all).last()) =~= text::solid(line));
        }
    } else {
        assert(shown_texts(shown_all(ty, lines)) =~= Seq::empty());
    }
}

/// A styled line shows all of its text over the lines it fills.
pub proof fn law_styled_lines_show_all_their_text(l: Styled, max_w: nat)
    requires
        l.ty != StyledLineType::Heading(1),
    ensures
        wrap::solid_lines(shown_texts(shown_lines(l, max_w))) == text::solid(l.text),
{
    lemma_shown_all_solid(l.ty, wrap::wrapped(l.text, Measure::Columns, max_w));
    wrap::law_wrap_keeps_solid_characters(l.text, Measure::Columns, max_w);
}

proof fn lemma_body_solid(lines: Seq<Styled>, max_w: nat)
    requires
        forall|i: int| 0 <= i < lines.len() ==> (#[trigger] lines[i]).ty != StyledLineType::Heading(1),
    ensures
        wrap::solid_lines(shown_texts(body_lines(lines, max_w))) == html::solid_in(lines),
    decreases lines.len(),
{
    if lines.len() > 0 {
        let head = lines.drop_last();
        assert forall|i: int| 0 <= i < head.len() implies (#[trigger] head[i]).ty != StyledLineType::Heading(1) by {
            assert(head[i] == lines[i]);
        }
        lemma_body_solid(head, max_w);
        assert(lines[lines.len() - 1].ty != StyledLineType::Heading(1));
        law_styled_lines_show_all_their_text(lines.last(), max_w);
        let a = body_lines(head, max_w);
        let b = shown_lines(lines.last(), max_w);
        assert(shown_texts(a + b) =~= shown_texts(a) + shown_texts(b));
        lemma_solid_lines_concat(shown_texts(a), shown_texts(b));
    } else {
        assert(shown_texts(body_lines(lines, max_w)) =~= Seq::empty());
    }
}

/// Between the status bar and the footer a page shows the whole text of its chapter: every solid
/// character of the document outside its tags, in order. The chapter has no heading of the first
/// level here, whose characters would be in upper case.
pub proof fn law_page_shows_the_whole_chapter(
    requested: int,
    count: int,
    title: Option<Seq<char>>,
    author: Option<Seq<char>>,
    pieces: Seq<html::Piece>,
    width: u64,
)
    requires
        count > 0,
        forall|i: int| 0 <= i < pieces.len() ==> html::is_open_piece(#[trigger] pieces[i]),
        ({
            let lines = html::lines_of_html(html::written_out(pieces));
            forall|i: int| 0 <= i < lines.len() ==> (#[trigger] lines[i]).ty != StyledLineType::Heading(1)
        }),
    ensures
        ({
            let view = page(requested, count, title, author, Some(html::written_out(pieces)), width);
            &&& view.len() >= 4
            &&& wrap::solid_lines(shown_texts(view.subrange(2, view.len() - 2))) == text::solid(
                html::text_in(pieces),
            )
        }),
{
    let markup = html::written_out(pieces);
    let lines = html::lines_of_html(markup);
    let max_w = viewer::less(viewer::panel_width(width, 80) as int, 4) as nat;
    let view = page(requested, count, title, author, Some(markup), width);
    lemma_body_solid(lines, max_w);
    html::law_all_text_comes_out(pieces);
    assert(view.subrange(2, view.len() - 2) =~= body_lines(lines, max_w));
}

/// Items of a list are indented by four columns for each level, and headings below the second level
/// by two for each level and two more.
pub proof fn law_indents_follow_the_level(line: Seq<char>, depth: usize, level: u8)
    requires
        line.len() > 0,
        3 <= level <= 6,
    ensures
        shown(StyledLineType::ListItem(depth), line)[0][0].text == Seq::new(4 * depth as nat, |i: int| ' '),
        shown(StyledLineType::Heading(level), line)[0][0].text == Seq::new(2 * level as nat, |i: int| ' '),
        shown(StyledLineType::Heading(level), line)[0].last().bold,
        shown(StyledLineType::Heading(2), line)[0].last().bold,
{
    reveal_strlit("    ");
    reveal_strlit("  ");
    lemma_repeated_spaces("    "@, depth as nat);
    lemma_repeated_spaces("  "@, (level - 1) as nat);
    assert(viewer::repeated("    "@, depth as nat) =~= Seq::new(4 * depth as nat, |i: int| ' '));
    assert("  "@ + viewer::repeated("  "@, (level - 1) as nat) =~= Seq::new(2 * level as nat, |i: int| ' '));
}

proof fn lemma_repeated_spaces(unit: Seq<char>, n: nat)
    requires
        forall|i: int| 0 <= i < unit.len() ==> #[trigger] unit[i] == ' ',
    ensures
        viewer::repeated(unit, n).len() == n * unit.len(),
        forall|i: int| 0 <= i < viewer::repeated(unit, n).len() ==> #[trigger] viewer::repeated(unit, n)[i] == ' ',
    decreases n,
{
    if n > 0 {
        lemma_repeated_spaces(unit, (n - 1) as nat);
        assert((n - 1) * unit.len() + unit.len() == n * unit.len()) by (nonlinear_arith);
    } else {
        assert(0 * unit.len() == 0);
    }
}

// ── laws of the keys ────────────────────────────────────────────────────────

/// Each key turns to the next chapter or the one before, as long as there is one. Any other key turns
/// no page.
pub proof fn law_keys_turn_to_their_chapter(key: Seq<char>, chapter: i64, count: i64)
    requires
        0 <= chapter < count,
    ensures
        key == "tab"@ || key == "char:]"@ || key == "char:n"@ ==> {
            &&& chapter + 1 < count ==> next_chapter(key, chapter, count) == chapter + 1
            &&& chapter + 1 == count ==> next_chapter(key, chapter, count) == chapter
        },
        key == "backtab"@ || key == "char:["@ || key == "char:p"@ ==> {
            &&& chapter > 0 ==> next_chapter(key, chapter, count) == chapter - 1
            &&& chapter == 0 ==> next_chapter(key, chapter, count) == 0
        },
        next_chapter(key, chapter, count) != chapter ==> (key == "tab"@ || key == "char:]"@ || key == "char:n"@
            || key == "backtab"@ || key == "char:["@ || key == "char:p"@),
{
    reveal_strlit("tab");
    reveal_strlit("char:]");
    reveal_strlit("char:n");
    reveal_strlit("backtab");
    reveal_strlit("char:[");
    reveal_strlit("char:p");
    assert("tab"@.len() == 3 && "backtab"@.len() == 7 && "char:]"@.len() == 6 && "char:n"@.len() == 6);
    assert("char:["@.len() == 6 && "char:p"@.len() == 6);
    assert("char:]"@[5] == ']' && "char:n"@[5] == 'n' && "char:["@[5] == '[' && "char:p"@[5] == 'p');
}

// ── laws of the status bar ──────────────────────────────────────────────────

/// The first line of a page has the title of the book, the author if there is one, and which chapter
/// of how many it is; the last one says whether another one follows.
pub proof fn law_page_tells_its_chapter(
    requested: int,
    count: int,
    title: Seq<char>,
    author: Seq<char>,
    markup: Seq<char>,
    width: u64,
)
    requires
        0 <= requested,
        count > 0,
        author.len() > 0,
    ensures
        ({
            let view = page(requested, count, Some(title), Some(author), Some(markup), width);
            let plain = page(requested, count, None, None, Some(markup), width);
            let number = if requested < count {
                requested + 1
            } else {
                count
            };
            let place = seq![' ', ' ', '['] + text::decimal(number) + seq!['/'] + text::decimal(count) + seq![']'];
            &&& view.len() >= 4
            &&& view[0][1].text == seq![' ', ' '] + title
            &&& view[0][2].text == seq![' ', ' ', '\u{2014}', ' '] + author
            &&& view[0][3].text == place
            &&& plain[0][1].text == "  "@ + "Unknown"@
            &&& plain[0][2].text == place
            &&& view.last().len() == (if number < count {
                5int
            } else {
                1int
            })
            &&& view.last() == plain.last()
        }),
{
    reveal_strlit("  ");
    reveal_strlit("  \u{2014} ");
    reveal_strlit("  [");
    reveal_strlit("/");
    reveal_strlit("]");
    reveal_strlit("");
    assert("  "@ =~= seq![' ', ' ']);
    assert("  \u{2014} "@ =~= seq![' ', ' ', '\u{2014}', ' ']);
    assert("  ["@ =~= seq![' ', ' ', '[']);
    assert("/"@ =~= seq!['/']);
    assert("]"@ =~= seq![']']);
    let max_w = viewer::less(viewer::panel_width(width, 80) as int, 4) as nat;
    let body = body_lines(html::lines_of_html(markup), max_w);
    let view = page(requested, count, Some(title), Some(author), Some(markup), width);
    assert(view.len() == body.len() + 4);
}

/// Each style has its colour, and headings are bold.
pub proof fn law_styles_have_their_colour(line: Seq<char>, depth: usize, level: u8)
    requires
        line.len() > 0,
        level > 2,
    ensures
        ({
            let h1 = shown(StyledLineType::Heading(1), line).last().last();
            let h2 = shown(StyledLineType::Heading(2), line).last().last();
            let h3 = shown(StyledLineType::Heading(level), line).last().last();
            let quote = shown(StyledLineType::Quote, line).last().last();
            let code = shown(StyledLineType::Code, line).last().last();
            let item = shown(StyledLineType::ListItem(depth), line).last();
            let normal = shown(StyledLineType::Normal, line).last().last();
            &&& h1.fg == "lightcyan"@ && h1.bold
            &&& h2.fg == "cyan"@ && h2.bold
            &&& h3.fg == "lightyellow"@ && h3.bold
            &&& quote.fg == "yellow"@ && !quote.bold
            &&& code.fg == "gray"@ && !code.bold
            &&& item.last().fg == "white"@ && !item.last().bold && item[1].text == "\u{2022} "@
            &&& normal.fg == "white"@ && !normal.bold
        }),
{
}

/// Styled lines are shown one after another, and each shows the lines that it is wrapped to one after
/// another.
pub proof fn law_lines_are_shown_one_after_another(
    ty: StyledLineType,
    a: Seq<Seq<char>>,
    b: Seq<Seq<char>>,
    line: Seq<char>,
)
    ensures
        shown_all(ty, a + b) == shown_all(ty, a) + shown_all(ty, b),
        shown_all(ty, seq![line]) == shown(ty, line),
    decreases b.len(),
{
    let one = seq![line];
    assert(one.drop_last() =~= Seq::empty());
    assert(shown_all(ty, one.drop_last()) =~= Seq::empty());
    assert(shown_all(ty, one) =~= shown(ty, line));
    if b.len() == 0 {
        assert(a + b =~= a);
        assert(shown_all(ty, a) + shown_all(ty, b) =~= shown_all(ty, a));
    } else {
        law_lines_are_shown_one_after_another(ty, a, b.drop_last(), line);
        assert((a + b).drop_last() =~= a + b.drop_last());
        let last = shown(ty, b.last());
        assert((shown_all(ty, a) + shown_all(ty, b.drop_last())) + last =~= shown_all(ty, a) + (shown_all(
            ty,
            b.drop_last(),
        ) + last));
    }
}

/// A chapter shows its styled lines one after another.
pub proof fn law_chapter_is_shown_line_by_line(a: Seq<Styled>, b: Seq<Styled>, l: Styled, max_w: nat)
    ensures
        body_lines(a + b, max_w) == body_lines(a, max_w) + body_lines(b, max_w),
        body_lines(seq![l], max_w) == shown_all(l.ty, wrap::wrapped(l.text, Measure::Columns, max_w)),
    decreases b.len(),
{
    let one = seq![l];
    assert(one.drop_last() =~= Seq::empty());
    assert(body_lines(one.drop_last(), max_w) =~= Seq::empty());
    assert(body_lines(one, max_w) =~= shown_lines(l, max_w));
    if b.len() == 0 {
        assert(a + b =~= a);
        assert(body_lines(a, max_w) + body_lines(b, max_w) =~= body_lines(a, max_w));
    } else {
        law_chapter_is_shown_line_by_line(a, b.drop_last(), l, max_w);
        assert((a + b).drop_last() =~= a + b.drop_last());
        let last = shown_lines(b.last(), max_w);
        assert((body_lines(a, max_w) + body_lines(b.drop_last(), max_w)) + last =~= body_lines(a, max_w) + (
        body_lines(b.drop_last(), max_w) + last));
    }
}

/// The upper case of ASCII text has its small letters as capital letters, and all else as it is.
pub proof fn law_titles_are_in_capital_letters(line: Seq<char>, i: int)
    requires
        is_ascii_chars(line),
        0 <= i < line.len(),
    ensures
        uppered(line).len() == line.len(),
        'a' <= line[i] <= 'z' ==> uppered(line)[i] as u32 == line[i] as u32 - 32,
        !('a' <= line[i] <= 'z') ==> uppered(line)[i] == line[i],
{
}

/// A book has the chapters that it has; one that cannot be read counts as a single chapter.
pub proof fn law_chapters_are_counted(n: usize)
    requires
        n <= i64::MAX,
    ensures
        chapters(Some(n)) == n,
        chapters(None) == 1,
{
}

} // verus!
