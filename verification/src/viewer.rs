//! What a viewer shows: lines of coloured spans.

use vstd::prelude::*;
use vstd::string::*;

verus! {

/// A piece of a line with its colours.
pub struct ViewerSpan {
    pub text: String,
    pub fg: String,
    pub bg: String,
    pub bold: bool,
}

/// A line on the screen.
pub struct ViewerLine {
    pub spans: Vec<ViewerSpan>,
}

/// A piece of a line with its colours.
pub struct Span {
    pub text: Seq<char>,
    pub fg: Seq<char>,
    pub bg: Seq<char>,
    pub bold: bool,
}

impl View for ViewerSpan {
    type V = Span;

    open spec fn view(&self) -> Span {
        Span { text: self.text@, fg: self.fg@, bg: self.bg@, bold: self.bold }
    }
}

/// The views of some spans.
pub open spec fn spans_of(v: Seq<ViewerSpan>) -> Seq<Span> {
    v.map_values(|s: ViewerSpan| s@)
}

impl View for ViewerLine {
    type V = Seq<Span>;

    open spec fn view(&self) -> Seq<Span> {
        spans_of(self.spans@)
    }
}

/// The views of some lines.
pub open spec fn lines_view(v: Seq<ViewerLine>) -> Seq<Seq<Span>> {
    v.map_values(|l: ViewerLine| l@)
}

/// A span in the colour `fg` on the default background.
pub open spec fn span(text: Seq<char>, fg: Seq<char>, bold: bool) -> Span {
    Span { text, fg, bg: ""@, bold }
}

/// A line without text.
pub open spec fn blank() -> Seq<Span> {
    seq![span(""@, "white"@, false)]
}

/// The line that tells of an error.
pub open spec fn error_view(viewer: Seq<char>, msg: Seq<char>) -> Seq<Seq<Span>> {
    seq![seq![span(viewer, "yellow"@, true), span(msg, "red"@, false)]]
}

/// A span in the colour `fg` on the default background.
pub fn sp(text: &str, fg: &str, bold: bool) -> (r: ViewerSpan)
    ensures
        r@ == span(text@, fg@, bold),
{
    ViewerSpan { text: text.to_string(), fg: fg.to_string(), bg: "".to_string(), bold }
}

/// A line of one span.
pub fn line1(a: ViewerSpan) -> (r: ViewerLine)
    ensures
        r@ == seq![a@],
{
    let mut spans: Vec<ViewerSpan> = Vec::new();
    spans.push(a);
    assert(spans_of(spans@) =~= seq![a@]);
    ViewerLine { spans }
}

/// A line of two spans.
pub fn line2(a: ViewerSpan, b: ViewerSpan) -> (r: ViewerLine)
    ensures
        r@ == seq![a@, b@],
{
    let mut spans: Vec<ViewerSpan> = Vec::new();
    spans.push(a);
    spans.push(b);
    assert(spans_of(spans@) =~= seq![a@, b@]);
    ViewerLine { spans }
}

/// A line of three spans.
pub fn line3(a: ViewerSpan, b: ViewerSpan, c: ViewerSpan) -> (r: ViewerLine)
    ensures
        r@ == seq![a@, b@, c@],
{
    let mut spans: Vec<ViewerSpan> = Vec::new();
    spans.push(a);
    spans.push(b);
    spans.push(c);
    assert(spans_of(spans@) =~= seq![a@, b@, c@]);
    ViewerLine { spans }
}

/// A line without text.
pub fn blank_line() -> (r: ViewerLine)
    ensures
        r@ == blank(),
{
    line1(sp("", "white", false))
}

/// The line that tells of an error.
pub fn error_lines(viewer: &str, msg: &str) -> (r: Vec<ViewerLine>)
    ensures
        lines_view(r@) == error_view(viewer@, msg@),
{
    let mut out: Vec<ViewerLine> = Vec::new();
    out.push(line2(sp(viewer, "yellow", true), sp(msg, "red", false)));
    assert(lines_view(out@) =~= error_view(viewer@, msg@));
    out
}

/// Appends a span.
pub fn add_span(spans: &mut Vec<ViewerSpan>, s: ViewerSpan)
    ensures
        spans_of(final(spans)@) == spans_of(old(spans)@).push(s@),
{
    let ghost before = spans@;
    spans.push(s);
    assert(spans_of(spans@) =~= spans_of(before).push(s@));
}

/// Appends a line.
pub fn add_line(lines: &mut Vec<ViewerLine>, l: ViewerLine)
    ensures
        lines_view(final(lines)@) == lines_view(old(lines)@).push(l@),
{
    let ghost before = lines@;
    lines.push(l);
    assert(lines_view(lines@) =~= lines_view(before).push(l@));
}

/// Appends some lines.
pub fn add_lines(lines: &mut Vec<ViewerLine>, more: Vec<ViewerLine>)
    ensures
        lines_view(final(lines)@) == lines_view(old(lines)@) + lines_view(more@),
{
    let ghost start = lines@;
    let mut more = more;
    let ghost all = more@;
    lines.append(&mut more);
    assert(lines_view(lines@) =~= lines_view(start) + lines_view(all));
}

/// The width of the panel: what is asked for, or `usual` where that is less than twenty.
pub open spec fn panel_width(width: u64, usual: usize) -> usize {
    if width >= 20 {
        width as usize
    } else {
        usual
    }
}

/// The width of the panel.
pub fn panel(width: u64, usual: usize) -> (r: usize)
    ensures
        r == panel_width(width, usual),
{
    if width >= 20 {
        width as usize
    } else {
        usual
    }
}

/// `n`, less by `k`, but not below zero.
pub open spec fn less(n: int, k: int) -> int {
    if n < k {
        0
    } else {
        n - k
    }
}

/// The text `unit` repeated `n` times.
pub open spec fn repeated(unit: Seq<char>, n: nat) -> Seq<char>
    decreases n,
{
    if n == 0 {
        Seq::empty()
    } else {
        repeated(unit, (n - 1) as nat) + unit
    }
}

/// Repeats `unit` `n` times.
pub fn repeat(unit: &str, n: usize) -> (r: String)
    ensures
        r@ == repeated(unit@, n as nat),
{
    let mut s = String::new();
    for i in 0..n
        invariant
            s@ == repeated(unit@, i as nat),
    {
        s.append(unit);
    }
    s
}

/// One of a numbered series of pages: the `index`th, or the last one if there are fewer.
pub open spec fn clamped(index: int, count: int) -> int {
    if index < count {
        index
    } else if count > 0 {
        count - 1
    } else {
        0
    }
}

/// One of a numbered series of pages: the `index`th, or the last one if there are fewer.
pub fn clamp_index(index: usize, count: usize) -> (r: usize)
    ensures
        r == clamped(index as int, count as int),
{
    if index < count {
        index
    } else if count > 0 {
        count - 1
    } else {
        0
    }
}

// ── laws ────────────────────────────────────────────────────────────────────

/// A repeated text has the text as often as asked for, one after another.
pub proof fn law_repeated_text(unit: Seq<char>, n: nat, k: int, i: int)
    requires
        0 <= k < n,
        0 <= i < unit.len(),
    ensures
        repeated(unit, n).len() == n * unit.len(),
        0 <= k * unit.len() + i < repeated(unit, n).len(),
        repeated(unit, n)[k * unit.len() + i] == unit[i],
    decreases n,
{
    lemma_repeated_len(unit, n);
    lemma_repeated_len(unit, (n - 1) as nat);
    assert(0 <= k * unit.len()) by (nonlinear_arith)
        requires
            0 <= k,
    ;
    if k < n - 1 {
        law_repeated_text(unit, (n - 1) as nat, k, i);
    }
    assert((n - 1) * unit.len() + unit.len() == n * unit.len()) by (nonlinear_arith);
}

proof fn lemma_repeated_len(unit: Seq<char>, n: nat)
    ensures
        repeated(unit, n).len() == n * unit.len(),
    decreases n,
{
    if n > 0 {
        lemma_repeated_len(unit, (n - 1) as nat);
        assert((n - 1) * unit.len() + unit.len() == n * unit.len()) by (nonlinear_arith);
    } else {
        assert(0 * unit.len() == 0);
    }
}

/// An index that is there is taken, any other one stands for the last.
pub proof fn law_index_is_kept_within(index: int, count: int)
    requires
        0 <= index,
        count > 0,
    ensures
        0 <= clamped(index, count) < count,
        index < count ==> clamped(index, count) == index,
        index >= count ==> clamped(index, count) == count - 1,
{
}

/// A panel of at least twenty columns is taken as it is.
pub proof fn law_panel_width(width: u64, usual: usize)
    requires
        width <= u32::MAX,
    ensures
        width >= 20 ==> panel_width(width, usual) == width,
        width < 20 ==> panel_width(width, usual) == usual,
{
}

/// Lines and spans are looked at as they are: their number, their order, and text, colours and weight
/// of each.
pub proof fn law_lines_are_seen_as_they_are(lines: Seq<ViewerLine>, i: int, k: int)
    requires
        0 <= i < lines.len(),
        0 <= k < lines[i].spans@.len(),
    ensures
        lines_view(lines).len() == lines.len(),
        lines_view(lines)[i].len() == lines[i].spans@.len(),
        lines_view(lines)[i][k].text == lines[i].spans@[k].text@,
        lines_view(lines)[i][k].fg == lines[i].spans@[k].fg@,
        lines_view(lines)[i][k].bg == lines[i].spans@[k].bg@,
        lines_view(lines)[i][k].bold == lines[i].spans@[k].bold,
{
}

/// An error is one line: which viewer it is, and in red what is wrong.
pub proof fn law_errors_are_shown_in_red(viewer: Seq<char>, msg: Seq<char>)
    ensures
        error_view(viewer, msg).len() == 1,
        error_view(viewer, msg)[0][0].text == viewer,
        error_view(viewer, msg)[0][1].text == msg,
        error_view(viewer, msg)[0][1].fg == "red"@,
        span(viewer, msg, true).text == viewer,
        span(viewer, msg, true).fg == msg,
        span(viewer, msg, true).bold && !span(viewer, msg, false).bold,
        span(viewer, msg, true).bg.len() == 0,
{
    reveal_strlit("");
}

} // verus!
