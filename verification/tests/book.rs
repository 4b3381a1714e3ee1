use kkc_plugins::epub::{handle_key, render_document, render_styled_line, requested_chapter, turn, NO_IMAGE};
use kkc_plugins::html::{
    decode_entity, heading_level, html_to_styled_lines, is_block_tag, is_skip_tag, StyledLine, StyledLineType,
};
use kkc_plugins::viewer::ViewerLine;

fn lines(html: &str) -> Vec<(String, StyledLineType)> {
    html_to_styled_lines(html).into_iter().map(|l| (l.text, l.ty)).collect()
}

fn normal(text: &str) -> (String, StyledLineType) {
    (text.to_string(), StyledLineType::Normal)
}

fn shown(line: &ViewerLine) -> String {
    line.spans.iter().map(|s| s.text.as_str()).collect()
}

fn styled(text: &str, ty: StyledLineType) -> StyledLine {
    StyledLine { text: text.to_string(), ty }
}

#[test]
fn tags_are_told_apart() {
    for tag in ["p", "h1", "h6", "div", "li", "tr", "br", "hr", "pre", "ul", "ol", "dl", "dt", "dd"] {
        assert!(is_block_tag(tag));
    }
    assert!(!is_block_tag("span"));
    assert!(!is_block_tag("h7"));
    for tag in ["head", "style", "script", "svg", "math"] {
        assert!(is_skip_tag(tag));
    }
    assert!(!is_skip_tag("p"));
    assert_eq!(heading_level("h1"), 1);
    assert_eq!(heading_level("h6"), 6);
    assert_eq!(heading_level("H1"), 0);
}

#[test]
fn entities_have_their_characters() {
    assert_eq!(decode_entity("amp"), "&");
    assert_eq!(decode_entity("nbsp"), " ");
    assert_eq!(decode_entity("laquo"), "\u{201C}");
    assert_eq!(decode_entity("raquo"), "\u{201D}");
    assert_eq!(decode_entity("ccedil"), "\u{e7}");
    assert_eq!(decode_entity("unheard-of"), "");
    assert_eq!(lines("a &lt;b&gt; &amp; c"), vec![normal("a <b> & c")]);
    assert_eq!(lines("x&nosuch;y"), vec![normal("xy")]);
}

#[test]
fn long_entities_are_text() {
    assert_eq!(lines("&abcdefghijklm;"), vec![normal("&abcdefghijklm;")]);
    assert_eq!(lines("&abcdefghijkl;z"), vec![normal("z")]);
    assert_eq!(lines("AT&T"), vec![normal("AT")]);
}

#[test]
fn structure_is_kept() {
    assert_eq!(
        lines("<H1>Top</H1><p>one\n\ttwo</p><blockquote>q</blockquote><pre>c</pre><ul><li>a<li>b</ul>end"),
        vec![
            ("Top".to_string(), StyledLineType::Heading(1)),
            normal("one two"),
            ("q".to_string(), StyledLineType::Quote),
            ("c".to_string(), StyledLineType::Code),
            ("a".to_string(), StyledLineType::ListItem(2)),
            ("b".to_string(), StyledLineType::ListItem(3)),
            normal("end"),
        ]
    );
}

#[test]
fn every_block_tag_breaks_the_line() {
    for tag in [
        "p", "h1", "h6", "div", "section", "article", "blockquote", "li", "dt", "dd", "tr", "br", "hr", "pre",
        "ul", "ol", "dl",
    ] {
        for html in [format!("a<{tag}>b"), format!("a</{tag}>b")] {
            let texts: Vec<String> = lines(&html).into_iter().map(|l| l.0).collect();
            assert_eq!(texts, vec!["a", "b"]);
        }
    }
}

#[test]
fn list_depth_ends_at_three() {
    let all = lines("<ul><ul><ul><ul><li>x</li></ul>");
    assert_eq!(all, vec![("x".to_string(), StyledLineType::ListItem(3))]);
}

#[test]
fn skipped_content_is_left_out() {
    assert_eq!(
        lines("a<style>p { } &amp; <b>x</b></style>b<HEAD><script>1<2</script>y</HEAD>c"),
        vec![normal("abc")]
    );
    assert_eq!(lines("a<script>never closed"), vec![normal("a")]);
}

#[test]
fn tag_names_are_read_without_case_and_attributes() {
    assert_eq!(
        lines("<DIV class='x'>a</DIV>< h2 id=1 >b</h2><br/>c"),
        vec![normal("a"), ("b".to_string(), StyledLineType::Heading(2)), normal("c")]
    );
    assert_eq!(lines("<\u{212A}>a"), vec![normal("a")]);
    assert_eq!(lines("a<S\u{130}>b"), vec![normal("ab")]);
}

#[test]
fn plain_text_is_one_line() {
    assert_eq!(lines("  just words, nothing else "), vec![normal("just words, nothing else")]);
    assert_eq!(lines("   "), vec![]);
    assert_eq!(lines("a > b"), vec![normal("a > b")]);
}

#[test]
fn lines_show_what_they_are() {
    let h2 = render_styled_line(&styled("two", StyledLineType::Heading(2)), 40);
    assert_eq!(h2.len(), 1);
    assert_eq!(shown(&h2[0]), "  two");
    assert_eq!(h2[0].spans[1].fg, "cyan");
    assert!(h2[0].spans[1].bold);
    let h3 = render_styled_line(&styled("three", StyledLineType::Heading(3)), 40);
    assert_eq!(shown(&h3[0]), "      \u{25b8} three");
    let quote = render_styled_line(&styled("q", StyledLineType::Quote), 40);
    assert_eq!(shown(&quote[0]), "  \u{2502} q");
    assert_eq!(quote[0].spans[0].fg, "yellow");
    let code = render_styled_line(&styled("c", StyledLineType::Code), 40);
    assert_eq!(code[0].spans[1].fg, "gray");
    let item = render_styled_line(&styled("i", StyledLineType::ListItem(2)), 40);
    assert_eq!(shown(&item[0]), "        \u{2022} i");
    let par = render_styled_line(&styled("one two", StyledLineType::Normal), 3);
    assert_eq!(par.iter().map(shown).collect::<Vec<String>>(), vec!["  one", "  two"]);
}

#[test]
fn titles_stand_in_upper_case_below_a_blank_line() {
    let h1 = render_styled_line(&styled("Intro", StyledLineType::Heading(1)), 80);
    assert_eq!(h1.iter().map(shown).collect::<Vec<String>>(), vec!["", "  INTRO"]);
    assert_eq!(h1[0].spans[0].fg, "white");
    assert!(!h1[0].spans[0].bold);
    assert_eq!(h1[1].spans.len(), 1);
    assert_eq!(h1[1].spans[0].fg, "lightcyan");
    assert!(h1[1].spans[0].bold);
    let other = render_styled_line(&styled("stra\u{df}e \u{e9}t\u{e9}", StyledLineType::Heading(1)), 80);
    assert_eq!(shown(&other[1]), "  STRASSE \u{c9}T\u{c9}");
    let long = render_styled_line(&styled("ab cd", StyledLineType::Heading(1)), 2);
    assert_eq!(long.iter().map(shown).collect::<Vec<String>>(), vec!["", "  AB", "", "  CD"]);
}

fn page(requested: usize, count: usize, author: Option<&str>, content: Option<&str>) -> Vec<String> {
    render_document(
        requested,
        count,
        &Some("Book".to_string()),
        &author.map(|a| a.to_string()),
        &content.map(|c| c.to_string()),
        40,
    )
    .iter()
    .map(shown)
    .collect()
}

#[test]
fn chapters_are_shown_with_status_and_footer() {
    assert_eq!(
        page(0, 3, Some("Me"), Some("<h2>A</h2><p>text</p>")),
        vec![
            "EPUB  Book  \u{2014} Me  [1/3]  [tab/[/]] chapter",
            "",
            "  A",
            "  text",
            "",
            "  \u{2500}\u{2500} end of chapter \u{2500}\u{2500} tab / ] \u{2192} next chapter",
        ]
    );
    assert_eq!(
        page(9, 1, None, Some("x")),
        vec!["EPUB  Book  [1/1]", "", "  x", "", "  \u{2500}\u{2500} end of book \u{2500}\u{2500}"]
    );
}

#[test]
fn no_heading_is_left_out() {
    for (markup, body) in [
        ("<h1>Intro</h1>t", vec!["", "  INTRO", "  t"]),
        ("<h2>Part</h2>t", vec!["  Part", "  t"]),
        ("<h3>Part</h3>t", vec!["      \u{25B8} Part", "  t"]),
    ] {
        let lines = page(0, 1, None, Some(markup));
        assert_eq!(lines[2..lines.len() - 2], body[..]);
    }
}

#[test]
fn books_that_cannot_be_shown_say_so() {
    assert_eq!(page(0, 0, None, Some("x")), vec!["EPUB Viewer  EPUB has no chapters"]);
    assert_eq!(page(0, 1, None, None), vec!["EPUB Viewer  Cannot read chapter content"]);
    let untitled = render_document(0, 1, &None, &None, &Some(String::new()), 40);
    assert_eq!(shown(&untitled[0]), "EPUB  Unknown  [1/1]");
    assert_eq!(NO_IMAGE, "EPUB viewer does not support image rendering");
}

#[test]
fn narrow_panels_count_as_eighty() {
    let word = "abcdefghi ".repeat(8);
    let at = |width: u64| {
        render_document(0, 1, &None, &None, &Some(word.clone()), width).len()
    };
    assert_eq!(at(19), at(80));
    assert!(at(20) > at(80));
}

#[test]
fn chapters_are_turned() {
    assert_eq!(turn("tab", 0, 3), 1);
    assert_eq!(turn("char:]", 2, 3), 2);
    assert_eq!(turn("char:n", 1, 3), 2);
    assert_eq!(turn("backtab", 0, 3), 0);
    assert_eq!(turn("char:[", 2, 3), 1);
    assert_eq!(turn("char:p", 1, 3), 0);
    assert_eq!(turn("x", 1, 3), 1);
    assert_eq!(turn("backtab", turn("tab", 1, 3), 3), 1);
}

#[test]
fn state_remembers_the_chapter() {
    let r = handle_key("tab", "", Some(3));
    assert!(r.consumed);
    assert_eq!(r.state_json, "{\"chapter\":\"1\"}");
    assert_eq!(requested_chapter(&r.state_json), 1);
    let r = handle_key("tab", "{\"chapter\": 2, \"other\": [1]}", Some(3));
    assert!(!r.consumed);
    assert_eq!(r.state_json, "{\"chapter\":\"2\",\"other\":[1]}");
    let r = handle_key("q", "not json", None);
    assert!(!r.consumed);
    assert_eq!(r.state_json, "{\"chapter\":\"0\"}");
    let r = handle_key("tab", "", None);
    assert!(!r.consumed);
    let r = handle_key("tab", "", Some(0));
    assert!(r.consumed);
    assert_eq!(r.state_json, "{\"chapter\":\"-1\"}");
    assert_eq!(requested_chapter(&r.state_json), 0);
}
