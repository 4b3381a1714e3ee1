use kkc_plugins::columns::{disp_w, fit_widths, pad_left, pad_right, truncate};
use kkc_plugins::viewer::ViewerLine;
use kkc_plugins::xlsx::{
    cell_to_string, handle_key, is_numeric_cell, line_no_col_width, make_lineno_span, move_by, render_document,
    requested_place, Cell, Place, Sheet, NO_IMAGE,
};

fn text(s: &str) -> Cell {
    Cell::Text(s.to_string())
}

fn shown(line: &ViewerLine) -> String {
    line.spans.iter().map(|s| s.text.as_str()).collect()
}

fn all(lines: Vec<ViewerLine>) -> Vec<String> {
    lines.iter().map(shown).collect()
}

#[test]
fn emoji_count_two_columns() {
    assert_eq!(disp_w("abc"), 3);
    assert_eq!(disp_w("\u{2601}"), 1);
    assert_eq!(disp_w("\u{2601}\u{fe0f}"), 2);
    assert_eq!(disp_w("\u{1f4e7}\u{fe0f}"), 2);
    assert_eq!(disp_w("\u{fe0f}"), 0);
    assert_eq!(disp_w("\u{4e2d}"), 2);
}

#[test]
fn long_texts_are_cut() {
    assert_eq!(truncate("abcdef", 6), "abcdef");
    assert_eq!(truncate("abcdef", 5), "abcd\u{2026}");
    assert_eq!(truncate("abc", 1), "\u{2026}");
    assert_eq!(truncate("abc", 0), "\u{2026}");
    assert_eq!(truncate("\u{4e2d}\u{6587}x", 4), "\u{4e2d}\u{2026}");
    for width in 1..10usize {
        assert!(disp_w(&truncate("a\u{4e2d}b\u{2601}\u{fe0f}c\u{1f4e7}", width)) <= width);
    }
}

#[test]
fn cells_fill_their_columns() {
    assert_eq!(pad_right("ab", 4), "ab  ");
    assert_eq!(pad_left("ab", 4), "  ab");
    assert_eq!(pad_left("\u{4e2d}", 3), " \u{4e2d}");
    for width in 1..9usize {
        assert_eq!(disp_w(&pad_right("a\u{4e2d}b\u{6587}", width)), width);
        assert_eq!(disp_w(&pad_left("a\u{4e2d}b\u{6587}", width)), width);
    }
}

#[test]
fn widest_columns_shrink_first() {
    assert_eq!(fit_widths(&[], 10), Vec::<usize>::new());
    assert_eq!(fit_widths(&[10, 4], 19), vec![10, 4]);
    assert_eq!(fit_widths(&[10, 4], 15), vec![6, 4]);
    assert_eq!(fit_widths(&[10, 4], 12), vec![4, 3]);
    assert_eq!(fit_widths(&[10, 10], 20), vec![8, 7]);
    assert_eq!(fit_widths(&[40], 5), vec![5]);
    assert_eq!(fit_widths(&[10], 2), vec![2]);
    assert_eq!(fit_widths(&[10], 0), vec![0]);
    assert_eq!(fit_widths(&[10, 4], 8), vec![2, 1]);
    assert_eq!(fit_widths(&[10, 4], 5), vec![0, 0]);
    assert_eq!(fit_widths(&[9, 2, 9], 13), vec![1, 1, 1]);
    assert_eq!(fit_widths(&[9, 9, 9], 1), vec![3, 3, 3]);
    assert_eq!(fit_widths(&[2, 9], 1), vec![2, 3]);
}

#[test]
fn cells_are_written_by_kind() {
    assert_eq!(cell_to_string(&Cell::Empty), "");
    assert_eq!(cell_to_string(&text("x")), "x");
    assert_eq!(cell_to_string(&Cell::Int(-3)), "-3");
    assert_eq!(cell_to_string(&Cell::Float("1.5".to_string())), "1.5");
    assert_eq!(cell_to_string(&Cell::Bool(true)), "true");
    assert_eq!(cell_to_string(&Cell::Bool(false)), "false");
    assert_eq!(cell_to_string(&Cell::Moment("2024-01-01".to_string())), "2024-01-01");
    assert_eq!(cell_to_string(&Cell::Error("Div0".to_string())), "#ERR:Div0");
    assert!(is_numeric_cell(&Cell::Int(1)));
    assert!(is_numeric_cell(&Cell::Float("1.5".to_string())));
    assert!(!is_numeric_cell(&text("1")));
    assert!(!is_numeric_cell(&Cell::Moment("1".to_string())));
}

#[test]
fn lines_are_numbered() {
    assert_eq!(line_no_col_width(0), 3);
    assert_eq!(line_no_col_width(1234), 6);
    assert_eq!(make_lineno_span(Some(7), 5).text, "  7\u{2502} ");
    assert_eq!(make_lineno_span(None, 5).text, "   \u{2502} ");
    assert_eq!(make_lineno_span(Some(12345), 5).text, "12345\u{2502} ");
    assert_eq!(make_lineno_span(None, 2).fg, "darkgray");
}

fn fruit() -> Sheet {
    Sheet {
        rows: vec![
            vec![text("Name"), text("Qty")],
            vec![text("apple"), Cell::Int(5)],
            vec![text("pear\nx"), Cell::Empty],
            vec![text("fig"), Cell::Int(12)],
        ],
        height: 4,
        width: 2,
    }
}

#[test]
fn sheet_is_shown_as_a_table() {
    let names = vec!["Data".to_string(), "A very long sheet name".to_string()];
    let lines = render_document(&names, 0, &fruit(), 0, 40);
    assert_eq!(lines[4].spans[3].fg, "lightgreen");
    assert_eq!(lines[4].spans[1].fg, "white");
    assert_eq!(lines[2].spans[1].fg, "lightcyan");
    assert!(lines[2].spans[1].bold);
    assert_eq!(
        all(lines),
        vec![
            "XLSX  sheet: [Data] A very long\u{2026}   rows: 4  cols: 2  [tab/[/]] sheet",
            "",
            " \u{2502} Name    \u{2502}  Qty",
            " \u{253c}\u{2500}\u{2500}\u{2500}\u{2500}\u{2500}\u{2500}\u{2500}\u{2500}\u{2500}\u{253c}\u{2500}\u{2500}\u{2500}\u{2500}\u{2500}",
            "1\u{2502} apple   \u{2502}    5",
            "2\u{2502} pear x  \u{2502}     ",
            "3\u{2502} fig     \u{2502}   12",
        ]
    );
}

#[test]
fn columns_can_be_moved_away() {
    let names = vec!["Data".to_string()];
    let lines = all(render_document(&names, 9, &fruit(), 1, 40));
    assert_eq!(lines[0], "XLSX  sheet: [Data]  rows: 4  cols: 2  col 2-2/2  [</> \u{2190}/\u{2192}] cols");
    assert_eq!(lines[2], " \u{2502} Qty");
    assert_eq!(lines[4], "1\u{2502}   5");
    let beyond = all(render_document(&names, 0, &fruit(), 7, 40));
    assert_eq!(beyond[0], "XLSX  sheet: [Data]  rows: 4  cols: 2  col 8-7/2  [</> \u{2190}/\u{2192}] cols");
    assert_eq!(beyond[2], " \u{2502} ");
}

#[test]
fn columns_without_width_are_blank() {
    let names = vec!["S".to_string()];
    let sheet = Sheet {
        rows: vec![vec![text("aa"), text("bb"), text("cc"), text("dd")]],
        height: 1,
        width: 4,
    };
    let lines = render_document(&names, 0, &sheet, 0, 20);
    let shown: Vec<&str> = lines[2].spans.iter().map(|s| s.text.as_str()).collect();
    assert_eq!(shown[1], "\u{2026}");
    assert_eq!(shown[3], "\u{2026}");
    assert_eq!(shown[5], "");
    assert_eq!(shown[7], "");
}

#[test]
fn one_text_makes_a_column_of_texts() {
    let names = vec!["S".to_string()];
    let sheet = Sheet {
        rows: vec![vec![Cell::Int(1)], vec![Cell::Int(2)], vec![text("x")]],
        height: 3,
        width: 1,
    };
    let lines = render_document(&names, 0, &sheet, 0, 40);
    assert_eq!(lines[4].spans[1].text, "2  ");
    assert_eq!(lines[4].spans[1].fg, "white");
}

#[test]
fn long_sheets_are_cut() {
    let names = vec!["S".to_string()];
    let rows: Vec<Vec<Cell>> = (0..5001).map(|i| vec![Cell::Int(i)]).collect();
    let lines = all(render_document(&names, 0, &Sheet { rows, height: 6000, width: 1 }, 0, 40));
    assert_eq!(lines.len(), 2 + 5001 + 1 + 1);
    assert_eq!(lines.last().unwrap(), "  \u{2026} showing first 5000 of 6000 rows");
}

#[test]
fn workbook_may_be_empty() {
    let sheet = Sheet { rows: vec![], height: 0, width: 0 };
    assert_eq!(
        all(render_document(&vec![], 0, &sheet, 0, 40)),
        vec!["XLSX Viewer  Workbook has no sheets."]
    );
    let names = vec!["S".to_string()];
    assert_eq!(
        all(render_document(&names, 0, &sheet, 0, 40)),
        vec!["XLSX  sheet: [S]  rows: 0  cols: 0", ""]
    );
    assert_eq!(NO_IMAGE, "XLSX viewer does not support image rendering");
}

fn place(at: Option<Place>) -> Option<(i64, i64)> {
    at.map(|p| (p.sheet, p.col))
}

#[test]
fn keys_move_about_the_workbook() {
    let at = || Place { sheet: 1, col: 2 };
    assert_eq!(place(move_by("tab", at(), 3, 5)), Some((2, 2)));
    assert_eq!(place(move_by("char:]]", at(), 2, 5)), Some((1, 2)));
    assert_eq!(place(move_by("char:[", at(), 3, 5)), Some((0, 2)));
    assert_eq!(place(move_by("right", at(), 3, 5)), Some((1, 3)));
    assert_eq!(place(move_by("char:>", at(), 3, 3)), Some((1, 2)));
    assert_eq!(place(move_by("left", at(), 3, 5)), Some((1, 1)));
    assert_eq!(place(move_by("home", at(), 3, 5)), Some((1, 0)));
    assert_eq!(place(move_by("end", at(), 3, 5)), None);
}

#[test]
fn state_remembers_the_place() {
    let r = handle_key("tab", "{\"sheet\":\"0\",\"col_offset\":3}", Some((2, 9)));
    assert!(r.consumed);
    assert_eq!(requested_place(&r.state_json), (1, 3));
    assert_eq!(r.state_json, "{\"col_offset\":\"3\",\"sheet\":\"1\"}");
    let r = handle_key("tab", "{\"zoom\":[1,true],\"sheet\":7}", Some((2, 9)));
    assert_eq!(r.state_json, "{\"col_offset\":\"0\",\"sheet\":\"1\",\"zoom\":[1,true]}");
    let r = handle_key("right", "", None);
    assert!(r.consumed);
    assert_eq!(requested_place(&r.state_json), (0, 0));
    let r = handle_key("tab", "", Some((0, 0)));
    assert_eq!(requested_place(&r.state_json), (0, 0));
    let r = handle_key("other", "[]", Some((2, 9)));
    assert!(!r.consumed);
    assert_eq!(r.state_json, "{\"col_offset\":\"0\",\"sheet\":\"0\"}");
}
