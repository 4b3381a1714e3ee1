use kkc_plugins::page_cache::PageCache;
use kkc_plugins::pdf::{
    assemble_page_text, handle_key, image_named, render_document, render_document_image, render_named,
    requested_page, rgb_samples, turn, PageLine, Pixmap,
};
use kkc_plugins::viewer::ViewerLine;

fn line(gap: bool, text: &str) -> PageLine {
    PageLine { gap, chars: text.chars().map(Some).collect() }
}

fn shown(line: &ViewerLine) -> String {
    line.spans.iter().map(|s| s.text.as_str()).collect()
}

fn all(lines: Vec<ViewerLine>) -> Vec<String> {
    lines.iter().map(shown).collect()
}

#[test]
fn blocks_are_set_apart() {
    let blocks = vec![
        vec![line(false, " one "), line(false, "two\n")],
        vec![line(true, "three"), line(false, "   ")],
        vec![],
        vec![line(false, "four")],
    ];
    assert_eq!(assemble_page_text(&blocks), "one\ntwo\n\n\nthree\n\nfour\n\n");
    assert_eq!(assemble_page_text(&vec![]), "");
    assert_eq!(assemble_page_text(&vec![vec![]]), "\n");
}

#[test]
fn unknown_characters_are_left_out() {
    let chars = vec![Some('a'), None, Some('b')];
    assert_eq!(assemble_page_text(&vec![vec![PageLine { gap: false, chars }]]), "ab\n\n");
}

#[test]
fn pages_are_shown_with_line_numbers() {
    assert_eq!(
        all(render_document("/docs/a.pdf", 0, 12, "one two\n\nthree", 40)),
        vec![
            "PDF  a.pdf  page 1/12  [tab/[/]] page",
            "",
            " 1\u{2502} one two",
            "",
            " 3\u{2502} three",
            "",
            "  \u{2500}\u{2500} end of page \u{2500}\u{2500} tab / ] \u{2192} next page",
        ]
    );
    let last = all(render_named("x", 99, 1, "t", 40));
    assert_eq!(last[0], "PDF  x  page 1/1  [tab/[/]] page");
    assert_eq!(last[4], "  \u{2500}\u{2500} end of document \u{2500}\u{2500}");
    assert_eq!(
        all(render_named("x", 0, 0, "t", 40)),
        vec!["PDF Viewer  Cannot open PDF or document is empty"]
    );
}

fn map(n: usize, width: usize, height: usize, stride: usize, samples: Vec<u8>) -> Pixmap {
    Pixmap { n, width, height, stride, samples }
}

#[test]
fn three_samples_of_each_pixel_are_kept() {
    let rgb = map(3, 2, 2, 7, vec![1, 2, 3, 4, 5, 6, 0, 7, 8, 9, 10, 11, 12]);
    assert_eq!(rgb_samples(&rgb), Ok(vec![1, 2, 3, 4, 5, 6, 7, 8, 9, 10, 11, 12]));
    let rgba = map(4, 2, 1, 8, vec![1, 2, 3, 255, 4, 5, 6, 255]);
    assert_eq!(rgb_samples(&rgba), Ok(vec![1, 2, 3, 4, 5, 6]));
    let short = map(3, 2, 2, 6, vec![1, 2, 3, 4, 5, 6, 7]);
    assert_eq!(rgb_samples(&short), Ok(vec![1, 2, 3, 4, 5, 6]));
    assert_eq!(
        rgb_samples(&map(1, 1, 1, 1, vec![0])),
        Err("Unsupported pixmap format: 1 channels".to_string())
    );
    let huge = map(3, usize::MAX, 2, usize::MAX, vec![0]);
    assert_eq!(rgb_samples(&huge), Ok(vec![]));
}

#[test]
fn pictures_are_base64() {
    let one = map(3, 1, 1, 3, vec![77, 97, 110]);
    let image = render_document_image("/docs/a.pdf", 1, 2, &one, 10, 20).unwrap();
    assert_eq!(image.image.data, "TWFu");
    assert_eq!(image.image.format, "rgb");
    assert_eq!((image.image.width, image.image.height), (10, 20));
    assert_eq!(all(image.overlay_lines), vec!["PDF  a.pdf  page 2/2  [tab/[/]] page"]);
    let two = map(3, 2, 1, 6, vec![255, 255, 254, 0, 16, 131]);
    let image = image_named("a", 0, 1, &two, 1, 1).unwrap();
    assert_eq!(image.image.data, "///+ABCD");
    let none = map(3, 0, 0, 0, vec![]);
    assert_eq!(image_named("a", 0, 1, &none, 1, 1).unwrap().image.data, "");
}

#[test]
fn pictures_that_cannot_be_made_say_so() {
    let one = map(3, 1, 1, 3, vec![1, 2, 3]);
    match image_named("a", 0, 0, &one, 1, 1) {
        Err(m) => assert_eq!(m, "Cannot open PDF or document is empty"),
        Ok(_) => panic!("shown"),
    }
    match render_document_image("a", 0, 1, &map(2, 1, 1, 2, vec![1, 2]), 1, 1) {
        Err(m) => assert_eq!(m, "Unsupported pixmap format: 2 channels"),
        Ok(_) => panic!("shown"),
    }
}

#[test]
fn pages_are_turned() {
    assert_eq!(turn("tab", 0, 3), 1);
    assert_eq!(turn("pagedown", 2, 3), 2);
    assert_eq!(turn("pageup", 0, 3), 0);
    assert_eq!(turn("char:[", 2, 3), 1);
    assert_eq!(turn("home", 2, 3), 0);
    assert_eq!(turn("char:G", 0, 3), 2);
    assert_eq!(turn("end", 4, 0), 0);
    assert_eq!(turn("z", 7, 3), 7);
}

#[test]
fn state_remembers_the_page() {
    let r = handle_key("char:G", "{\"page\":1}", 5);
    assert!(r.consumed);
    assert_eq!(r.state_json, "{\"page\":\"4\"}");
    assert_eq!(requested_page(&r.state_json), 4);
    assert!(!handle_key("tab", &r.state_json, 5).consumed);
    assert_eq!(handle_key("x", "{\"page\":true}", 5).state_json, "{\"page\":\"0\"}");
}

#[test]
fn stored_pages_are_found_again() {
    let mut cache = PageCache::new();
    assert_eq!(cache.lookup("a", 0), None);
    cache.store("a", 0, "text");
    cache.store("a", 1, "more");
    assert_eq!(cache.lookup("a", 0), Some("text".to_string()));
    cache.store("a", 0, "other");
    assert_eq!(cache.lookup("a", 0), Some("other".to_string()));
    assert_eq!(cache.lookup("a", 1), Some("more".to_string()));
    assert_eq!(cache.lookup("b", 0), None);
    assert!(cache.contains("a", 1));
    assert!(!cache.contains("a", 2));
}

#[test]
fn page_unused_for_longest_leaves() {
    let mut cache = PageCache::new();
    for page in 0..30usize {
        cache.store("a", page, "t");
    }
    assert!(cache.lookup("a", 0).is_some());
    assert!(cache.contains("a", 1));
    cache.store("a", 30, "t");
    assert!(cache.contains("a", 0));
    assert!(!cache.contains("a", 1));
    assert!(cache.contains("a", 2));
    cache.store("a", 31, "t");
    assert!(!cache.contains("a", 2));
}

#[test]
fn page_stored_again_pushes_none_out() {
    let mut cache = PageCache::new();
    for page in 0..30usize {
        cache.store("a", page, "t");
    }
    cache.store("a", 7, "new");
    for page in 0..30usize {
        assert!(cache.contains("a", page));
    }
    assert_eq!(cache.lookup("a", 7), Some("new".to_string()));
}

#[test]
fn neighbours_are_fetched_once() {
    let mut cache = PageCache::new();
    assert_eq!(cache.pages_to_fetch("a", 5, 100), vec![3, 4, 5, 6, 7]);
    assert_eq!(cache.pages_to_fetch("a", 0, 2), vec![0, 1]);
    cache.store("a", 4, "t");
    cache.store("b", 6, "t");
    assert_eq!(cache.pages_to_fetch("a", 5, 7), vec![3, 5, 6]);
    assert_eq!(cache.pages_to_fetch("a", 5, 0), Vec::<usize>::new());
}
