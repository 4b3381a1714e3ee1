//! From the HTML of a chapter to lines with a style.

use crate::text;
use crate::text::{chars_of, same_text, string_of, strip_back, strip_both, strip_front, words_of, CharClass};
use vstd::prelude::*;
use vstd::string::*;
use vstd::utf8::*;

verus! {

/// What a line is.
#[derive(Clone, Copy, Debug, PartialEq, Eq, Structural)]
pub enum StyledLineType {
    Normal,
    /// A heading, of level 1 to 6.
    Heading(u8),
    Quote,
    Code,
    /// An item of a list, with its depth.
    ListItem(usize),
}

/// A line with its style.
pub struct StyledLine {
    pub text: String,
    pub ty: StyledLineType,
}

/// A line with its style.
pub struct Styled {
    pub text: Seq<char>,
    pub ty: StyledLineType,
}

impl View for StyledLine {
    type V = Styled;

    open spec fn view(&self) -> Styled {
        Styled { text: self.text@, ty: self.ty }
    }
}

/// The views of some lines.
pub open spec fn styled(v: Seq<StyledLine>) -> Seq<Styled> {
    v.map_values(|l: StyledLine| l@)
}

// ── tags and entities ───────────────────────────────────────────────────────

/// Tags that start on a new line.
pub open spec fn block_tag(tag: Seq<char>) -> bool {
    ||| tag == "p"@
    ||| tag == "h1"@
    ||| tag == "h2"@
    ||| tag == "h3"@
    ||| tag == "h4"@
    ||| tag == "h5"@
    ||| tag == "h6"@
    ||| tag == "div"@
    ||| tag == "section"@
    ||| tag == "article"@
    ||| tag == "blockquote"@
    ||| tag == "li"@
    ||| tag == "dt"@
    ||| tag == "dd"@
    ||| tag == "tr"@
    ||| tag == "br"@
    ||| tag == "hr"@
    ||| tag == "pre"@
    ||| tag == "ul"@
    ||| tag == "ol"@
    ||| tag == "dl"@
}

/// Tags whose content is left out.
pub open spec fn skip_tag(tag: Seq<char>) -> bool {
    ||| tag == "head"@
    ||| tag == "style"@
    ||| tag == "script"@
    ||| tag == "svg"@
    ||| tag == "math"@
}

/// The level of a heading; 0 for every other tag.
pub open spec fn level_of(tag: Seq<char>) -> u8 {
    if tag == "h1"@ {
        1
    } else if tag == "h2"@ {
        2
    } else if tag == "h3"@ {
        3
    } else if tag == "h4"@ {
        4
    } else if tag == "h5"@ {
        5
    } else if tag == "h6"@ {
        6
    } else {
        0
    }
}

/// Block-level tags that produce a line break.
pub fn is_block_tag(tag: &str) -> (r: bool)
    ensures
        r == block_tag(tag@),
{
    same_text(tag, "p") || same_text(tag, "h1") || same_text(tag, "h2") || same_text(tag, "h3")
        || same_text(tag, "h4") || same_text(tag, "h5") || same_text(tag, "h6") || same_text(tag, "div")
        || same_text(tag, "section") || same_text(tag, "article") || same_text(tag, "blockquote")
        || same_text(tag, "li") || same_text(tag, "dt") || same_text(tag, "dd") || same_text(tag, "tr")
        || same_text(tag, "br") || same_text(tag, "hr") || same_text(tag, "pre") || same_text(tag, "ul")
        || same_text(tag, "ol") || same_text(tag, "dl")
}

/// Tags whose entire content is left out.
pub fn is_skip_tag(tag: &str) -> (r: bool)
    ensures
        r == skip_tag(tag@),
{
    same_text(tag, "head") || same_text(tag, "style") || same_text(tag, "script")
        || same_text(tag, "svg") || same_text(tag, "math")
}

/// The level of a heading; 0 if the tag is none.
pub fn heading_level(tag: &str) -> (r: u8)
    ensures
        r == level_of(tag@),
{
    if same_text(tag, "h1") {
        1
    } else if same_text(tag, "h2") {
        2
    } else if same_text(tag, "h3") {
        3
    } else if same_text(tag, "h4") {
        4
    } else if same_text(tag, "h5") {
        5
    } else if same_text(tag, "h6") {
        6
    } else {
        0
    }
}

/// What an entity stands for; nothing if it is unknown.
pub open spec fn entity_text(name: Seq<char>) -> Seq<char> {
    if name == "amp"@ {
        "&"@
    } else if name == "lt"@ {
        "<"@
    } else if name == "gt"@ {
        ">"@
    } else if name == "quot"@ {
        "\""@
    } else if name == "apos"@ {
        "'"@
    } else if name == "nbsp"@ {
        " "@
    } else if name == "mdash"@ {
        "\u{2014}"@
    } else if name == "ndash"@ {
        "\u{2013}"@
    } else if name == "hellip"@ {
        "\u{2026}"@
    } else if name == "ldquo"@ || name == "laquo"@ {
        "\u{201C}"@
    } else if name == "rdquo"@ || name == "raquo"@ {
        "\u{201D}"@
    } else if name == "lsquo"@ {
        "\u{2018}"@
    } else if name == "rsquo"@ {
        "\u{2019}"@
    } else if name == "copy"@ {
        "\u{A9}"@
    } else if name == "reg"@ {
        "\u{AE}"@
    } else if name == "trade"@ {
        "\u{2122}"@
    } else if name == "eacute"@ {
        "\u{E9}"@
    } else if name == "egrave"@ {
        "\u{E8}"@
    } else if name == "ecirc"@ {
        "\u{EA}"@
    } else if name == "agrave"@ {
        "\u{E0}"@
    } else if name == "acirc"@ {
        "\u{E2}"@
    } else if name == "ugrave"@ {
        "\u{F9}"@
    } else if name == "ucirc"@ {
        "\u{FB}"@
    } else if name == "ocirc"@ {
        "\u{F4}"@
    } else if name == "icirc"@ {
        "\u{EE}"@
    } else if name == "ccedil"@ {
        "\u{E7}"@
    } else {
        ""@
    }
}

/// What an entity stands for; nothing if it is unknown.
pub fn decode_entity(name: &str) -> (r: &'static str)
    ensures
        r@ == entity_text(name@),
{
    if same_text(name, "amp") {
        "&"
    } else if same_text(name, "lt") {
        "<"
    } else if same_text(name, "gt") {
        ">"
    } else if same_text(name, "quot") {
        "\""
    } else if same_text(name, "apos") {
        "'"
    } else if same_text(name, "nbsp") {
        " "
    } else if same_text(name, "mdash") {
        "\u{2014}"
    } else if same_text(name, "ndash") {
        "\u{2013}"
    } else if same_text(name, "hellip") {
        "\u{2026}"
    } else if same_text(name, "ldquo") || same_text(name, "laquo") {
        "\u{201C}"
    } else if same_text(name, "rdquo") || same_text(name, "raquo") {
        "\u{201D}"
    } else if same_text(name, "lsquo") {
        "\u{2018}"
    } else if same_text(name, "rsquo") {
        "\u{2019}"
    } else if same_text(name, "copy") {
        "\u{A9}"
    } else if same_text(name, "reg") {
        "\u{AE}"
    } else if same_text(name, "trade") {
        "\u{2122}"
    } else if same_text(name, "eacute") {
        "\u{E9}"
    } else if same_text(name, "egrave") {
        "\u{E8}"
    } else if same_text(name, "ecirc") {
        "\u{EA}"
    } else if same_text(name, "agrave") {
        "\u{E0}"
    } else if same_text(name, "acirc") {
        "\u{E2}"
    } else if same_text(name, "ugrave") {
        "\u{F9}"
    } else if same_text(name, "ucirc") {
        "\u{FB}"
    } else if same_text(name, "ocirc") {
        "\u{F4}"
    } else if same_text(name, "icirc") {
        "\u{EE}"
    } else if same_text(name, "ccedil") {
        "\u{E7}"
    } else {
        ""
    }
}

/// The lower case of an ASCII character.
pub open spec fn ascii_lower(c: char) -> char {
    if 'A' <= c <= 'Z' {
        (c as u32 + 32) as char
    } else {
        c
    }
}

/// The lower case of a text with characters beyond ASCII, as `str::to_lowercase` gives it.
pub uninterp spec fn unicode_lower(s: Seq<char>) -> Seq<char>;

/// `str::to_lowercase`: ASCII letters change one by one; the mapping of other characters is
/// Unicode's.
#[verifier::external_body]
fn to_lowercase(s: &str) -> (r: String)
    ensures
        r@ == (if is_ascii_chars(s@) {
            s@.map_values(|c: char| ascii_lower(c))
        } else {
            unicode_lower(s@)
        }),
{
    s.to_lowercase()
}

/// The lower case of a text.
pub open spec fn lowered(s: Seq<char>) -> Seq<char> {
    if is_ascii_chars(s) {
        s.map_values(|c: char| ascii_lower(c))
    } else {
        unicode_lower(s)
    }
}

/// What stands between the angle brackets of a tag.
pub struct Tag {
    pub name: Seq<char>,
    /// A slash stands before the name.
    pub closing: bool,
    /// A slash stands at the end.
    pub self_closing: bool,
}

/// The first of some texts; the empty one if there is none.
pub open spec fn first_or_empty(v: Seq<Seq<char>>) -> Seq<char> {
    if v.len() == 0 {
        Seq::empty()
    } else {
        v[0]
    }
}

/// Reads a tag: slashes around it, then its name up to the first ASCII white space, in lower
/// case.
pub open spec fn read_tag(raw: Seq<char>) -> Tag {
    let t = text::trimmed(raw);
    let slash = CharClass::Only('/');
    let inner = text::trimmed(text::trim_back(text::trim_front(t, slash), slash));
    Tag {
        name: lowered(first_or_empty(text::words(inner, CharClass::AsciiWhite))),
        closing: t.len() > 0 && t[0] == '/',
        self_closing: t.len() > 0 && t.last() == '/',
    }
}

/// A tag, as it is read.
struct TagParts {
    name: String,
    closing: bool,
    self_closing: bool,
}

fn parse_tag(raw: &str) -> (r: TagParts)
    ensures
        (Tag { name: r.name@, closing: r.closing, self_closing: r.self_closing }) == read_tag(raw@),
{
    let v = chars_of(raw);
    let t = strip_both(v.as_slice(), CharClass::White);
    let closing = t.len() > 0 && t[0] == '/';
    let self_closing = t.len() > 0 && t[t.len() - 1] == '/';
    let slash = CharClass::Only('/');
    let inner = strip_both(strip_back(strip_front(t, slash), slash), CharClass::White);
    let words = words_of(inner, CharClass::AsciiWhite);
    let ghost all = text::words(inner@, CharClass::AsciiWhite);
    assert(text::texts(words@).len() == words@.len());
    let first = if words.len() > 0 {
        assert(text::texts(words@)[0] == words@[0]@);
        words[0].clone()
    } else {
        String::new()
    };
    assert(first@ =~= first_or_empty(all));
    TagParts { name: to_lowercase(first.as_str()), closing, self_closing }
}

// ── the machine ─────────────────────────────────────────────────────────────

/// What is known after some characters of a document.
pub struct Html {
    /// The lines that are complete.
    pub lines: Seq<Styled>,
    /// The line that is being collected, and what it is.
    pub text: Seq<char>,
    pub ty: StyledLineType,
    /// Depth of the current list.
    pub indent: nat,
    /// Within angle brackets, and what was read since.
    pub in_tag: bool,
    pub tag: Seq<char>,
    /// Behind an ampersand, and what was read since.
    pub in_entity: bool,
    pub entity: Seq<char>,
    /// The open tags whose content is left out.
    pub skip: Seq<Seq<char>>,
}

impl Html {
    /// Before the first character.
    pub open spec fn start() -> Html {
        Html {
            lines: Seq::empty(),
            text: Seq::empty(),
            ty: StyledLineType::Normal,
            indent: 0,
            in_tag: false,
            tag: Seq::empty(),
            in_entity: false,
            entity: Seq::empty(),
            skip: Seq::empty(),
        }
    }

    /// The collected line is complete, unless it is blank. What follows is a normal line.
    pub open spec fn flushed(self) -> Html {
        if self.text.len() == 0 {
            self
        } else {
            let t = text::trimmed(self.text);
            Html {
                lines: if t.len() == 0 {
                    self.lines
                } else {
                    self.lines.push(Styled { text: t, ty: self.ty })
                },
                text: Seq::empty(),
                ty: StyledLineType::Normal,
                ..self
            }
        }
    }

    pub open spec fn list_opened(self) -> Html {
        Html {
            indent: if self.indent >= 3 {
                3
            } else {
                self.indent + 1
            },
            ..self
        }
    }

    pub open spec fn list_closed(self) -> Html {
        Html {
            indent: if self.indent == 0 {
                0
            } else {
                (self.indent - 1) as nat
            },
            ..self
        }
    }

    /// A tag opens outside the content that is left out.
    pub open spec fn opened(self, name: Seq<char>) -> Html {
        if level_of(name) > 0 {
            Html { ty: StyledLineType::Heading(level_of(name)), ..self.flushed() }
        } else if name == "blockquote"@ {
            Html { ty: StyledLineType::Quote, ..self.flushed() }
        } else if name == "pre"@ {
            Html { ty: StyledLineType::Code, ..self.flushed() }
        } else if name == "li"@ {
            let deeper = self.flushed().list_opened();
            Html { ty: StyledLineType::ListItem(deeper.indent as usize), ..deeper }
        } else if name == "ul"@ || name == "ol"@ {
            self.flushed().list_opened()
        } else if skip_tag(name) {
            Html { skip: self.skip.push(name), ..self }
        } else if block_tag(name) {
            self.flushed()
        } else {
            self
        }
    }

    /// A tag closes outside the content that is left out.
    pub open spec fn closed(self, name: Seq<char>) -> Html {
        if name == "li"@ || name == "ul"@ || name == "ol"@ {
            self.flushed().list_closed()
        } else if block_tag(name) {
            self.flushed()
        } else {
            self
        }
    }

    /// A tag has been read. Within content that is left out only the tags count that open or
    /// close such content.
    pub open spec fn tagged(self, tag: Tag) -> Html {
        if self.skip.len() > 0 {
            if tag.closing {
                if self.skip.last() == tag.name {
                    Html { skip: self.skip.drop_last(), ..self }
                } else {
                    self
                }
            } else if !tag.self_closing && skip_tag(tag.name) {
                Html { skip: self.skip.push(tag.name), ..self }
            } else {
                self
            }
        } else if tag.closing {
            self.closed(tag.name)
        } else {
            self.opened(tag.name)
        }
    }

    /// Some text is collected, unless it is left out.
    pub open spec fn collected(self, s: Seq<char>) -> Html {
        if self.skip.len() == 0 {
            Html { text: self.text + s, ..self }
        } else {
            self
        }
    }

    /// One more character.
    pub open spec fn step(self, c: char) -> Html {
        if c == '<' {
            Html { in_tag: true, tag: Seq::empty(), ..self }
        } else if self.in_tag {
            if c == '>' {
                Html { in_tag: false, tag: Seq::empty(), ..self.tagged(read_tag(self.tag)) }
            } else {
                Html { tag: self.tag.push(c), ..self }
            }
        } else if c == '&' {
            Html { in_entity: true, entity: Seq::empty(), ..self }
        } else if self.in_entity {
            if c == ';' {
                Html {
                    in_entity: false,
                    entity: Seq::empty(),
                    ..self.collected(entity_text(self.entity))
                }
            } else {
                let entity = self.entity.push(c);
                if encode_utf8(entity).len() > 12 {
                    Html {
                        in_entity: false,
                        entity: Seq::empty(),
                        ..self.collected(seq!['&'] + entity)
                    }
                } else {
                    Html { entity, ..self }
                }
            }
        } else if c == '\n' || c == '\r' || c == '\t' {
            if self.text.len() > 0 && (self.text.last() == '\n' || self.text.last() == ' ') {
                self
            } else {
                self.collected(seq![' '])
            }
        } else {
            self.collected(seq![c])
        }
    }
}

/// What is known after all of `s`.
pub open spec fn after(s: Seq<char>) -> Html
    decreases s.len(),
{
    if s.len() == 0 {
        Html::start()
    } else {
        after(s.drop_last()).step(s.last())
    }
}

/// The lines of a document.
pub open spec fn lines_of_html(s: Seq<char>) -> Seq<Styled> {
    after(s).flushed().lines
}

/// The machine that reads a document character by character.
struct Reader {
    lines: Vec<StyledLine>,
    text: Vec<char>,
    ty: StyledLineType,
    indent: usize,
    in_tag: bool,
    tag: String,
    in_entity: bool,
    entity: String,
    skip: Vec<String>,
}

impl View for Reader {
    type V = Html;

    closed spec fn view(&self) -> Html {
        Html {
            lines: styled(self.lines@),
            text: self.text@,
            ty: self.ty,
            indent: self.indent as nat,
            in_tag: self.in_tag,
            tag: self.tag@,
            in_entity: self.in_entity,
            entity: self.entity@,
            skip: text::texts(self.skip@),
        }
    }
}

impl Reader {
    fn flush(&mut self)
        ensures
            final(self)@ == old(self)@.flushed(),
    {
        if self.text.len() > 0 {
            let t = strip_both(self.text.as_slice(), CharClass::White);
            if t.len() > 0 {
                let ghost before = self.lines@;
                let line = StyledLine { text: string_of(t), ty: self.ty };
                let ghost added = line@;
                self.lines.push(line);
                assert(styled(self.lines@) =~= styled(before).push(added));
            }
            self.text = Vec::new();
            self.ty = StyledLineType::Normal;
            assert(self.text@ =~= Seq::empty());
        }
    }

    fn list_open(&mut self)
        ensures
            final(self)@ == old(self)@.list_opened(),
    {
        self.indent = if self.indent >= 3 { 3 } else { self.indent + 1 };
    }

    fn list_close(&mut self)
        ensures
            final(self)@ == old(self)@.list_closed(),
    {
        if self.indent > 0 {
            self.indent = self.indent - 1;
        }
    }

    fn push_skip(&mut self, name: String)
        ensures
            final(self)@ == (Html { skip: old(self)@.skip.push(name@), ..old(self)@ }),
    {
        let ghost before = self.skip@;
        self.skip.push(name);
        assert(text::texts(self.skip@) =~= text::texts(before).push(name@));
    }

    fn open(&mut self, name: String)
        ensures
            final(self)@ == old(self)@.opened(name@),
    {
        let tag = name.as_str();
        let level: u8 = heading_level(tag);
        if level > 0 {
            self.flush();
            self.ty = StyledLineType::Heading(level);
        } else if same_text(tag, "blockquote") {
            self.flush();
            self.ty = StyledLineType::Quote;
        } else if same_text(tag, "pre") {
            self.flush();
            self.ty = StyledLineType::Code;
        } else if same_text(tag, "li") {
            self.flush();
            self.list_open();
            self.ty = StyledLineType::ListItem(self.indent);
        } else if same_text(tag, "ul") || same_text(tag, "ol") {
            self.flush();
            self.list_open();
        } else if is_skip_tag(tag) {
            self.push_skip(name);
        } else if is_block_tag(tag) {
            self.flush();
        }
    }

    fn close(&mut self, tag: &str)
        ensures
            final(self)@ == old(self)@.closed(tag@),
    {
        if same_text(tag, "li") || same_text(tag, "ul") || same_text(tag, "ol") {
            self.flush();
            self.list_close();
        } else if is_block_tag(tag) {
            self.flush();
        }
    }

    fn end_tag(&mut self)
        ensures
            final(self)@ == old(self)@.tagged(read_tag(old(self)@.tag)),
    {
        let parts = parse_tag(self.tag.as_str());
        let open: usize = self.skip.len();
        assert(text::texts(self.skip@).len() == open);
        if open > 0 {
            if parts.closing {
                assert(text::texts(self.skip@).last() == self.skip@[open - 1]@);
                if same_text(self.skip[open - 1].as_str(), parts.name.as_str()) {
                    let ghost before = self.skip@;
                    self.skip.pop();
                    assert(text::texts(self.skip@) =~= text::texts(before).drop_last());
                }
            } else if !parts.self_closing && is_skip_tag(parts.name.as_str()) {
                self.push_skip(parts.name);
            }
        } else if parts.closing {
            self.close(parts.name.as_str());
        } else {
            self.open(parts.name);
        }
    }

    fn collect(&mut self, s: &str)
        ensures
            final(self)@ == old(self)@.collected(s@),
    {
        assert(text::texts(self.skip@).len() == self.skip@.len());
        if self.skip.len() == 0 {
            let v = chars_of(s);
            self.text.extend_from_slice(v.as_slice());
            assert(self.text@ =~= old(self)@.text + s@);
        }
    }

    fn collect_char(&mut self, c: char)
        ensures
            final(self)@ == old(self)@.collected(seq![c]),
    {
        assert(text::texts(self.skip@).len() == self.skip@.len());
        if self.skip.len() == 0 {
            self.text.push(c);
            assert(self.text@ =~= old(self)@.text + seq![c]);
        }
    }

    fn step(&mut self, c: char)
        ensures
            final(self)@ == old(self)@.step(c),
    {
        if c == '<' {
            self.in_tag = true;
            self.tag = String::new();
            assert(self.tag@ =~= Seq::empty());
        } else if self.in_tag {
            if c == '>' {
                self.end_tag();
                self.in_tag = false;
                self.tag = String::new();
                assert(self.tag@ =~= Seq::empty());
            } else {
                self.tag.push(c);
            }
        } else if c == '&' {
            self.in_entity = true;
            self.entity = String::new();
            assert(self.entity@ =~= Seq::empty());
        } else if self.in_entity {
            if c == ';' {
                let found = decode_entity(self.entity.as_str());
                self.collect(found);
                self.in_entity = false;
                self.entity = String::new();
                assert(self.entity@ =~= Seq::empty());
            } else {
                self.entity.push(c);
                let bytes: usize = self.entity.as_str().as_bytes().len();
                if bytes > 12 {
                    let kept = self.entity.clone();
                    let mut all = String::new();
                    all.push('&');
                    all.append(kept.as_str());
                    assert(all@ =~= seq!['&'] + kept@);
                    self.collect(all.as_str());
                    self.in_entity = false;
                    self.entity = String::new();
                    assert(self.entity@ =~= Seq::empty());
                }
            }
        } else if c == '\n' || c == '\r' || c == '\t' {
            let n: usize = self.text.len();
            if n == 0 || (self.text[n - 1] != '\n' && self.text[n - 1] != ' ') {
                self.collect_char(' ');
            }
        } else {
            self.collect_char(c);
        }
    }
}

/// The lines of a document, without its markup but with its structure.
pub fn html_to_styled_lines(html: &str) -> (r: Vec<StyledLine>)
    ensures
        styled(r@) == lines_of_html(html@),
{
    let mut reader = Reader {
        lines: Vec::new(),
        text: Vec::new(),
        ty: StyledLineType::Normal,
        indent: 0,
        in_tag: false,
        tag: String::new(),
        in_entity: false,
        entity: String::new(),
        skip: Vec::new(),
    };
    assert(styled(reader.lines@) =~= Seq::empty());
    assert(text::texts(reader.skip@) =~= Seq::empty());
    assert(reader.text@ =~= Seq::empty());
    assert(reader.tag@ =~= Seq::empty());
    assert(reader.entity@ =~= Seq::empty());
    let v = chars_of(html);
    for i in 0..v.len()
        invariant
            v@ == html@,
            reader@ == after(html@.take(i as int)),
    {
        assert(html@.take(i + 1).drop_last() =~= html@.take(i as int));
        reader.step(v[i]);
    }
    assert(html@.take(html@.len() as int) =~= html@);
    reader.flush();
    reader.lines
}

// ── laws ────────────────────────────────────────────────────────────────────

/// A line as it may come out: not blank, no white space around it.
pub open spec fn is_clean(t: Seq<char>) -> bool {
    t.len() > 0 && !text::is_white(t[0]) && !text::is_white(t.last())
}

/// A style as it may come out.
pub open spec fn is_style(ty: StyledLineType) -> bool {
    match ty {
        StyledLineType::Heading(level) => 1 <= level <= 6,
        StyledLineType::ListItem(depth) => 1 <= depth <= 3,
        _ => true,
    }
}

/// What holds after any number of characters.
pub open spec fn sound(st: Html) -> bool {
    &&& is_style(st.ty)
    &&& st.indent <= 3
    &&& forall|i: int| 0 <= i < st.lines.len() ==> is_clean((#[trigger] st.lines[i]).text)
    &&& forall|i: int| 0 <= i < st.lines.len() ==> is_style((#[trigger] st.lines[i]).ty)
}

proof fn lemma_flush_sound(st: Html)
    requires
        sound(st),
    ensures
        sound(st.flushed()),
{
    text::lemma_trim_both_ends(st.text, CharClass::White);
    let next = st.flushed();
    assert forall|i: int| 0 <= i < next.lines.len() implies is_clean((#[trigger] next.lines[i]).text)
        && is_style(next.lines[i].ty) by {
        if i < st.lines.len() {
            assert(next.lines[i] == st.lines[i]);
        }
    }
}

proof fn lemma_step_sound(st: Html, c: char)
    requires
        sound(st),
    ensures
        sound(st.step(c)),
{
    lemma_flush_sound(st);
    if c == '>' && st.in_tag {
        let tag = read_tag(st.tag);
        let next = st.tagged(tag);
        assert(next.lines == st.lines || next.lines == st.flushed().lines);
        assert(sound(next));
        assert(st.step(c).lines == next.lines);
    } else {
        assert(st.step(c).lines == st.lines);
    }
}

proof fn lemma_after_sound(s: Seq<char>)
    ensures
        sound(after(s)),
    decreases s.len(),
{
    if s.len() > 0 {
        lemma_after_sound(s.drop_last());
        lemma_step_sound(after(s.drop_last()), s.last());
    }
}

/// Whatever the document: no line is blank or has white space around it, headings have levels 1
/// to 6, and list items are at most three deep.
pub proof fn law_lines_are_clean(s: Seq<char>, i: int)
    requires
        0 <= i < lines_of_html(s).len(),
    ensures
        is_clean(lines_of_html(s)[i].text),
        is_style(lines_of_html(s)[i].ty),
{
    lemma_after_sound(s);
    lemma_flush_sound(after(s));
}

/// Every block tag ends the line that is being collected, when it opens and when it closes.
pub proof fn law_block_tags_break_lines(st: Html, name: Seq<char>)
    requires
        block_tag(name),
    ensures
        st.opened(name).text.len() == 0,
        st.opened(name).lines == st.flushed().lines,
        st.closed(name).text.len() == 0,
        st.closed(name).lines == st.flushed().lines,
{
    reveal_strlit("p");
    reveal_strlit("h1");
    reveal_strlit("h2");
    reveal_strlit("h3");
    reveal_strlit("h4");
    reveal_strlit("h5");
    reveal_strlit("h6");
    reveal_strlit("div");
    reveal_strlit("section");
    reveal_strlit("article");
    reveal_strlit("blockquote");
    reveal_strlit("li");
    reveal_strlit("dt");
    reveal_strlit("dd");
    reveal_strlit("tr");
    reveal_strlit("br");
    reveal_strlit("hr");
    reveal_strlit("pre");
    reveal_strlit("ul");
    reveal_strlit("ol");
    reveal_strlit("dl");
    reveal_strlit("head");
    reveal_strlit("style");
    reveal_strlit("script");
    reveal_strlit("svg");
    reveal_strlit("math");
    assert("head"@.len() == 4 && "style"@.len() == 5 && "script"@.len() == 6 && "math"@.len() == 4);
    assert("svg"@.len() == 3 && "svg"@[0] == 's');
    assert("div"@[0] == 'd' && "pre"@[0] == 'p');
    assert(name.len() <= 2 || name == "div"@ || name == "pre"@ || name.len() >= 7);
    assert(!skip_tag(name));
}

/// Within content that is left out no character changes the lines or the collected text.
pub proof fn law_skipped_content_leaves_no_trace(st: Html, c: char)
    requires
        st.skip.len() > 0,
    ensures
        ({
            let next = st.step(c);
            &&& next.lines == st.lines
            &&& next.text == st.text
            &&& next.ty == st.ty
            &&& next.indent == st.indent
        }),
{
}

/// Text without markup and line breaks.
pub open spec fn is_plain(s: Seq<char>) -> bool {
    forall|i: int|
        0 <= i < s.len() ==> #[trigger] s[i] != '<' && s[i] != '&' && s[i] != '\n' && s[i] != '\r' && s[i]
            != '\t'
}

proof fn lemma_plain(s: Seq<char>)
    requires
        is_plain(s),
    ensures
        after(s) == (Html { text: s, ..Html::start() }),
    decreases s.len(),
{
    if s.len() > 0 {
        let t = s.drop_last();
        assert forall|i: int| 0 <= i < t.len() implies #[trigger] t[i] != '<' && t[i] != '&' && t[i]
            != '\n' && t[i] != '\r' && t[i] != '\t' by {
            assert(t[i] == s[i]);
        }
        lemma_plain(t);
        assert(s[s.len() - 1] != '<');
        assert(t + seq![s.last()] =~= s);
    } else {
        assert(s =~= Seq::empty());
    }
}

/// Text without markup and line breaks is one normal line, without the white space around it.
pub proof fn law_plain_text_is_one_line(s: Seq<char>)
    requires
        is_plain(s),
    ensures
        lines_of_html(s) == (if text::trimmed(s).len() == 0 {
            Seq::empty()
        } else {
            seq![Styled { text: text::trimmed(s), ty: StyledLineType::Normal }]
        }),
{
    lemma_plain(s);
    if s.len() > 0 {
        assert(Seq::<Styled>::empty().push(Styled { text: text::trimmed(s), ty: StyledLineType::Normal })
            =~= seq![Styled { text: text::trimmed(s), ty: StyledLineType::Normal }]);
    } else {
        assert(text::trim_front(s, CharClass::White) == s);
        assert(text::trimmed(s).len() == 0);
    }
}

/// The state after `s`, where reading started in the state `st`.
pub open spec fn after_from(st: Html, s: Seq<char>) -> Html
    decreases s.len(),
{
    if s.len() == 0 {
        st
    } else {
        after_from(st, s.drop_last()).step(s.last())
    }
}

/// A name that an entity can have.
pub open spec fn is_entity_name(name: Seq<char>) -> bool {
    &&& encode_utf8(name).len() <= 12
    &&& forall|i: int| 0 <= i < name.len() ==> #[trigger] name[i] != '<' && name[i] != '&' && name[i] != ';'
}

proof fn lemma_encode_longer(s: Seq<char>)
    requires
        s.len() > 0,
    ensures
        encode_utf8(s.drop_last()).len() <= encode_utf8(s).len(),
    decreases s.len(),
{
    if s.len() > 1 {
        lemma_encode_longer(s.drop_first());
        assert(s.drop_last().drop_first() =~= s.drop_first().drop_last());
    }
}

proof fn lemma_entity_name(st: Html, name: Seq<char>)
    requires
        !st.in_tag,
        is_entity_name(name),
    ensures
        after_from(st.step('&'), name) == (Html { in_entity: true, entity: name, ..st }),
    decreases name.len(),
{
    if name.len() > 0 {
        let head = name.drop_last();
        lemma_encode_longer(name);
        assert forall|i: int| 0 <= i < head.len() implies #[trigger] head[i] != '<' && head[i] != '&'
            && head[i] != ';' by {
            assert(head[i] == name[i]);
        }
        lemma_entity_name(st, head);
        assert(name[name.len() - 1] != ';');
        assert(head.push(name.last()) =~= name);
    } else {
        assert(name =~= Seq::empty());
    }
}

/// An entity in the text counts as what it stands for.
pub proof fn law_entities_are_decoded(st: Html, name: Seq<char>)
    requires
        !st.in_tag,
        st.skip.len() == 0,
        is_entity_name(name),
    ensures
        ({
            let next = after_from(st.step('&'), name).step(';');
            &&& next.text == st.text + entity_text(name)
            &&& next.lines == st.lines
            &&& !next.in_entity
        }),
{
    lemma_entity_name(st, name);
}

// ── what tags do to a document ──────────────────────────────────────────────

/// Reading in two parts.
proof fn lemma_after_from_concat(st: Html, a: Seq<char>, b: Seq<char>)
    ensures
        after_from(st, a + b) == after_from(after_from(st, a), b),
    decreases b.len(),
{
    if b.len() == 0 {
        assert(a + b =~= a);
    } else {
        lemma_after_from_concat(st, a, b.drop_last());
        assert((a + b).drop_last() =~= a + b.drop_last());
        assert((a + b).last() == b.last());
    }
}

proof fn lemma_after_is_from_start(s: Seq<char>)
    ensures
        after(s) == after_from(Html::start(), s),
    decreases s.len(),
{
    if s.len() > 0 {
        lemma_after_is_from_start(s.drop_last());
    }
}

proof fn lemma_no_tag_outside(s: Seq<char>)
    ensures
        !after(s).in_tag ==> after(s).tag == Seq::<char>::empty(),
    decreases s.len(),
{
    if s.len() > 0 {
        lemma_no_tag_outside(s.drop_last());
    }
}

/// What can stand between angle brackets.
pub open spec fn is_tag_content(raw: Seq<char>) -> bool {
    forall|i: int| 0 <= i < raw.len() ==> #[trigger] raw[i] != '<' && raw[i] != '>'
}

/// A tag in a document.
pub open spec fn in_brackets(raw: Seq<char>) -> Seq<char> {
    seq!['<'] + raw + seq!['>']
}

proof fn lemma_tag_collected(st: Html, raw: Seq<char>)
    requires
        is_tag_content(raw),
    ensures
        after_from(st, seq!['<'] + raw) == (Html { in_tag: true, tag: raw, ..st }),
    decreases raw.len(),
{
    let s = seq!['<'] + raw;
    if raw.len() > 0 {
        let head = raw.drop_last();
        assert forall|i: int| 0 <= i < head.len() implies #[trigger] head[i] != '<' && head[i] != '>' by {
            assert(head[i] == raw[i]);
        }
        lemma_tag_collected(st, head);
        assert(s.drop_last() =~= seq!['<'] + head);
        assert(s.last() == raw[raw.len() - 1]);
        assert(head.push(raw.last()) =~= raw);
    } else {
        assert(raw =~= Seq::empty());
        assert(s =~= seq!['<']);
        assert(s.drop_last() =~= Seq::empty());
        assert(after_from(st, s.drop_last()) == st);
    }
}

proof fn lemma_tag_done(st: Html, raw: Seq<char>)
    requires
        is_tag_content(raw),
    ensures
        after_from(st, in_brackets(raw)) == (Html { in_tag: true, tag: raw, ..st }).step('>'),
{
    let s = in_brackets(raw);
    lemma_tag_collected(st, raw);
    assert(s.drop_last() =~= seq!['<'] + raw);
}

/// A name of no tag that shapes the text: the tag neither breaks lines nor hides its content.
pub open spec fn is_inline_name(name: Seq<char>) -> bool {
    &&& name != "p"@ && name != "div"@ && name != "section"@ && name != "article"@
    &&& name != "h1"@ && name != "h2"@ && name != "h3"@ && name != "h4"@ && name != "h5"@ && name != "h6"@
    &&& name != "blockquote"@ && name != "pre"@ && name != "br"@ && name != "hr"@ && name != "tr"@
    &&& name != "li"@ && name != "ul"@ && name != "ol"@ && name != "dl"@ && name != "dt"@ && name != "dd"@
    &&& name != "head"@ && name != "style"@ && name != "script"@ && name != "svg"@ && name != "math"@
}

/// Opening or closing an inline tag, such as one for emphasis or a link, changes nothing: the
/// collected text stays, and so do the lines, the style and the depth of the list.
pub proof fn law_inline_tags_change_nothing(st: Html, raw: Seq<char>)
    requires
        !st.in_tag,
        st.skip.len() == 0,
        is_tag_content(raw),
        is_inline_name(read_tag(raw).name),
    ensures
        after_from(st, in_brackets(raw)) == (Html { tag: Seq::empty(), ..st }),
{
    lemma_tag_done(st, raw);
}

/// A document has the same lines without its inline tags.
pub proof fn law_inline_tags_leave_no_trace(a: Seq<char>, raw: Seq<char>, b: Seq<char>)
    requires
        !after(a).in_tag,
        after(a).skip.len() == 0,
        is_tag_content(raw),
        is_inline_name(read_tag(raw).name),
    ensures
        lines_of_html(a + in_brackets(raw) + b) == lines_of_html(a + b),
{
    let st = after(a);
    lemma_no_tag_outside(a);
    law_inline_tags_change_nothing(st, raw);
    lemma_after_is_from_start(a);
    lemma_after_is_from_start(a + b);
    lemma_after_is_from_start(a + in_brackets(raw) + b);
    lemma_after_from_concat(Html::start(), a + in_brackets(raw), b);
    lemma_after_from_concat(Html::start(), a, in_brackets(raw));
    lemma_after_from_concat(Html::start(), a, b);
}

// ── how tags are read ───────────────────────────────────────────────────────

/// A name of letters and digits.
pub open spec fn is_tag_name(w: Seq<char>) -> bool {
    w.len() > 0 && forall|i: int|
        0 <= i < w.len() ==> ('a' <= #[trigger] w[i] <= 'z') || ('A' <= w[i] <= 'Z') || ('0' <= w[i] <= '9')
}

/// A text that starts with a name, at its end or before white space.
spec fn starts_with_name(s: Seq<char>, w: Seq<char>) -> bool {
    &&& s.len() >= w.len()
    &&& s.take(w.len() as int) == w
    &&& s.len() > w.len() ==> text::is_ascii_white(s[w.len() as int])
}

proof fn lemma_name_stays(s: Seq<char>, w: Seq<char>, k: CharClass)
    requires
        is_tag_name(w),
        k == CharClass::White || k == CharClass::Only('/'),
        starts_with_name(s, w),
    ensures
        text::trim_front(s, k) == s,
        starts_with_name(text::trim_back(s, k), w),
    decreases s.len(),
{
    assert(s.take(w.len() as int)[0] == s[0]);
    assert(s[0] == w[0]);
    if s.len() > w.len() {
        if k.has(s.last()) {
            let t = s.drop_last();
            assert(t.take(w.len() as int) =~= s.take(w.len() as int));
            lemma_name_stays(t, w, k);
        }
    } else {
        assert(s =~= w);
        assert(!k.has(w[w.len() - 1]));
    }
}

proof fn lemma_first_word(s: Seq<char>, w: Seq<char>)
    requires
        is_tag_name(w),
        starts_with_name(s, w),
    ensures
        first_or_empty(text::words(s, CharClass::AsciiWhite)) == w,
{
    let k = CharClass::AsciiWhite;
    assert forall|i: int| 0 <= i < w.len() implies !k.has(#[trigger] w[i]) by {}
    text::lemma_split_solid(w, k);
    let one = seq![w];
    assert(one.drop_last() =~= Seq::empty());
    assert(text::non_empty(one.drop_last()) =~= Seq::empty());
    assert(text::non_empty(one) =~= one);
    if s.len() > w.len() {
        let rest = s.skip(w.len() as int + 1);
        assert(s =~= w.push(s[w.len() as int]) + rest) by {
            assert forall|i: int| 0 <= i < w.len() implies s[i] == w[i] by {
                assert(s.take(w.len() as int)[i] == s[i]);
            }
        }
        crate::wrap::lemma_words_around(w, s[w.len() as int], rest, k);
    } else {
        assert(s =~= s.take(w.len() as int));
    }
}

proof fn lemma_name_read(s: Seq<char>, w: Seq<char>)
    requires
        is_tag_name(w),
        starts_with_name(s, w),
    ensures
        first_or_empty(
            text::words(
                text::trimmed(
                    text::trim_back(text::trim_front(s, CharClass::Only('/')), CharClass::Only('/')),
                ),
                CharClass::AsciiWhite,
            ),
        ) == w,
{
    let slash = CharClass::Only('/');
    lemma_name_stays(s, w, slash);
    let t = text::trim_back(s, slash);
    lemma_name_stays(t, w, CharClass::White);
    lemma_first_word(text::trimmed(t), w);
}

/// The name of a tag is its first word in lower case, whatever attributes follow. A slash before
/// it, and only there, makes a closing tag.
pub proof fn law_tags_are_read_by_their_name(w: Seq<char>, rest: Seq<char>)
    requires
        is_tag_name(w),
        rest.len() > 0 ==> text::is_ascii_white(rest[0]),
    ensures
        ({
            let open = read_tag(w + rest);
            let close = read_tag(seq!['/'] + (w + rest));
            &&& !open.closing
            &&& close.closing
            &&& open.name == close.name
            &&& open.name.len() == w.len()
            &&& forall|i: int|
                0 <= i < w.len() ==> #[trigger] open.name[i] == (if 'A' <= w[i] <= 'Z' {
                    (w[i] as u32 + 32) as char
                } else {
                    w[i]
                })
        }),
{
    let s = w + rest;
    let k = CharClass::White;
    assert(s.take(w.len() as int) =~= w);
    assert(starts_with_name(s, w));
    assert(is_ascii_chars(w));
    lemma_name_stays(s, w, k);
    let t = text::trim_back(s, k);
    lemma_name_read(t, w);
    assert(t.take(w.len() as int)[0] == t[0]);
    let c = seq!['/'] + s;
    assert(!text::is_white('/'));
    assert(text::trim_front(c, k) == c);
    text::lemma_trim_back_behind(seq!['/'], s, k);
    let ct = seq!['/'] + t;
    assert(text::trimmed(c) == ct);
    let slash = CharClass::Only('/');
    lemma_name_stays(t, w, slash);
    assert(ct.drop_first() =~= t);
    assert(text::trim_front(ct, slash) == t);
}

/// A name in lower case is read as it is.
proof fn lemma_plain_name(w: Seq<char>)
    requires
        is_tag_name(w),
        forall|i: int| 0 <= i < w.len() ==> !('A' <= #[trigger] w[i] <= 'Z'),
    ensures
        read_tag(w).name == w,
        !read_tag(w).closing,
        read_tag(seq!['/'] + w).name == w,
        read_tag(seq!['/'] + w).closing,
        is_tag_content(w),
        is_tag_content(seq!['/'] + w),
{
    let none = Seq::<char>::empty();
    law_tags_are_read_by_their_name(w, none);
    assert(w + none =~= w);
    assert forall|i: int| 0 <= i < w.len() implies read_tag(w).name[i] == w[i] by {
        assert(!('A' <= w[i] <= 'Z'));
    }
    assert(read_tag(w).name =~= w);
    let c = seq!['/'] + w;
    assert forall|i: int| 0 <= i < c.len() implies #[trigger] c[i] != '<' && c[i] != '>' by {
        if i > 0 {
            assert(c[i] == w[i - 1]);
        }
    }
}

// ── text and elements ───────────────────────────────────────────────────────

/// Reading text: outside tags, entities and content that is left out.
pub open spec fn in_text(st: Html) -> bool {
    !st.in_tag && !st.in_entity && st.skip.len() == 0
}

/// Text without markup and line breaks is collected as it stands, spaces and all.
pub proof fn law_text_is_collected(st: Html, t: Seq<char>)
    requires
        in_text(st),
        is_plain(t),
    ensures
        after_from(st, t) == (Html { text: st.text + t, ..st }),
    decreases t.len(),
{
    if t.len() > 0 {
        let head = t.drop_last();
        assert forall|i: int| 0 <= i < head.len() implies #[trigger] head[i] != '<' && head[i] != '&'
            && head[i] != '\n' && head[i] != '\r' && head[i] != '\t' by {
            assert(head[i] == t[i]);
        }
        law_text_is_collected(st, head);
        assert(t[t.len() - 1] != '<');
        assert(st.text + head + seq![t.last()] =~= st.text + t);
    } else {
        assert(st.text + t =~= st.text);
    }
}

/// A line break or a tab in the text counts as a space, unless one stands there already.
pub proof fn law_line_breaks_count_as_spaces(st: Html, c: char)
    requires
        in_text(st),
        c == '\n' || c == '\r' || c == '\t',
    ensures
        ({
            let next = st.step(c);
            &&& next == (Html { text: next.text, ..st })
            &&& next.text == st.text || next.text == st.text.push(' ')
            &&& next.text.len() > 0
            &&& next.text.last() == ' ' || next.text.last() == '\n'
        }),
{
    assert(st.text + seq![' '] =~= st.text.push(' '));
}

/// The lines when the collected text ends: blank text leaves none, any other text one line of its
/// style, without the white space around it.
pub open spec fn lines_with_text(st: Html) -> Seq<Styled> {
    if text::solid(st.text).len() == 0 {
        st.lines
    } else {
        st.lines.push(Styled { text: text::trimmed(st.text), ty: st.ty })
    }
}

proof fn lemma_blank(t: Seq<char>)
    ensures
        text::solid(t).len() == 0 <==> text::trimmed(t).len() == 0,
{
    text::lemma_trimmed_solid(t);
    let u = text::trimmed(t);
    text::lemma_trim_both_ends(t, CharClass::White);
    if u.len() > 0 {
        assert(text::solid(u).len() > 0);
    }
}

/// An element with some text in it.
pub open spec fn element(name: Seq<char>, t: Seq<char>) -> Seq<char> {
    in_brackets(name) + t + in_brackets(seq!['/'] + name)
}

proof fn lemma_element(st: Html, name: Seq<char>, t: Seq<char>, opened: Html)
    requires
        in_text(st),
        is_tag_name(name),
        forall|i: int| 0 <= i < name.len() ==> !('A' <= #[trigger] name[i] <= 'Z'),
        is_plain(t),
        text::solid(t).len() > 0,
        opened == (Html { tag: Seq::empty(), ..st.opened(name) }),
        opened.text.len() == 0,
        in_text(opened),
        block_tag(name),
    ensures
        ({
            let end = after_from(st, element(name, t));
            &&& end.lines == opened.lines.push(Styled { text: text::trimmed(t), ty: opened.ty })
            &&& end.text.len() == 0
            &&& end.ty == StyledLineType::Normal
            &&& end.indent == opened.closed(name).indent
            &&& in_text(end)
        }),
{
    lemma_plain_name(name);
    lemma_blank(t);
    lemma_tag_done(st, name);
    let one = after_from(st, in_brackets(name));
    assert(one == opened);
    law_text_is_collected(opened, t);
    assert(opened.text + t =~= t);
    let full = Html { text: t, ..opened };
    lemma_tag_done(full, seq!['/'] + name);
    lemma_after_from_concat(st, in_brackets(name), t);
    lemma_after_from_concat(st, in_brackets(name) + t, in_brackets(seq!['/'] + name));
}

/// The names of the tags that have an effect of their own are told apart.
proof fn lemma_names()
    ensures
        "h1"@ == seq!['h', '1'],
        "h2"@ == seq!['h', '2'],
        "h3"@ == seq!['h', '3'],
        "h4"@ == seq!['h', '4'],
        "h5"@ == seq!['h', '5'],
        "h6"@ == seq!['h', '6'],
        "p"@ == seq!['p'],
        "li"@ == seq!['l', 'i'],
        "ul"@ == seq!['u', 'l'],
        "ol"@ == seq!['o', 'l'],
        "dl"@ == seq!['d', 'l'],
        "dt"@ == seq!['d', 't'],
        "dd"@ == seq!['d', 'd'],
        "tr"@ == seq!['t', 'r'],
        "br"@ == seq!['b', 'r'],
        "hr"@ == seq!['h', 'r'],
        "pre"@ == seq!['p', 'r', 'e'],
        "div"@ == seq!['d', 'i', 'v'],
        "svg"@ == seq!['s', 'v', 'g'],
        "head"@ == seq!['h', 'e', 'a', 'd'],
        "math"@ == seq!['m', 'a', 't', 'h'],
        "style"@ == seq!['s', 't', 'y', 'l', 'e'],
        "script"@ == seq!['s', 'c', 'r', 'i', 'p', 't'],
        "section"@ == seq!['s', 'e', 'c', 't', 'i', 'o', 'n'],
        "article"@ == seq!['a', 'r', 't', 'i', 'c', 'l', 'e'],
        "blockquote"@ == seq!['b', 'l', 'o', 'c', 'k', 'q', 'u', 'o', 't', 'e'],
{
    reveal_strlit("h1");
    reveal_strlit("h2");
    reveal_strlit("h3");
    reveal_strlit("h4");
    reveal_strlit("h5");
    reveal_strlit("h6");
    reveal_strlit("p");
    reveal_strlit("li");
    reveal_strlit("ul");
    reveal_strlit("ol");
    reveal_strlit("dl");
    reveal_strlit("dt");
    reveal_strlit("dd");
    reveal_strlit("tr");
    reveal_strlit("br");
    reveal_strlit("hr");
    reveal_strlit("pre");
    reveal_strlit("div");
    reveal_strlit("svg");
    reveal_strlit("head");
    reveal_strlit("math");
    reveal_strlit("style");
    reveal_strlit("script");
    reveal_strlit("section");
    reveal_strlit("article");
    reveal_strlit("blockquote");
}

proof fn lemma_flushed_lines(st: Html)
    ensures
        st.flushed().lines == lines_with_text(st),
        st.flushed().text.len() == 0,
        st.flushed().skip == st.skip,
        st.flushed().indent == st.indent,
        in_text(st) ==> in_text(st.flushed()),
{
    lemma_blank(st.text);
    if st.text.len() == 0 {
        assert(text::solid(st.text).len() == 0);
    }
}

/// What stands in a heading becomes a line with the level of that heading.
pub proof fn law_headings_have_their_level(st: Html, level: char, t: Seq<char>)
    requires
        in_text(st),
        '1' <= level <= '6',
        is_plain(t),
        text::solid(t).len() > 0,
    ensures
        ({
            let end = after_from(st, element(seq!['h', level], t));
            &&& end.lines == lines_with_text(st).push(
                Styled {
                    text: text::trimmed(t),
                    ty: StyledLineType::Heading((level as u32 - '0' as u32) as u8),
                },
            )
            &&& end.text.len() == 0
            &&& end.ty == StyledLineType::Normal
            &&& end.indent == st.indent
            &&& in_text(end)
        }),
{
    lemma_names();
    lemma_flushed_lines(st);
    let name = seq!['h', level];
    let n = (level as u32 - '0' as u32) as u8;
    assert(level_of(name) == n) by {
        assert(name[1] == level);
        assert(seq!['h', '1'][1] == '1' && seq!['h', '2'][1] == '2' && seq!['h', '3'][1] == '3');
        assert(seq!['h', '4'][1] == '4' && seq!['h', '5'][1] == '5' && seq!['h', '6'][1] == '6');
        if level == '1' {
            assert(name =~= "h1"@);
        } else if level == '2' {
            assert(name =~= "h2"@);
        } else if level == '3' {
            assert(name =~= "h3"@);
        } else if level == '4' {
            assert(name =~= "h4"@);
        } else if level == '5' {
            assert(name =~= "h5"@);
        } else {
            assert(name =~= "h6"@);
        }
    }
    assert(name[0] == 'h');
    assert("li"@[0] == 'l' && "ul"@[0] == 'u' && "ol"@[0] == 'o');
    lemma_element(st, name, t, Html { tag: Seq::empty(), ..st.opened(name) });
}

/// Quotations and code become lines of that style.
pub proof fn law_quotes_and_code_have_their_style(st: Html, t: Seq<char>)
    requires
        in_text(st),
        is_plain(t),
        text::solid(t).len() > 0,
    ensures
        after_from(st, element("blockquote"@, t)).lines == lines_with_text(st).push(
            Styled { text: text::trimmed(t), ty: StyledLineType::Quote },
        ),
        after_from(st, element("pre"@, t)).lines == lines_with_text(st).push(
            Styled { text: text::trimmed(t), ty: StyledLineType::Code },
        ),
{
    lemma_names();
    lemma_flushed_lines(st);
    assert("h1"@.len() == 2 && "h2"@.len() == 2 && "h3"@.len() == 2 && "h4"@.len() == 2);
    assert("h5"@.len() == 2 && "h6"@.len() == 2 && "li"@.len() == 2 && "ul"@.len() == 2 && "ol"@.len() == 2);
    assert("pre"@.len() == 3 && "blockquote"@.len() == 10);
    lemma_element(st, "blockquote"@, t, Html { tag: Seq::empty(), ..st.opened("blockquote"@) });
    lemma_element(st, "pre"@, t, Html { tag: Seq::empty(), ..st.opened("pre"@) });
}

/// An item of a list becomes a line of one depth more than the list has, at most three.
pub proof fn law_list_items_have_their_depth(st: Html, t: Seq<char>)
    requires
        in_text(st),
        st.indent <= 3,
        is_plain(t),
        text::solid(t).len() > 0,
    ensures
        ({
            let end = after_from(st, element("li"@, t));
            let depth = if st.indent < 3 {
                st.indent + 1
            } else {
                3
            };
            &&& end.lines == lines_with_text(st).push(
                Styled { text: text::trimmed(t), ty: StyledLineType::ListItem(depth as usize) },
            )
            &&& end.indent == depth - 1
        }),
{
    lemma_names();
    lemma_flushed_lines(st);
    assert("li"@[0] == 'l' && "li"@.len() == 2 && "pre"@.len() == 3 && "blockquote"@.len() == 10);
    assert("h1"@[0] == 'h' && "h2"@[0] == 'h' && "h3"@[0] == 'h' && "h4"@[0] == 'h');
    assert("h5"@[0] == 'h' && "h6"@[0] == 'h');
    lemma_element(st, "li"@, t, Html { tag: Seq::empty(), ..st.opened("li"@) });
}

/// A list ends the line before it and is one deeper, three at most; its end ends the last line and
/// is one less deep.
pub proof fn law_lists_are_nested(st: Html, name: Seq<char>)
    requires
        in_text(st),
        st.indent <= 3,
        name == "ul"@ || name == "ol"@,
    ensures
        ({
            let inside = after_from(st, in_brackets(name));
            let behind = after_from(st, in_brackets(seq!['/'] + name));
            &&& inside.lines == lines_with_text(st) && inside.text.len() == 0 && in_text(inside)
            &&& behind.lines == lines_with_text(st) && behind.text.len() == 0 && in_text(behind)
            &&& st.indent < 3 ==> inside.indent == st.indent + 1
            &&& st.indent == 3 ==> inside.indent == 3
            &&& st.indent > 0 ==> behind.indent == st.indent - 1
            &&& st.indent == 0 ==> behind.indent == 0
        }),
{
    lemma_names();
    lemma_flushed_lines(st);
    lemma_plain_name(name);
    lemma_tag_done(st, name);
    lemma_tag_done(st, seq!['/'] + name);
    assert("li"@[0] == 'l' && "ul"@[0] == 'u' && "ol"@[0] == 'o' && "ul"@.len() == 2 && "ol"@.len() == 2);
    assert("pre"@.len() == 3 && "blockquote"@.len() == 10);
    assert("h1"@[0] == 'h' && "h2"@[0] == 'h' && "h3"@[0] == 'h' && "h4"@[0] == 'h');
    assert("h5"@[0] == 'h' && "h6"@[0] == 'h');
}

/// The names of the tags that only break lines.
pub open spec fn is_plain_block(name: Seq<char>) -> bool {
    ||| name == "p"@ || name == "div"@ || name == "section"@ || name == "article"@
    ||| name == "dl"@ || name == "dt"@ || name == "dd"@ || name == "tr"@ || name == "br"@ || name == "hr"@
}

/// A paragraph, a line break and the like end the line before them, when they open and when they
/// close. What follows some text is a normal line.
pub proof fn law_plain_blocks_break_lines(st: Html, name: Seq<char>)
    requires
        in_text(st),
        is_plain_block(name),
    ensures
        ({
            let open = after_from(st, in_brackets(name));
            let close = after_from(st, in_brackets(seq!['/'] + name));
            &&& open == close
            &&& open.lines == lines_with_text(st)
            &&& open.text.len() == 0
            &&& open.ty == (if st.text.len() > 0 {
                StyledLineType::Normal
            } else {
                st.ty
            })
            &&& open.indent == st.indent
            &&& in_text(open)
        }),
{
    lemma_names();
    lemma_flushed_lines(st);
    lemma_plain_name(name);
    lemma_tag_done(st, name);
    lemma_tag_done(st, seq!['/'] + name);
    assert("li"@[0] == 'l' && "ul"@[0] == 'u' && "ol"@[0] == 'o');
    assert("pre"@.len() == 3 && "pre"@[0] == 'p' && "blockquote"@.len() == 10);
    assert("h1"@[1] == '1' && "h2"@[1] == '2' && "h3"@[1] == '3' && "h4"@[1] == '4');
    assert("h5"@[1] == '5' && "h6"@[1] == '6');
    assert("svg"@.len() == 3 && "svg"@[0] == 's' && "head"@.len() == 4 && "math"@.len() == 4);
    assert("style"@.len() == 5 && "script"@.len() == 6);
    assert("div"@[0] == 'd' && "div"@.len() == 3);
    assert("dl"@[0] == 'd' && "dt"@[0] == 'd' && "dd"@[0] == 'd' && "tr"@[0] == 't' && "br"@[0] == 'b');
    assert("hr"@[1] == 'r' && "p"@.len() == 1 && "section"@.len() == 7 && "article"@.len() == 7);
}

// ── the text of a document ──────────────────────────────────────────────────

/// The names of the tags whose content is not shown.
pub open spec fn is_hiding_name(name: Seq<char>) -> bool {
    name == "head"@ || name == "style"@ || name == "script"@ || name == "svg"@ || name == "math"@
}

/// The content of a hiding tag is left out with its tags.
pub proof fn law_hidden_content_leaves_no_trace(st: Html, name: Seq<char>, t: Seq<char>)
    requires
        in_text(st),
        st.tag.len() == 0,
        is_hiding_name(name),
        forall|i: int| 0 <= i < t.len() ==> #[trigger] t[i] != '<' && t[i] != '&',
    ensures
        after_from(st, element(name, t)) == st,
{
    lemma_names();
    lemma_plain_name(name);
    assert("li"@.len() == 2 && "ul"@.len() == 2 && "ol"@.len() == 2 && "pre"@.len() == 3 && "pre"@[0] == 'p');
    assert("h1"@.len() == 2 && "h2"@.len() == 2 && "h3"@.len() == 2 && "h4"@.len() == 2 && "h5"@.len() == 2);
    assert("h6"@.len() == 2 && "blockquote"@.len() == 10);
    assert("svg"@.len() == 3 && "svg"@[0] == 's' && "head"@.len() == 4 && "math"@.len() == 4);
    assert("style"@.len() == 5 && "script"@.len() == 6);
    lemma_tag_done(st, name);
    let hidden = Html { skip: st.skip.push(name), ..st };
    assert(st.tag =~= Seq::empty());
    assert(after_from(st, in_brackets(name)) == hidden);
    lemma_hidden(hidden, t);
    lemma_tag_done(hidden, seq!['/'] + name);
    assert(hidden.skip.drop_last() =~= st.skip);
    lemma_after_from_concat(st, in_brackets(name), t);
    lemma_after_from_concat(st, in_brackets(name) + t, in_brackets(seq!['/'] + name));
}

proof fn lemma_hidden(st: Html, t: Seq<char>)
    requires
        !st.in_tag,
        !st.in_entity,
        st.skip.len() > 0,
        forall|i: int| 0 <= i < t.len() ==> #[trigger] t[i] != '<' && t[i] != '&',
    ensures
        after_from(st, t) == st,
    decreases t.len(),
{
    if t.len() > 0 {
        let head = t.drop_last();
        assert forall|i: int| 0 <= i < head.len() implies #[trigger] head[i] != '<' && head[i] != '&' by {
            assert(head[i] == t[i]);
        }
        lemma_hidden(st, head);
        assert(t[t.len() - 1] != '<');
    }
}

/// A part of a document.
pub enum Piece {
    /// Text without markup; it may have line breaks.
    Text(Seq<char>),
    /// What stands between angle brackets.
    Mark(Seq<char>),
}

/// A part that is text, or a tag that does not hide its content.
pub open spec fn is_open_piece(p: Piece) -> bool {
    match p {
        Piece::Text(t) => forall|i: int| 0 <= i < t.len() ==> #[trigger] t[i] != '<' && t[i] != '&',
        Piece::Mark(raw) => is_tag_content(raw) && !is_hiding_name(read_tag(raw).name),
    }
}

/// The parts as they stand in the document.
pub open spec fn written_out(pieces: Seq<Piece>) -> Seq<char>
    decreases pieces.len(),
{
    if pieces.len() == 0 {
        Seq::empty()
    } else {
        written_out(pieces.drop_last()) + (match pieces.last() {
            Piece::Text(t) => t,
            Piece::Mark(raw) => in_brackets(raw),
        })
    }
}

/// The text of the parts, without the tags.
pub open spec fn text_in(pieces: Seq<Piece>) -> Seq<char>
    decreases pieces.len(),
{
    if pieces.len() == 0 {
        Seq::empty()
    } else {
        match pieces.last() {
            Piece::Text(t) => text_in(pieces.drop_last()) + t,
            Piece::Mark(raw) => text_in(pieces.drop_last()),
        }
    }
}

/// The solid characters of some lines, one after another.
pub open spec fn solid_in(lines: Seq<Styled>) -> Seq<char>
    decreases lines.len(),
{
    if lines.len() == 0 {
        Seq::empty()
    } else {
        solid_in(lines.drop_last()) + text::solid(lines.last().text)
    }
}

proof fn lemma_flush_keeps_solid(st: Html)
    ensures
        solid_in(st.flushed().lines) + text::solid(st.flushed().text) == solid_in(st.lines) + text::solid(
            st.text,
        ),
{
    let t = text::trimmed(st.text);
    text::lemma_trimmed_solid(st.text);
    if st.text.len() > 0 {
        let next = st.flushed();
        assert(text::solid(next.text) =~= Seq::empty());
        if t.len() == 0 {
            assert(text::solid(t) =~= Seq::empty());
        } else {
            assert(next.lines.drop_last() =~= st.lines);
        }
        assert(solid_in(next.lines) + text::solid(next.text) =~= solid_in(next.lines));
        assert(solid_in(st.lines) + Seq::<char>::empty() =~= solid_in(st.lines));
    }
}

proof fn lemma_text_keeps_solid(st: Html, t: Seq<char>)
    requires
        in_text(st),
        forall|i: int| 0 <= i < t.len() ==> #[trigger] t[i] != '<' && t[i] != '&',
    ensures
        ({
            let next = after_from(st, t);
            &&& in_text(next)
            &&& next.lines == st.lines
            &&& text::solid(next.text) == text::solid(st.text) + text::solid(t)
        }),
    decreases t.len(),
{
    if t.len() > 0 {
        let head = t.drop_last();
        assert forall|i: int| 0 <= i < head.len() implies #[trigger] head[i] != '<' && head[i] != '&' by {
            assert(head[i] == t[i]);
        }
        lemma_text_keeps_solid(st, head);
        let c = t.last();
        assert(t[t.len() - 1] != '<');
        let before = after_from(st, head);
        assert(before.text + seq![c] =~= before.text.push(c));
        assert(before.text.push(c).drop_last() =~= before.text);
        assert(before.text + seq![' '] =~= before.text.push(' '));
        assert(before.text.push(' ').drop_last() =~= before.text);
        assert(text::solid(st.text) + text::solid(head).push(c) =~= (text::solid(st.text) + text::solid(
            head,
        )).push(c));
    } else {
        assert(text::solid(st.text) + text::solid(t) =~= text::solid(st.text));
    }
}

proof fn lemma_pieces_keep_solid(pieces: Seq<Piece>)
    requires
        forall|i: int| 0 <= i < pieces.len() ==> is_open_piece(#[trigger] pieces[i]),
    ensures
        ({
            let st = after(written_out(pieces));
            &&& in_text(st)
            &&& solid_in(st.lines) + text::solid(st.text) == text::solid(text_in(pieces))
        }),
    decreases pieces.len(),
{
    if pieces.len() > 0 {
        let head = pieces.drop_last();
        assert forall|i: int| 0 <= i < head.len() implies is_open_piece(#[trigger] head[i]) by {
            assert(head[i] == pieces[i]);
        }
        lemma_pieces_keep_solid(head);
        assert(is_open_piece(pieces[pieces.len() - 1]));
        let before = after(written_out(head));
        lemma_after_is_from_start(written_out(head));
        lemma_after_is_from_start(written_out(pieces));
        match pieces.last() {
            Piece::Text(t) => {
                lemma_after_from_concat(Html::start(), written_out(head), t);
                lemma_text_keeps_solid(before, t);
                text::lemma_solid_concat(text_in(head), t);
                assert(solid_in(before.lines) + (text::solid(before.text) + text::solid(t)) =~= (solid_in(
                    before.lines,
                ) + text::solid(before.text)) + text::solid(t));
            },
            Piece::Mark(raw) => {
                lemma_after_from_concat(Html::start(), written_out(head), in_brackets(raw));
                lemma_tag_done(before, raw);
                lemma_flush_keeps_solid(before);
                let inside = Html { in_tag: true, tag: raw, ..before };
                let tag = read_tag(raw);
                assert(inside.flushed() == (Html { in_tag: true, tag: raw, ..before.flushed() }));
                assert(inside.tagged(tag).lines == before.lines || inside.tagged(tag).lines
                    == before.flushed().lines);
            },
        }
    } else {
        assert(solid_in(Seq::empty()) + text::solid(Seq::empty()) =~= text::solid(text_in(pieces)));
    }
}

/// Every character of a document that is neither white space nor part of a tag is in its lines, in
/// the order of the document, and nothing else is: tags break the text into lines and give it
/// styles, but take nothing away from it.
pub proof fn law_all_text_comes_out(pieces: Seq<Piece>)
    requires
        forall|i: int| 0 <= i < pieces.len() ==> is_open_piece(#[trigger] pieces[i]),
    ensures
        solid_in(lines_of_html(written_out(pieces))) == text::solid(text_in(pieces)),
{
    lemma_pieces_keep_solid(pieces);
    let st = after(written_out(pieces));
    lemma_flush_keeps_solid(st);
    let end = st.flushed();
    assert(end.text.len() == 0);
    assert(text::solid(end.text) =~= Seq::empty());
    assert(solid_in(end.lines) + Seq::<char>::empty() =~= solid_in(end.lines));
}

// ── entities ────────────────────────────────────────────────────────────────

/// The character that an entity is the name of.
pub open spec fn named_character(name: Seq<char>) -> Option<char> {
    if name == seq!['a', 'm', 'p'] {
        Some('&')
    } else if name == seq!['l', 't'] {
        Some('<')
    } else if name == seq!['g', 't'] {
        Some('>')
    } else if name == seq!['q', 'u', 'o', 't'] {
        Some('"')
    } else if name == seq!['a', 'p', 'o', 's'] {
        Some('\'')
    } else if name == seq!['n', 'b', 's', 'p'] {
        Some(' ')
    } else if name == seq!['m', 'd', 'a', 's', 'h'] {
        Some('\u{2014}')
    } else if name == seq!['n', 'd', 'a', 's', 'h'] {
        Some('\u{2013}')
    } else if name == seq!['h', 'e', 'l', 'l', 'i', 'p'] {
        Some('\u{2026}')
    } else if name == seq!['l', 'd', 'q', 'u', 'o'] {
        Some('\u{201C}')
    } else if name == seq!['l', 'a', 'q', 'u', 'o'] {
        Some('\u{201C}')
    } else if name == seq!['r', 'd', 'q', 'u', 'o'] {
        Some('\u{201D}')
    } else if name == seq!['r', 'a', 'q', 'u', 'o'] {
        Some('\u{201D}')
    } else if name == seq!['l', 's', 'q', 'u', 'o'] {
        Some('\u{2018}')
    } else if name == seq!['r', 's', 'q', 'u', 'o'] {
        Some('\u{2019}')
    } else if name == seq!['c', 'o', 'p', 'y'] {
        Some('\u{A9}')
    } else if name == seq!['r', 'e', 'g'] {
        Some('\u{AE}')
    } else if name == seq!['t', 'r', 'a', 'd', 'e'] {
        Some('\u{2122}')
    } else if name == seq!['e', 'a', 'c', 'u', 't', 'e'] {
        Some('\u{E9}')
    } else if name == seq!['e', 'g', 'r', 'a', 'v', 'e'] {
        Some('\u{E8}')
    } else if name == seq!['e', 'c', 'i', 'r', 'c'] {
        Some('\u{EA}')
    } else if name == seq!['a', 'g', 'r', 'a', 'v', 'e'] {
        Some('\u{E0}')
    } else if name == seq!['a', 'c', 'i', 'r', 'c'] {
        Some('\u{E2}')
    } else if name == seq!['u', 'g', 'r', 'a', 'v', 'e'] {
        Some('\u{F9}')
    } else if name == seq!['u', 'c', 'i', 'r', 'c'] {
        Some('\u{FB}')
    } else if name == seq!['o', 'c', 'i', 'r', 'c'] {
        Some('\u{F4}')
    } else if name == seq!['i', 'c', 'i', 'r', 'c'] {
        Some('\u{EE}')
    } else if name == seq!['c', 'c', 'e', 'd', 'i', 'l'] {
        Some('\u{E7}')
    } else {
        None
    }
}

/// An entity counts as the one character that it is the name of, and as nothing if it is no name.
pub proof fn law_entities_are_characters(name: Seq<char>)
    ensures
        entity_text(name) == (match named_character(name) {
            Some(c) => seq![c],
            None => Seq::empty(),
        }),
{
    reveal_strlit("amp");
    reveal_strlit("lt");
    reveal_strlit("gt");
    reveal_strlit("quot");
    reveal_strlit("apos");
    reveal_strlit("nbsp");
    reveal_strlit("mdash");
    reveal_strlit("ndash");
    reveal_strlit("hellip");
    reveal_strlit("ldquo");
    reveal_strlit("laquo");
    reveal_strlit("rdquo");
    reveal_strlit("raquo");
    reveal_strlit("lsquo");
    reveal_strlit("rsquo");
    reveal_strlit("copy");
    reveal_strlit("reg");
    reveal_strlit("trade");
    reveal_strlit("eacute");
    reveal_strlit("egrave");
    reveal_strlit("ecirc");
    reveal_strlit("agrave");
    reveal_strlit("acirc");
    reveal_strlit("ugrave");
    reveal_strlit("ucirc");
    reveal_strlit("ocirc");
    reveal_strlit("icirc");
    reveal_strlit("ccedil");
    reveal_strlit("&");
    reveal_strlit("<");
    reveal_strlit(">");
    reveal_strlit("\"");
    reveal_strlit("'");
    reveal_strlit(" ");
    reveal_strlit("\u{2014}");
    reveal_strlit("\u{2013}");
    reveal_strlit("\u{2026}");
    reveal_strlit("\u{201C}");
    reveal_strlit("\u{201D}");
    reveal_strlit("\u{2018}");
    reveal_strlit("\u{2019}");
    reveal_strlit("\u{A9}");
    reveal_strlit("\u{AE}");
    reveal_strlit("\u{2122}");
    reveal_strlit("\u{E9}");
    reveal_strlit("\u{E8}");
    reveal_strlit("\u{EA}");
    reveal_strlit("\u{E0}");
    reveal_strlit("\u{E2}");
    reveal_strlit("\u{F9}");
    reveal_strlit("\u{FB}");
    reveal_strlit("\u{F4}");
    reveal_strlit("\u{EE}");
    reveal_strlit("\u{E7}");
    reveal_strlit("");
    assert("amp"@ =~= seq!['a', 'm', 'p']);
    assert("lt"@ =~= seq!['l', 't']);
    assert("gt"@ =~= seq!['g', 't']);
    assert("quot"@ =~= seq!['q', 'u', 'o', 't']);
    assert("apos"@ =~= seq!['a', 'p', 'o', 's']);
    assert("nbsp"@ =~= seq!['n', 'b', 's', 'p']);
    assert("mdash"@ =~= seq!['m', 'd', 'a', 's', 'h']);
    assert("ndash"@ =~= seq!['n', 'd', 'a', 's', 'h']);
    assert("hellip"@ =~= seq!['h', 'e', 'l', 'l', 'i', 'p']);
    assert("ldquo"@ =~= seq!['l', 'd', 'q', 'u', 'o']);
    assert("laquo"@ =~= seq!['l', 'a', 'q', 'u', 'o']);
    assert("rdquo"@ =~= seq!['r', 'd', 'q', 'u', 'o']);
    assert("raquo"@ =~= seq!['r', 'a', 'q', 'u', 'o']);
    assert("lsquo"@ =~= seq!['l', 's', 'q', 'u', 'o']);
    assert("rsquo"@ =~= seq!['r', 's', 'q', 'u', 'o']);
    assert("copy"@ =~= seq!['c', 'o', 'p', 'y']);
    assert("reg"@ =~= seq!['r', 'e', 'g']);
    assert("trade"@ =~= seq!['t', 'r', 'a', 'd', 'e']);
    assert("eacute"@ =~= seq!['e', 'a', 'c', 'u', 't', 'e']);
    assert("egrave"@ =~= seq!['e', 'g', 'r', 'a', 'v', 'e']);
    assert("ecirc"@ =~= seq!['e', 'c', 'i', 'r', 'c']);
    assert("agrave"@ =~= seq!['a', 'g', 'r', 'a', 'v', 'e']);
    assert("acirc"@ =~= seq!['a', 'c', 'i', 'r', 'c']);
    assert("ugrave"@ =~= seq!['u', 'g', 'r', 'a', 'v', 'e']);
    assert("ucirc"@ =~= seq!['u', 'c', 'i', 'r', 'c']);
    assert("ocirc"@ =~= seq!['o', 'c', 'i', 'r', 'c']);
    assert("icirc"@ =~= seq!['i', 'c', 'i', 'r', 'c']);
    assert("ccedil"@ =~= seq!['c', 'c', 'e', 'd', 'i', 'l']);
    assert("&"@ =~= seq!['&']);
    assert("<"@ =~= seq!['<']);
    assert(">"@ =~= seq!['>']);
    assert("\""@ =~= seq!['"']);
    assert("'"@ =~= seq!['\'']);
    assert(" "@ =~= seq![' ']);
    assert("\u{2014}"@ =~= seq!['\u{2014}']);
    assert("\u{2013}"@ =~= seq!['\u{2013}']);
    assert("\u{2026}"@ =~= seq!['\u{2026}']);
    assert("\u{201C}"@ =~= seq!['\u{201C}']);
    assert("\u{201D}"@ =~= seq!['\u{201D}']);
    assert("\u{2018}"@ =~= seq!['\u{2018}']);
    assert("\u{2019}"@ =~= seq!['\u{2019}']);
    assert("\u{A9}"@ =~= seq!['\u{A9}']);
    assert("\u{AE}"@ =~= seq!['\u{AE}']);
    assert("\u{2122}"@ =~= seq!['\u{2122}']);
    assert("\u{E9}"@ =~= seq!['\u{E9}']);
    assert("\u{E8}"@ =~= seq!['\u{E8}']);
    assert("\u{EA}"@ =~= seq!['\u{EA}']);
    assert("\u{E0}"@ =~= seq!['\u{E0}']);
    assert("\u{E2}"@ =~= seq!['\u{E2}']);
    assert("\u{F9}"@ =~= seq!['\u{F9}']);
    assert("\u{FB}"@ =~= seq!['\u{FB}']);
    assert("\u{F4}"@ =~= seq!['\u{F4}']);
    assert("\u{EE}"@ =~= seq!['\u{EE}']);
    assert("\u{E7}"@ =~= seq!['\u{E7}']);
    assert(""@ =~= Seq::empty());
}

/// An ampersand with more than twelve bytes behind it and no semicolon among them is no entity but
/// text, and is collected with them.
pub proof fn law_long_entities_are_text(st: Html, name: Seq<char>)
    requires
        in_text(st),
        name.len() > 0,
        is_entity_name(name.drop_last()),
        encode_utf8(name).len() > 12,
        name.last() != '<',
        name.last() != '&',
        name.last() != ';',
    ensures
        ({
            let end = after_from(st.step('&'), name);
            &&& end.text == st.text + seq!['&'] + name
            &&& end.lines == st.lines
            &&& end.ty == st.ty
            &&& in_text(end)
        }),
{
    lemma_entity_name(st, name.drop_last());
    assert(name.drop_last().push(name.last()) =~= name);
    assert(st.text + (seq!['&'] + name) =~= st.text + seq!['&'] + name);
}

/// Content that is hidden can have hidden content in it: a hiding tag opens another level, unless it
/// closes itself, and only the closing tag of the innermost one ends that.
pub proof fn law_hidden_content_is_nested(st: Html, name: Seq<char>, raw: Seq<char>)
    requires
        !st.in_tag,
        st.skip.len() > 0,
        is_hiding_name(name),
        is_tag_content(raw),
    ensures
        after_from(st, in_brackets(name)).skip == st.skip.push(name),
        read_tag(raw).closing && read_tag(raw).name == st.skip.last() ==> after_from(st, in_brackets(raw)).skip
            == st.skip.drop_last(),
        read_tag(raw).closing && read_tag(raw).name != st.skip.last() ==> after_from(st, in_brackets(raw)).skip
            == st.skip,
        !read_tag(raw).closing && (read_tag(raw).self_closing || !is_hiding_name(read_tag(raw).name))
            ==> after_from(st, in_brackets(raw)).skip == st.skip,
        after_from(st, in_brackets(raw)).text == st.text,
        after_from(st, in_brackets(raw)).lines == st.lines,
{
    lemma_names();
    lemma_plain_name(name);
    lemma_tag_done(st, name);
    lemma_tag_done(st, raw);
    lemma_not_self_closing(name);
}

proof fn lemma_not_self_closing(w: Seq<char>)
    requires
        is_tag_name(w),
    ensures
        !read_tag(w).self_closing,
{
    let k = CharClass::White;
    assert(w.take(w.len() as int) =~= w);
    lemma_name_stays(w, w, k);
    assert(!k.has(w[w.len() - 1]));
}

/// An entity adds its character to the text and changes nothing else, neither the lines nor the style.
pub proof fn law_entities_change_only_the_text(st: Html, name: Seq<char>)
    requires
        in_text(st),
        st.entity.len() == 0,
        is_entity_name(name),
    ensures
        after_from(st.step('&'), name).step(';') == (Html {
            text: match named_character(name) {
                Some(c) => st.text.push(c),
                None => st.text,
            },
            ..st
        }),
{
    lemma_entity_name(st, name);
    law_entities_are_characters(name);
    assert(st.entity =~= Seq::empty());
    match named_character(name) {
        Some(c) => {
            assert(st.text + seq![c] =~= st.text.push(c));
        },
        None => {
            assert(st.text + Seq::<char>::empty() =~= st.text);
        },
    }
}

/// What follows in a document does not change the lines that are complete.
pub proof fn law_complete_lines_stay(a: Seq<char>, b: Seq<char>, i: int)
    requires
        0 <= i < after(a).lines.len(),
    ensures
        i < lines_of_html(a + b).len(),
        lines_of_html(a + b)[i] == after(a).lines[i],
{
    lemma_after_is_from_start(a);
    lemma_after_is_from_start(a + b);
    lemma_after_from_concat(Html::start(), a, b);
    lemma_lines_stay(after(a), b, i);
}

proof fn lemma_lines_stay(st: Html, b: Seq<char>, i: int)
    requires
        0 <= i < st.lines.len(),
    ensures
        i < after_from(st, b).lines.len(),
        after_from(st, b).lines[i] == st.lines[i],
    decreases b.len(),
{
    if b.len() > 0 {
        lemma_lines_stay(st, b.drop_last(), i);
        let before = after_from(st, b.drop_last());
        let next = after_from(st, b);
        assert(next.lines == before.lines || next.lines == before.flushed().lines);
    }
}

/// Lines are looked at as they are: their number, their order, and text and style of each.
pub proof fn law_lines_are_seen_as_they_are(lines: Seq<StyledLine>, i: int)
    requires
        0 <= i < lines.len(),
    ensures
        styled(lines).len() == lines.len(),
        styled(lines)[i].text == lines[i].text@,
        styled(lines)[i].ty == lines[i].ty,
{
}

/// A document starts with normal text, outside lists, tags and hidden content; an empty one has no
/// lines.
pub proof fn law_documents_start_with_normal_text()
    ensures
        in_text(after(Seq::empty())),
        after(Seq::empty()).ty == StyledLineType::Normal,
        after(Seq::empty()).indent == 0,
        after(Seq::empty()).text.len() == 0,
        after(Seq::empty()).tag.len() == 0,
        after(Seq::empty()).entity.len() == 0,
        lines_of_html(Seq::empty()).len() == 0,
{
}

} // verus!
