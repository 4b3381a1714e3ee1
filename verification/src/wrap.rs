//! Breaking text into lines of a given width.

use crate::text;
use crate::text::{chars_of, lines_of, split_at_class, string_of, strip_both, words_of, CharClass};
use crate::width;
use crate::width::{columns_of, Measure};
use vstd::prelude::*;
use vstd::string::*;
use vstd::utf8::*;

verus! {

/// Lines that are full, and the line that is being filled with its width.
pub struct Filling {
    pub lines: Seq<Seq<char>>,
    pub current: Seq<char>,
    pub width: nat,
}

/// Pieces of a word that are full, and the piece that is being filled.
pub struct Chopping {
    pub pieces: Seq<Seq<char>>,
    pub current: Seq<char>,
}

/// The characters of a word put into pieces one by one: a character goes on the current piece
/// if that stays within the width, and starts the next one if it does not.
pub open spec fn chopping(w: Seq<char>, m: Measure, max_w: nat) -> Chopping
    decreases w.len(),
{
    if w.len() == 0 {
        Chopping { pieces: Seq::empty(), current: Seq::empty() }
    } else {
        let before = chopping(w.drop_last(), m, max_w);
        let longer = before.current.push(w.last());
        if before.current.len() == 0 || m.of(longer) <= max_w {
            Chopping { current: longer, ..before }
        } else {
            Chopping { pieces: before.pieces.push(before.current), current: seq![w.last()] }
        }
    }
}

/// A word that keeps to the width as a whole, and any other one in pieces.
pub open spec fn parts(w: Seq<char>, m: Measure, max_w: nat) -> Seq<Seq<char>> {
    if m.of(w) <= max_w {
        seq![w]
    } else {
        let c = chopping(w, m, max_w);
        c.pieces.push(c.current)
    }
}

/// The words put into lines one by one: a word goes on the current line if it fits behind a
/// space, and starts the next line if it does not. A word that is too wide for any line fills
/// lines of its own with its pieces, the last of which can be followed by other words.
pub open spec fn filling(words: Seq<Seq<char>>, m: Measure, max_w: nat) -> Filling
    decreases words.len(),
{
    if words.len() == 0 {
        Filling { lines: Seq::empty(), current: Seq::empty(), width: 0 }
    } else {
        let before = filling(words.drop_last(), m, max_w);
        let word = words.last();
        if before.current.len() > 0 && before.width + 1 + m.of(word) <= max_w {
            Filling {
                current: before.current.push(' ') + word,
                width: before.width + 1 + m.of(word),
                ..before
            }
        } else {
            let p = parts(word, m, max_w);
            Filling {
                lines: ended_lines(before) + p.drop_last(),
                current: p.last(),
                width: m.of(p.last()),
            }
        }
    }
}

/// The full lines, and the line that was being filled if there was one.
pub open spec fn ended_lines(f: Filling) -> Seq<Seq<char>> {
    if f.current.len() == 0 {
        f.lines
    } else {
        f.lines.push(f.current)
    }
}

/// The lines that some words fill.
pub open spec fn filled_lines(words: Seq<Seq<char>>, m: Measure, max_w: nat) -> Seq<Seq<char>> {
    ended_lines(filling(words, m, max_w))
}

/// The lines of one paragraph; an empty line for an empty paragraph.
pub open spec fn paragraph_lines(p: Seq<char>, m: Measure, max_w: nat) -> Seq<Seq<char>> {
    if text::trimmed(p).len() == 0 {
        seq![Seq::empty()]
    } else {
        filled_lines(text::words(text::trimmed(p), CharClass::White), m, max_w)
    }
}

/// The lines of some paragraphs, one after another.
pub open spec fn paragraphs_lines(ps: Seq<Seq<char>>, m: Measure, max_w: nat) -> Seq<Seq<char>>
    decreases ps.len(),
{
    if ps.len() == 0 {
        Seq::empty()
    } else {
        paragraphs_lines(ps.drop_last(), m, max_w) + paragraph_lines(ps.last(), m, max_w)
    }
}

/// The lines of a text whose paragraphs end with line feeds. Without a width the text keeps
/// its own lines.
pub open spec fn wrapped(s: Seq<char>, m: Measure, max_w: nat) -> Seq<Seq<char>> {
    if max_w == 0 {
        text::lines(s)
    } else {
        paragraphs_lines(text::split(s, CharClass::Only('\n')), m, max_w)
    }
}

proof fn lemma_longer(cur: Seq<char>, c: char)
    ensures
        width::text_columns(cur.push(c)) == width::text_columns(cur) + width::columns(c),
        is_ascii_chars(cur.push(c)) <==> is_ascii_chars(cur) && c <= '\u{7f}',
{
    let longer = cur.push(c);
    assert(longer.drop_last() =~= cur);
    if is_ascii_chars(longer) {
        assert(longer[cur.len() as int] == c);
        assert forall|i: int| 0 <= i < cur.len() implies '\0' <= #[trigger] cur[i] <= '\u{7f}' by {
            assert(longer[i] == cur[i]);
        }
    }
    if is_ascii_chars(cur) && c <= '\u{7f}' {
        assert forall|i: int| 0 <= i < longer.len() implies '\0' <= #[trigger] longer[i] <= '\u{7f}' by {
            if i < cur.len() {
                assert(longer[i] == cur[i]);
            }
        }
    }
}

/// The pieces of a word that is too wide.
fn chop(word: &str, m: Measure, max_w: usize) -> (r: Vec<String>)
    requires
        m.of(word@) > max_w,
    ensures
        text::texts(r@) == parts(word@, m, max_w as nat),
        r@.len() > 0,
{
    let total: usize = word.as_bytes().len();
    let v = chars_of(word);
    let mut out: Vec<String> = Vec::new();
    let mut current: Vec<char> = Vec::new();
    let mut cols: usize = 0;
    let mut ascii = true;
    assert(word@.skip(0) =~= word@);
    assert(text::texts(out@) =~= Seq::empty());
    for i in 0..v.len()
        invariant
            v@ == word@,
            ({
                let c = chopping(word@.take(i as int), m, max_w as nat);
                text::texts(out@) == c.pieces && current@ == c.current
            }),
            cols == width::text_columns(current@),
            ascii == is_ascii_chars(current@),
            current@.len() <= i,
            cols + encode_utf8(word@.skip(i as int)).len() <= total,
    {
        assert(word@.take(i + 1).drop_last() =~= word@.take(i as int));
        assert(word@.skip(i as int).drop_first() =~= word@.skip(i + 1));
        let c = v[i];
        let added: usize = columns_of(c);
        proof {
            lemma_longer(current@, c);
            lemma_longer(Seq::empty(), c);
            assert(is_ascii_chars(Seq::<char>::empty()));
            assert(Seq::<char>::empty().push(c) =~= seq![c]);
        }
        let plain = c <= '\u{7f}';
        let longer: usize = match m {
            Measure::Columns => cols + added,
            Measure::Display => if ascii && plain {
                current.len() + 1
            } else {
                cols + added
            },
        };
        if current.len() == 0 || longer <= max_w {
            current.push(c);
            cols = cols + added;
            ascii = ascii && plain;
        } else {
            let ghost before = out@;
            out.push(string_of(current.as_slice()));
            assert(text::texts(out@) =~= text::texts(before).push(current@));
            current = Vec::new();
            current.push(c);
            assert(current@ =~= seq![c]);
            cols = added;
            ascii = plain;
        }
    }
    assert(word@.take(word@.len() as int) =~= word@);
    let ghost before = out@;
    out.push(string_of(current.as_slice()));
    assert(text::texts(out@) =~= text::texts(before).push(current@));
    out
}

/// Appends the lines that `words` fill to `out`.
fn fill_lines(words: &Vec<String>, m: Measure, max_w: usize, out: &mut Vec<String>)
    requires
        forall|i: int| 0 <= i < words@.len() ==> (#[trigger] words@[i])@.len() > 0,
    ensures
        text::texts(final(out)@) == text::texts(old(out)@) + filled_lines(
            text::texts(words@),
            m,
            max_w as nat,
        ),
{
    let ghost all = text::texts(words@);
    let ghost start = text::texts(out@);
    let mut current = String::new();
    let mut empty = true;
    let mut width: usize = 0;
    assert(all.take(0) =~= Seq::empty());
    assert(start + Seq::<Seq<char>>::empty() =~= start);
    for i in 0..words.len()
        invariant
            all == text::texts(words@),
            forall|j: int| 0 <= j < words@.len() ==> (#[trigger] words@[j])@.len() > 0,
            ({
                let f = filling(all.take(i as int), m, max_w as nat);
                &&& text::texts(out@) == start + f.lines
                &&& current@ == f.current
                &&& width == f.width
                &&& empty == (f.current.len() == 0)
            }),
    {
        assert(all.take(i + 1).drop_last() =~= all.take(i as int));
        assert(all.take(i + 1).last() == words@[i as int]@);
        let ghost f = filling(all.take(i as int), m, max_w as nat);
        let word = words[i].as_str();
        let word_w: usize = m.take(word);
        if !empty && word_w < max_w && width <= max_w - 1 - word_w {
            current.push(' ');
            current.append(word);
            width = width + 1 + word_w;
        } else {
            let ghost p = parts(word@, m, max_w as nat);
            if !empty {
                let ghost before = out@;
                out.push(current);
                assert(text::texts(out@) =~= text::texts(before).push(f.current));
            }
            assert(text::texts(out@) =~= start + ended_lines(f));
            if word_w <= max_w {
                assert(p.drop_last() =~= Seq::empty());
                assert(ended_lines(f) + p.drop_last() =~= ended_lines(f));
                current = word.to_string();
                width = word_w;
            } else {
                let mut pieces = chop(word, m, max_w);
                let ghost chopped = pieces@;
                assert(text::texts(chopped).last() == chopped.last()@);
                current = match pieces.pop() {
                    Some(last) => last,
                    None => String::new(),
                };
                assert(text::texts(pieces@) =~= p.drop_last());
                width = m.take(current.as_str());
                let ghost before = out@;
                out.append(&mut pieces);
                assert(text::texts(out@) =~= text::texts(before) + p.drop_last());
            }
            assert(start + ended_lines(f) + p.drop_last() =~= start + (ended_lines(f) + p.drop_last()));
            proof {
                lemma_parts(word@, m, max_w as nat);
                assert(p[p.len() - 1].len() > 0);
            }
            empty = false;
        }
    }
    assert(all.take(all.len() as int) =~= all);
    if !empty {
        let ghost before = out@;
        let ghost f = filling(all, m, max_w as nat);
        out.push(current);
        assert(text::texts(out@) =~= text::texts(before).push(f.current));
        assert(start + f.lines.push(f.current) =~= (start + f.lines).push(f.current));
    }
}

/// Breaks the paragraphs of `s` into lines of at most `max_w` columns; only a single character
/// can be wider. Without a width the text keeps its own lines.
pub fn wrap_text(s: &str, m: Measure, max_w: usize) -> (r: Vec<String>)
    ensures
        text::texts(r@) == wrapped(s@, m, max_w as nat),
        max_w > 0 ==> forall|i: int|
            0 <= i < r@.len() ==> m.of((#[trigger] r@[i])@) <= max_w || r@[i]@.len() == 1,
{
    if max_w == 0 {
        return lines_of(s);
    }
    let v = chars_of(s);
    let paras = split_at_class(v.as_slice(), CharClass::Only('\n'));
    let ghost all = text::split(s@, CharClass::Only('\n'));
    let mut out: Vec<String> = Vec::new();
    assert(text::texts(out@) =~= paragraphs_lines(all.take(0), m, max_w as nat));
    for i in 0..paras.len()
        invariant
            paras@.len() == all.len(),
            forall|j: int| 0 <= j < paras@.len() ==> (#[trigger] paras@[j])@ == all[j],
            text::texts(out@) == paragraphs_lines(all.take(i as int), m, max_w as nat),
    {
        assert(all.take(i + 1).drop_last() =~= all.take(i as int));
        assert(paras@[i as int]@ == all[i as int]);
        let para = strip_both(paras[i].as_slice(), CharClass::White);
        if para.len() == 0 {
            let ghost before = out@;
            out.push(String::new());
            assert(text::texts(out@) =~= text::texts(before) + seq![Seq::<char>::empty()]);
        } else {
            let words = words_of(para, CharClass::White);
            proof {
                lemma_words_not_empty(text::split(para@, CharClass::White));
                assert forall|j: int| 0 <= j < words@.len() implies (#[trigger] words@[j])@.len() > 0 by {
                    assert(text::texts(words@)[j] == words@[j]@);
                }
            }
            fill_lines(&words, m, max_w, &mut out);
        }
    }
    assert(all.take(all.len() as int) =~= all);
    proof {
        assert forall|i: int| 0 <= i < out@.len() implies m.of((#[trigger] out@[i])@) <= max_w
            || out@[i]@.len() == 1 by {
            law_wrap_keeps_width(s@, m, max_w as nat, i);
            assert(text::texts(out@)[i] == out@[i]@);
        }
    }
    out
}

proof fn lemma_words_not_empty(pieces: Seq<Seq<char>>)
    ensures
        forall|j: int|
            0 <= j < text::non_empty(pieces).len() ==> (#[trigger] text::non_empty(pieces)[j]).len() > 0,
    decreases pieces.len(),
{
    if pieces.len() > 0 {
        let head = text::non_empty(pieces.drop_last());
        let all = text::non_empty(pieces);
        lemma_words_not_empty(pieces.drop_last());
        assert forall|j: int| 0 <= j < all.len() implies (#[trigger] all[j]).len() > 0 by {
            if j < head.len() {
                assert(all[j] == head[j]);
            }
        }
    }
}

// ── laws ────────────────────────────────────────────────────────────────────

/// A word: not empty, no white space in it.
pub open spec fn is_word(w: Seq<char>) -> bool {
    w.len() > 0 && forall|i: int| 0 <= i < w.len() ==> !text::is_white(#[trigger] w[i])
}

/// The words of all lines, one after another.
pub open spec fn all_words(lines: Seq<Seq<char>>) -> Seq<Seq<char>>
    decreases lines.len(),
{
    if lines.len() == 0 {
        Seq::empty()
    } else {
        all_words(lines.drop_last()) + text::words(lines.last(), CharClass::White)
    }
}

pub proof fn lemma_all_words_concat(a: Seq<Seq<char>>, b: Seq<Seq<char>>)
    ensures
        all_words(a + b) == all_words(a) + all_words(b),
    decreases b.len(),
{
    if b.len() == 0 {
        assert(a + b =~= a);
        assert(all_words(b) =~= Seq::empty());
        assert(all_words(a) + all_words(b) =~= all_words(a));
    } else {
        lemma_all_words_concat(a, b.drop_last());
        assert((a + b).drop_last() =~= a + b.drop_last());
        assert((a + b).last() == b.last());
        let w = text::words(b.last(), CharClass::White);
        assert((all_words(a) + all_words(b.drop_last())) + w =~= all_words(a) + (all_words(
            b.drop_last(),
        ) + w));
    }
}

pub proof fn lemma_non_empty_concat(a: Seq<Seq<char>>, b: Seq<Seq<char>>)
    ensures
        text::non_empty(a + b) == text::non_empty(a) + text::non_empty(b),
    decreases b.len(),
{
    if b.len() == 0 {
        assert(a + b =~= a);
        assert(text::non_empty(a) + text::non_empty(b) =~= text::non_empty(a));
    } else {
        lemma_non_empty_concat(a, b.drop_last());
        assert((a + b).drop_last() =~= a + b.drop_last());
        assert((a + b).last() == b.last());
        if b.last().len() > 0 {
            assert((text::non_empty(a) + text::non_empty(b.drop_last())).push(b.last())
                =~= text::non_empty(a) + text::non_empty(b.drop_last()).push(b.last()));
        }
    }
}

/// The words of two texts with a separator between them.
pub proof fn lemma_words_around(a: Seq<char>, c: char, b: Seq<char>, k: CharClass)
    requires
        k.has(c),
    ensures
        text::words(a.push(c) + b, k) == text::words(a, k) + text::words(b, k),
{
    text::lemma_split_around(a, c, b, k);
    lemma_non_empty_concat(text::split(a, k), text::split(b, k));
}

/// The empty text has no words.
pub proof fn lemma_no_words()
    ensures
        text::words(Seq::empty(), CharClass::White) == Seq::<Seq<char>>::empty(),
{
    let none = seq![Seq::<char>::empty()];
    assert(none.drop_last() =~= Seq::empty());
    assert(none.last().len() == 0);
    assert(text::non_empty(none.drop_last()) =~= Seq::empty());
    assert(text::split(Seq::empty(), CharClass::White) =~= none);
}

/// A word is its own only word.
pub proof fn lemma_word_alone(w: Seq<char>)
    requires
        is_word(w),
    ensures
        text::words(w, CharClass::White) == seq![w],
{
    assert forall|i: int| 0 <= i < w.len() implies !CharClass::White.has(#[trigger] w[i]) by {
        assert(!text::is_white(w[i]));
    }
    text::lemma_split_solid(w, CharClass::White);
    assert(seq![w].drop_last() =~= Seq::empty());
    assert(text::non_empty(seq![w].drop_last()) =~= Seq::empty());
    assert(text::non_empty(seq![w]) =~= seq![w]);
}

proof fn lemma_pieces_solid(s: Seq<char>, k: CharClass)
    ensures
        forall|i: int, j: int|
            0 <= i < text::split(s, k).len() && 0 <= j < text::split(s, k)[i].len() ==> !k.has(
                #[trigger] text::split(s, k)[i][j],
            ),
    decreases s.len(),
{
    if s.len() > 0 {
        lemma_pieces_solid(s.drop_last(), k);
        text::lemma_split_some(s.drop_last(), k);
        let before = text::split(s.drop_last(), k);
        let after = text::split(s, k);
        assert forall|i: int, j: int| 0 <= i < after.len() && 0 <= j < after[i].len() implies !k.has(
            #[trigger] after[i][j],
        ) by {
            if i < before.len() - 1 {
                assert(after[i] == before[i]);
                assert(!k.has(before[i][j]));
            } else if i == before.len() - 1 {
                if j < before[i].len() {
                    assert(after[i][j] == before[i][j]);
                    assert(!k.has(before[i][j]));
                }
            }
        }
    }
}

proof fn lemma_non_empty_words(pieces: Seq<Seq<char>>)
    requires
        forall|i: int, j: int|
            0 <= i < pieces.len() && 0 <= j < pieces[i].len() ==> !text::is_white(#[trigger] pieces[i][j]),
    ensures
        forall|i: int| 0 <= i < text::non_empty(pieces).len() ==> is_word(#[trigger] text::non_empty(pieces)[i]),
    decreases pieces.len(),
{
    if pieces.len() > 0 {
        let head = pieces.drop_last();
        assert forall|i: int, j: int| 0 <= i < head.len() && 0 <= j < head[i].len() implies !text::is_white(
            #[trigger] head[i][j],
        ) by {
            assert(!text::is_white(pieces[i][j]));
        }
        lemma_non_empty_words(head);
        let last = pieces.last();
        if last.len() > 0 {
            assert(is_word(last)) by {
                assert forall|j: int| 0 <= j < last.len() implies !text::is_white(#[trigger] last[j]) by {
                    assert(!text::is_white(pieces[pieces.len() - 1][j]));
                }
            }
        }
        let few = text::non_empty(head);
        let all = text::non_empty(pieces);
        assert forall|i: int| 0 <= i < all.len() implies is_word(#[trigger] all[i]) by {
            if i < few.len() {
                assert(all[i] == few[i]);
            }
        }
    }
}

/// The words of a text are words.
pub proof fn lemma_words_are_words(s: Seq<char>)
    ensures
        forall|i: int|
            0 <= i < text::words(s, CharClass::White).len() ==> is_word(
                #[trigger] text::words(s, CharClass::White)[i],
            ),
{
    lemma_pieces_solid(s, CharClass::White);
    let pieces = text::split(s, CharClass::White);
    assert forall|i: int, j: int| 0 <= i < pieces.len() && 0 <= j < pieces[i].len() implies !text::is_white(
        #[trigger] pieces[i][j],
    ) by {
        assert(!CharClass::White.has(pieces[i][j]));
    }
    lemma_non_empty_words(pieces);
}

/// Some texts run together.
pub open spec fn run_together(v: Seq<Seq<char>>) -> Seq<char>
    decreases v.len(),
{
    if v.len() == 0 {
        Seq::empty()
    } else {
        run_together(v.drop_last()) + v.last()
    }
}

pub proof fn lemma_run_concat(a: Seq<Seq<char>>, b: Seq<Seq<char>>)
    ensures
        run_together(a + b) == run_together(a) + run_together(b),
    decreases b.len(),
{
    if b.len() == 0 {
        assert(a + b =~= a);
        assert(run_together(a) + run_together(b) =~= run_together(a));
    } else {
        lemma_run_concat(a, b.drop_last());
        assert((a + b).drop_last() =~= a + b.drop_last());
        assert(run_together(a) + (run_together(b.drop_last()) + b.last()) =~= (run_together(a)
            + run_together(b.drop_last())) + b.last());
    }
}

pub proof fn lemma_run_one(w: Seq<char>)
    ensures
        run_together(seq![w]) == w,
{
    assert(seq![w].drop_last() =~= Seq::empty());
    assert(run_together(seq![w].drop_last()) =~= Seq::empty());
    assert(Seq::<char>::empty() + w =~= w);
}

proof fn lemma_chopping(w: Seq<char>, m: Measure, max_w: nat)
    requires
        w.len() > 0,
    ensures
        ({
            let c = chopping(w, m, max_w);
            &&& c.current.len() > 0
            &&& fits(c.current, m, max_w)
            &&& forall|i: int|
                0 <= i < c.pieces.len() ==> (#[trigger] c.pieces[i]).len() > 0 && fits(
                    c.pieces[i],
                    m,
                    max_w,
                )
            &&& run_together(c.pieces) + c.current == w
            &&& is_word(w) ==> is_word(c.current) && forall|i: int|
                0 <= i < c.pieces.len() ==> is_word(#[trigger] c.pieces[i])
        }),
    decreases w.len(),
{
    let head = w.drop_last();
    let last = w.last();
    let before = chopping(head, m, max_w);
    let c = chopping(w, m, max_w);
    if head.len() > 0 {
        lemma_chopping(head, m, max_w);
        if is_word(w) {
            assert forall|i: int| 0 <= i < head.len() implies !text::is_white(#[trigger] head[i]) by {
                assert(head[i] == w[i]);
            }
        }
        if m.of(before.current.push(last)) <= max_w {
            assert(run_together(before.pieces) + before.current.push(last) =~= (run_together(
                before.pieces,
            ) + before.current).push(last));
        } else {
            assert(before.pieces.push(before.current).drop_last() =~= before.pieces);
            assert(run_together(c.pieces) + seq![last] =~= (run_together(before.pieces)
                + before.current).push(last));
        }
    } else {
        assert(head =~= Seq::empty());
        assert(c.current =~= seq![last]);
        assert(run_together(c.pieces) + c.current =~= seq![last]);
    }
    assert(head.push(last) =~= w);
    if is_word(w) {
        assert(!text::is_white(w[w.len() - 1]));
    }
}

/// The parts of a word: not empty, within the width unless they are single characters, and the
/// word when they are run together. The parts of a word without white space have none either.
pub proof fn lemma_parts(w: Seq<char>, m: Measure, max_w: nat)
    requires
        w.len() > 0,
    ensures
        ({
            let p = parts(w, m, max_w);
            &&& p.len() > 0
            &&& forall|i: int| 0 <= i < p.len() ==> (#[trigger] p[i]).len() > 0 && fits(p[i], m, max_w)
            &&& run_together(p) == w
            &&& is_word(w) ==> forall|i: int| 0 <= i < p.len() ==> is_word(#[trigger] p[i])
        }),
{
    let p = parts(w, m, max_w);
    if m.of(w) <= max_w {
        lemma_run_one(w);
    } else {
        lemma_chopping(w, m, max_w);
        let c = chopping(w, m, max_w);
        assert(p.drop_last() =~= c.pieces);
        assert forall|i: int| 0 <= i < p.len() implies (#[trigger] p[i]).len() > 0 && fits(p[i], m, max_w)
            && (is_word(w) ==> is_word(p[i])) by {
            if i < c.pieces.len() {
                assert(p[i] == c.pieces[i]);
            }
        }
    }
}

/// The parts of some words, one after another.
pub open spec fn all_parts(words: Seq<Seq<char>>, m: Measure, max_w: nat) -> Seq<Seq<char>>
    decreases words.len(),
{
    if words.len() == 0 {
        Seq::empty()
    } else {
        all_parts(words.drop_last(), m, max_w) + parts(words.last(), m, max_w)
    }
}

proof fn lemma_all_parts_concat(a: Seq<Seq<char>>, b: Seq<Seq<char>>, m: Measure, max_w: nat)
    ensures
        all_parts(a + b, m, max_w) == all_parts(a, m, max_w) + all_parts(b, m, max_w),
    decreases b.len(),
{
    if b.len() == 0 {
        assert(a + b =~= a);
        assert(all_parts(a, m, max_w) + all_parts(b, m, max_w) =~= all_parts(a, m, max_w));
    } else {
        lemma_all_parts_concat(a, b.drop_last(), m, max_w);
        assert((a + b).drop_last() =~= a + b.drop_last());
        let p = parts(b.last(), m, max_w);
        assert((all_parts(a, m, max_w) + all_parts(b.drop_last(), m, max_w)) + p =~= all_parts(a, m, max_w)
            + (all_parts(b.drop_last(), m, max_w) + p));
    }
}

/// Words that keep to the width are their own parts.
proof fn lemma_whole_parts(words: Seq<Seq<char>>, m: Measure, max_w: nat)
    requires
        forall|i: int| 0 <= i < words.len() ==> m.of(#[trigger] words[i]) <= max_w,
    ensures
        all_parts(words, m, max_w) == words,
    decreases words.len(),
{
    if words.len() > 0 {
        let head = words.drop_last();
        assert forall|i: int| 0 <= i < head.len() implies m.of(#[trigger] head[i]) <= max_w by {
            assert(head[i] == words[i]);
        }
        lemma_whole_parts(head, m, max_w);
        assert(m.of(words[words.len() - 1]) <= max_w);
        assert(head + seq![words.last()] =~= words);
    } else {
        assert(all_parts(words, m, max_w) =~= words);
    }
}

proof fn lemma_parts_run_together(words: Seq<Seq<char>>, m: Measure, max_w: nat)
    requires
        forall|i: int| 0 <= i < words.len() ==> is_word(#[trigger] words[i]),
    ensures
        run_together(all_parts(words, m, max_w)) == run_together(words),
    decreases words.len(),
{
    if words.len() > 0 {
        let head = words.drop_last();
        assert forall|i: int| 0 <= i < head.len() implies is_word(#[trigger] head[i]) by {
            assert(head[i] == words[i]);
        }
        lemma_parts_run_together(head, m, max_w);
        assert(is_word(words[words.len() - 1]));
        lemma_parts(words.last(), m, max_w);
        lemma_run_concat(all_parts(head, m, max_w), parts(words.last(), m, max_w));
    } else {
        assert(all_parts(words, m, max_w) =~= words);
    }
}

/// Lines that are single words have these words.
proof fn lemma_lines_of_words(v: Seq<Seq<char>>)
    requires
        forall|i: int| 0 <= i < v.len() ==> is_word(#[trigger] v[i]),
    ensures
        all_words(v) == v,
    decreases v.len(),
{
    if v.len() > 0 {
        let head = v.drop_last();
        assert forall|i: int| 0 <= i < head.len() implies is_word(#[trigger] head[i]) by {
            assert(head[i] == v[i]);
        }
        lemma_lines_of_words(head);
        assert(is_word(v[v.len() - 1]));
        lemma_word_alone(v.last());
        assert(head + seq![v.last()] =~= v);
    } else {
        assert(all_words(v) =~= v);
    }
}

/// The words of the lines are the parts of the words that were put into them.
proof fn lemma_filling_keeps_words(words: Seq<Seq<char>>, m: Measure, max_w: nat)
    requires
        forall|i: int| 0 <= i < words.len() ==> is_word(#[trigger] words[i]),
    ensures
        ({
            let f = filling(words, m, max_w);
            &&& all_words(f.lines) + text::words(f.current, CharClass::White) == all_parts(
                words,
                m,
                max_w,
            )
            &&& f.current.len() == 0 <==> words.len() == 0
        }),
    decreases words.len(),
{
    let k = CharClass::White;
    if words.len() == 0 {
        lemma_no_words();
        assert(all_words(Seq::empty()) + text::words(Seq::empty(), k) =~= all_parts(words, m, max_w));
    } else {
        let head = words.drop_last();
        let word = words.last();
        assert forall|i: int| 0 <= i < head.len() implies is_word(#[trigger] head[i]) by {
            assert(head[i] == words[i]);
        }
        assert(is_word(words[words.len() - 1]));
        lemma_filling_keeps_words(head, m, max_w);
        let before = filling(head, m, max_w);
        let done = all_words(before.lines);
        let had = text::words(before.current, k);
        let p = parts(word, m, max_w);
        if before.current.len() > 0 && before.width + 1 + m.of(word) <= max_w {
            lemma_word_alone(word);
            assert(k.has(' '));
            lemma_words_around(before.current, ' ', word, k);
            assert(done + (had + seq![word]) =~= (done + had) + seq![word]);
        } else {
            lemma_parts(word, m, max_w);
            assert forall|i: int| 0 <= i < p.drop_last().len() implies is_word(
                #[trigger] p.drop_last()[i],
            ) by {
                assert(p.drop_last()[i] == p[i]);
            }
            assert(is_word(p[p.len() - 1]));
            lemma_lines_of_words(p.drop_last());
            lemma_word_alone(p.last());
            lemma_all_words_concat(ended_lines(before), p.drop_last());
            if before.current.len() == 0 {
                assert(before.current =~= Seq::empty());
                lemma_no_words();
                assert(done + had =~= done);
            } else {
                assert(before.lines.push(before.current).drop_last() =~= before.lines);
            }
            assert(all_words(ended_lines(before)) == done + had);
            assert(p.drop_last() + seq![p.last()] =~= p);
            assert(((done + had) + p.drop_last()) + seq![p.last()] =~= (done + had) + p);
        }
    }
}

proof fn lemma_paragraph_words(p: Seq<char>, m: Measure, max_w: nat)
    ensures
        all_words(paragraph_lines(p, m, max_w)) == all_parts(text::words(p, CharClass::White), m, max_w),
{
    let k = CharClass::White;
    let t = text::trimmed(p);
    lemma_trim_keeps_words(p);
    if t.len() == 0 {
        assert(t =~= Seq::empty());
        lemma_no_words();
        let lines = seq![Seq::<char>::empty()];
        assert(lines.drop_last() =~= Seq::empty());
        assert(all_words(lines.drop_last()) =~= Seq::empty());
        assert(lines.last() =~= Seq::empty());
        assert(all_words(lines) =~= Seq::empty());
        assert(all_parts(Seq::empty(), m, max_w) =~= Seq::empty());
    } else {
        let words = text::words(t, k);
        lemma_words_are_words(t);
        lemma_filling_keeps_words(words, m, max_w);
        let f = filling(words, m, max_w);
        if f.current.len() == 0 {
            assert(f.current =~= Seq::empty());
            lemma_no_words();
            assert(all_words(f.lines) + Seq::<Seq<char>>::empty() =~= all_words(f.lines));
        } else {
            assert(f.lines.push(f.current).drop_last() =~= f.lines);
        }
    }
}

proof fn lemma_trim_front_words(s: Seq<char>)
    ensures
        text::words(text::trim_front(s, CharClass::White), CharClass::White) == text::words(
            s,
            CharClass::White,
        ),
    decreases s.len(),
{
    let k = CharClass::White;
    if s.len() > 0 && k.has(s[0]) {
        lemma_trim_front_words(s.drop_first());
        lemma_words_around(Seq::empty(), s[0], s.drop_first(), k);
        assert(Seq::<char>::empty().push(s[0]) + s.drop_first() =~= s);
        lemma_no_words();
        assert(text::words(Seq::empty(), k) + text::words(s.drop_first(), k) =~= text::words(
            s.drop_first(),
            k,
        ));
    }
}

proof fn lemma_trim_back_words(s: Seq<char>)
    ensures
        text::words(text::trim_back(s, CharClass::White), CharClass::White) == text::words(
            s,
            CharClass::White,
        ),
    decreases s.len(),
{
    let k = CharClass::White;
    if s.len() > 0 && k.has(s.last()) {
        lemma_trim_back_words(s.drop_last());
        text::lemma_split_some(s.drop_last(), k);
        let pieces = text::split(s.drop_last(), k);
        assert(pieces.push(Seq::empty()).drop_last() =~= pieces);
    }
}

pub proof fn lemma_trim_keeps_words(s: Seq<char>)
    ensures
        text::words(text::trimmed(s), CharClass::White) == text::words(s, CharClass::White),
{
    lemma_trim_front_words(s);
    lemma_trim_back_words(text::trim_front(s, CharClass::White));
}

proof fn lemma_paragraphs_words(ps: Seq<Seq<char>>, m: Measure, max_w: nat)
    ensures
        all_words(paragraphs_lines(ps, m, max_w)) == all_parts(all_words(ps), m, max_w),
    decreases ps.len(),
{
    if ps.len() > 0 {
        lemma_paragraphs_words(ps.drop_last(), m, max_w);
        lemma_paragraph_words(ps.last(), m, max_w);
        lemma_all_words_concat(
            paragraphs_lines(ps.drop_last(), m, max_w),
            paragraph_lines(ps.last(), m, max_w),
        );
        lemma_all_parts_concat(
            all_words(ps.drop_last()),
            text::words(ps.last(), CharClass::White),
            m,
            max_w,
        );
    } else {
        assert(all_words(paragraphs_lines(ps, m, max_w)) =~= all_parts(all_words(ps), m, max_w));
    }
}

/// The words of a text are those of its pieces between line feeds.
proof fn lemma_split_words(s: Seq<char>)
    ensures
        all_words(text::split(s, CharClass::Only('\n'))) == text::words(s, CharClass::White),
    decreases s.len(),
{
    let nl = CharClass::Only('\n');
    let k = CharClass::White;
    s.index_of_last_ensures('\n');
    if s.contains('\n') {
        let i = s.index_of_last('\n')->0;
        let a = s.take(i);
        let b = s.skip(i + 1);
        assert(a.push('\n') + b =~= s);
        text::lemma_split_around(a, '\n', b, nl);
        assert(k.has('\n'));
        lemma_words_around(a, '\n', b, k);
        assert forall|j: int| 0 <= j < b.len() implies !nl.has(#[trigger] b[j]) by {
            assert(b[j] == s[i + 1 + j]);
        }
        text::lemma_split_solid(b, nl);
        lemma_split_words(a);
        assert((text::split(a, nl) + seq![b]).drop_last() =~= text::split(a, nl));
        assert((text::split(a, nl) + seq![b]).last() == b);
    } else {
        assert forall|j: int| 0 <= j < s.len() implies !nl.has(#[trigger] s[j]) by {
            assert(s.contains(s[j]));
        }
        text::lemma_split_solid(s, nl);
        assert(seq![s].drop_last() =~= Seq::empty());
        assert(all_words(seq![s].drop_last()) =~= Seq::empty());
        assert(all_words(seq![s]) =~= text::words(s, k));
    }
}

proof fn lemma_without_cr_words(l: Seq<char>)
    ensures
        text::words(text::without_cr(l), CharClass::White) == text::words(l, CharClass::White),
{
    let k = CharClass::White;
    if l.len() > 0 && l.last() == '\r' {
        let empty = Seq::<char>::empty();
        assert(k.has('\r'));
        lemma_words_around(l.drop_last(), '\r', empty, k);
        assert(l.drop_last().push('\r') + empty =~= l);
        lemma_no_words();
        assert(text::words(l.drop_last(), k) + text::words(empty, k) =~= text::words(l.drop_last(), k));
    }
}

proof fn lemma_ended_words(ps: Seq<Seq<char>>)
    ensures
        all_words(ps.map_values(|l: Seq<char>| text::without_cr(l))) == all_words(ps),
    decreases ps.len(),
{
    let ended = ps.map_values(|l: Seq<char>| text::without_cr(l));
    if ps.len() > 0 {
        lemma_ended_words(ps.drop_last());
        lemma_without_cr_words(ps.last());
        assert(ended.drop_last() =~= ps.drop_last().map_values(|l: Seq<char>| text::without_cr(l)));
    } else {
        assert(ended =~= ps);
    }
}

/// The words of the wrapped lines are those of the text, in their order; words that are too
/// wide for a line are in pieces.
pub proof fn law_wrap_keeps_words(s: Seq<char>, m: Measure, max_w: nat)
    ensures
        all_words(wrapped(s, m, max_w)) == (if max_w == 0 {
            text::words(s, CharClass::White)
        } else {
            all_parts(text::words(s, CharClass::White), m, max_w)
        }),
{
    let pieces = text::split(s, CharClass::Only('\n'));
    lemma_split_words(s);
    if max_w > 0 {
        lemma_paragraphs_words(pieces, m, max_w);
    } else {
        text::lemma_split_some(s, CharClass::Only('\n'));
        let ended = pieces.drop_last().map_values(|l: Seq<char>| text::without_cr(l));
        lemma_ended_words(pieces.drop_last());
        if pieces.last().len() == 0 {
            lemma_no_words();
            assert(pieces.last() =~= Seq::empty());
            assert(all_words(pieces) =~= all_words(ended));
        } else {
            assert(ended.push(pieces.last()).drop_last() =~= ended);
        }
    }
}

/// Words that fit in a line stay whole: wrapping loses none of them, adds none and keeps their
/// order.
pub proof fn law_fitting_words_stay_whole(s: Seq<char>, m: Measure, max_w: nat)
    requires
        max_w == 0 || forall|i: int|
            0 <= i < text::words(s, CharClass::White).len() ==> m.of(
                #[trigger] text::words(s, CharClass::White)[i],
            ) <= max_w,
    ensures
        all_words(wrapped(s, m, max_w)) == text::words(s, CharClass::White),
{
    law_wrap_keeps_words(s, m, max_w);
    if max_w > 0 {
        lemma_whole_parts(text::words(s, CharClass::White), m, max_w);
    }
}

/// Wrapping loses no character but white space, adds none and keeps their order.
pub proof fn law_wrap_keeps_characters(s: Seq<char>, m: Measure, max_w: nat)
    ensures
        run_together(all_words(wrapped(s, m, max_w))) == run_together(text::words(s, CharClass::White)),
{
    law_wrap_keeps_words(s, m, max_w);
    lemma_words_are_words(s);
    lemma_parts_run_together(text::words(s, CharClass::White), m, max_w);
}

/// A line that keeps to the width, or a single character, which cannot be broken.
pub open spec fn fits(line: Seq<char>, m: Measure, max_w: nat) -> bool {
    m.of(line) <= max_w || line.len() == 1
}

proof fn lemma_filling_fits(words: Seq<Seq<char>>, m: Measure, max_w: nat)
    requires
        forall|i: int| 0 <= i < words.len() ==> is_word(#[trigger] words[i]),
    ensures
        ({
            let f = filling(words, m, max_w);
            &&& m.of(f.current) <= f.width
            &&& f.width <= max_w || f.current.len() == 1
            &&& forall|i: int| 0 <= i < f.lines.len() ==> fits(#[trigger] f.lines[i], m, max_w)
        }),
    decreases words.len(),
{
    if words.len() > 0 {
        let head = words.drop_last();
        let word = words.last();
        assert forall|i: int| 0 <= i < head.len() implies is_word(#[trigger] head[i]) by {
            assert(head[i] == words[i]);
        }
        assert(is_word(words[words.len() - 1]));
        lemma_filling_fits(head, m, max_w);
        lemma_parts(word, m, max_w);
        let before = filling(head, m, max_w);
        width::lemma_measure_joined(m, before.current, word);
        let f = filling(words, m, max_w);
        let p = parts(word, m, max_w);
        assert(fits(p[p.len() - 1], m, max_w));
        assert forall|i: int| 0 <= i < f.lines.len() implies fits(#[trigger] f.lines[i], m, max_w) by {
            if i < before.lines.len() {
                assert(f.lines[i] == before.lines[i]);
            } else if i >= ended_lines(before).len() {
                assert(f.lines[i] == p[i - ended_lines(before).len()]);
            }
        }
    }
}

proof fn lemma_paragraphs_fit(ps: Seq<Seq<char>>, m: Measure, max_w: nat)
    ensures
        forall|i: int|
            0 <= i < paragraphs_lines(ps, m, max_w).len() ==> fits(
                #[trigger] paragraphs_lines(ps, m, max_w)[i],
                m,
                max_w,
            ),
    decreases ps.len(),
{
    if ps.len() > 0 {
        lemma_paragraphs_fit(ps.drop_last(), m, max_w);
        let a = paragraphs_lines(ps.drop_last(), m, max_w);
        let b = paragraph_lines(ps.last(), m, max_w);
        let t = text::trimmed(ps.last());
        let words = text::words(t, CharClass::White);
        lemma_words_are_words(t);
        lemma_filling_fits(words, m, max_w);
        assert forall|i: int| 0 <= i < (a + b).len() implies fits(#[trigger] (a + b)[i], m, max_w) by {
            if i < a.len() {
                assert((a + b)[i] == a[i]);
            } else {
                assert((a + b)[i] == b[i - a.len()]);
                let f = filling(words, m, max_w);
                if t.len() > 0 && i - a.len() < f.lines.len() {
                    assert(b[i - a.len()] == f.lines[i - a.len()]);
                }
            }
        }
    }
}

/// A wrapped line takes at most the given columns, unless it is a single character that takes
/// more.
pub proof fn law_wrap_keeps_width(s: Seq<char>, m: Measure, max_w: nat, i: int)
    requires
        max_w > 0,
        0 <= i < wrapped(s, m, max_w).len(),
    ensures
        fits(wrapped(s, m, max_w)[i], m, max_w),
{
    lemma_paragraphs_fit(text::split(s, CharClass::Only('\n')), m, max_w);
}

/// A line that fills one line again, and nothing else.
pub open spec fn is_settled(line: Seq<char>, m: Measure, max_w: nat) -> bool {
    let f = filling(text::words(line, CharClass::White), m, max_w);
    &&& line.len() > 0
    &&& f.lines.len() == 0
    &&& f.current == line
    &&& !line.contains('\n')
}

/// A word that fits is settled.
proof fn lemma_word_settled(w: Seq<char>, m: Measure, max_w: nat)
    requires
        is_word(w),
        fits(w, m, max_w),
    ensures
        is_settled(w, m, max_w),
        filling(text::words(w, CharClass::White), m, max_w).width == m.of(w),
{
    lemma_word_alone(w);
    assert(seq![w].drop_last() =~= Seq::empty());
    if m.of(w) > max_w {
        assert(w.drop_last() =~= Seq::empty());
        assert(Seq::<char>::empty().push(w.last()) =~= w);
        assert(chopping(w.drop_last(), m, max_w).current.len() == 0);
        let c = chopping(w, m, max_w);
        assert(c.pieces =~= Seq::empty());
        assert(c.current == w);
        assert(parts(w, m, max_w) =~= seq![w]);
    }
    assert(parts(w, m, max_w).drop_last() =~= Seq::empty());
    assert(filling(seq![w].drop_last(), m, max_w).current.len() == 0);
    assert(filling(seq![w], m, max_w).lines =~= Seq::empty());
    if w.contains('\n') {
        let i = choose|i: int| 0 <= i < w.len() && w[i] == '\n';
        assert(!text::is_white(w[i]));
    }
}

/// All lines that words fill are settled, also the last one at any time.
proof fn lemma_filling_settled(words: Seq<Seq<char>>, m: Measure, max_w: nat)
    requires
        forall|i: int| 0 <= i < words.len() ==> is_word(#[trigger] words[i]),
    ensures
        ({
            let f = filling(words, m, max_w);
            &&& words.len() > 0 ==> is_settled(f.current, m, max_w) && filling(
                text::words(f.current, CharClass::White),
                m,
                max_w,
            ).width == f.width
            &&& words.len() == 0 ==> f.current.len() == 0
            &&& forall|i: int| 0 <= i < f.lines.len() ==> is_settled(#[trigger] f.lines[i], m, max_w)
        }),
    decreases words.len(),
{
    if words.len() > 0 {
        let k = CharClass::White;
        let head = words.drop_last();
        let word = words.last();
        assert forall|i: int| 0 <= i < head.len() implies is_word(#[trigger] head[i]) by {
            assert(head[i] == words[i]);
        }
        assert(is_word(words[words.len() - 1]));
        lemma_filling_settled(head, m, max_w);
        let before = filling(head, m, max_w);
        let f = filling(words, m, max_w);
        if before.current.len() > 0 && before.width + 1 + m.of(word) <= max_w {
            lemma_word_alone(word);
            lemma_word_settled(word, m, max_w);
            assert(k.has(' '));
            lemma_words_around(before.current, ' ', word, k);
            let had = text::words(before.current, k);
            assert((had + seq![word]).drop_last() =~= had);
            assert((had + seq![word]).last() == word);
            if f.current.contains('\n') {
                let i = choose|i: int| 0 <= i < f.current.len() && f.current[i] == '\n';
                let n = before.current.len();
                if i < n {
                    assert(before.current[i] == '\n');
                } else if i > n {
                    assert(word[i - n - 1] == '\n');
                }
            }
        } else {
            let p = parts(word, m, max_w);
            lemma_parts(word, m, max_w);
            assert forall|i: int| 0 <= i < p.len() implies is_settled(#[trigger] p[i], m, max_w) by {
                lemma_word_settled(p[i], m, max_w);
            }
            assert(is_settled(p[p.len() - 1], m, max_w));
            lemma_word_settled(p.last(), m, max_w);
            let ended = ended_lines(before);
            assert forall|i: int| 0 <= i < f.lines.len() implies is_settled(#[trigger] f.lines[i], m, max_w) by {
                if i < before.lines.len() {
                    assert(f.lines[i] == before.lines[i]);
                } else if i >= ended.len() {
                    assert(f.lines[i] == p[i - ended.len()]);
                } else {
                    assert(f.lines[i] == before.current);
                }
            }
        }
    }
}

/// A line that is empty or settled.
pub open spec fn stays(line: Seq<char>, m: Measure, max_w: nat) -> bool {
    line.len() == 0 || is_settled(line, m, max_w)
}

proof fn lemma_last_word(s: Seq<char>)
    requires
        s.len() > 0,
        !text::is_white(s.last()),
    ensures
        text::words(s, CharClass::White).len() > 0,
{
    text::lemma_split_some(s.drop_last(), CharClass::White);
    assert(!CharClass::White.has(s.last()));
    let pieces = text::split(s, CharClass::White);
    assert(pieces.last().len() > 0);
}

proof fn lemma_trim_back_end(s: Seq<char>)
    ensures
        text::trim_back(s, CharClass::White).len() > 0 ==> !text::is_white(
            text::trim_back(s, CharClass::White).last(),
        ),
    decreases s.len(),
{
    if s.len() > 0 && CharClass::White.has(s.last()) {
        lemma_trim_back_end(s.drop_last());
    }
}

/// What is left of a text without the white space around it has words.
proof fn lemma_trimmed_has_words(s: Seq<char>)
    requires
        text::trimmed(s).len() > 0,
    ensures
        text::words(text::trimmed(s), CharClass::White).len() > 0,
{
    lemma_trim_back_end(text::trim_front(s, CharClass::White));
    lemma_last_word(text::trimmed(s));
}

proof fn lemma_paragraphs_stay(ps: Seq<Seq<char>>, m: Measure, max_w: nat)
    ensures
        paragraphs_lines(ps, m, max_w).len() >= ps.len(),
        forall|i: int|
            0 <= i < paragraphs_lines(ps, m, max_w).len() ==> stays(
                #[trigger] paragraphs_lines(ps, m, max_w)[i],
                m,
                max_w,
            ),
    decreases ps.len(),
{
    if ps.len() > 0 {
        lemma_paragraphs_stay(ps.drop_last(), m, max_w);
        let a = paragraphs_lines(ps.drop_last(), m, max_w);
        let b = paragraph_lines(ps.last(), m, max_w);
        let t = text::trimmed(ps.last());
        let words = text::words(t, CharClass::White);
        let f = filling(words, m, max_w);
        lemma_words_are_words(t);
        lemma_filling_settled(words, m, max_w);
        if t.len() > 0 {
            lemma_trimmed_has_words(ps.last());
        }
        assert forall|i: int| 0 <= i < (a + b).len() implies stays(#[trigger] (a + b)[i], m, max_w) by {
            if i < a.len() {
                assert((a + b)[i] == a[i]);
            } else {
                assert((a + b)[i] == b[i - a.len()]);
                if t.len() > 0 && i - a.len() < f.lines.len() {
                    assert(b[i - a.len()] == f.lines[i - a.len()]);
                }
            }
        }
    }
}

/// Lines that stay as they are come out as they are.
proof fn lemma_lines_that_stay(lines: Seq<Seq<char>>, m: Measure, max_w: nat)
    requires
        forall|i: int| 0 <= i < lines.len() ==> stays(#[trigger] lines[i], m, max_w),
    ensures
        paragraphs_lines(lines, m, max_w) == lines,
    decreases lines.len(),
{
    if lines.len() > 0 {
        let head = lines.drop_last();
        let line = lines.last();
        assert forall|i: int| 0 <= i < head.len() implies stays(#[trigger] head[i], m, max_w) by {
            assert(head[i] == lines[i]);
        }
        lemma_lines_that_stay(head, m, max_w);
        assert(stays(lines[lines.len() - 1], m, max_w));
        lemma_trim_keeps_words(line);
        if line.len() == 0 {
            assert(line =~= Seq::empty());
            assert(text::trimmed(line) =~= Seq::empty());
        } else {
            if text::trimmed(line).len() == 0 {
                assert(text::trimmed(line) =~= Seq::empty());
                lemma_no_words();
                assert(filling(Seq::empty(), m, max_w).current.len() == 0);
            }
            assert(filling(text::words(line, CharClass::White), m, max_w).lines.push(line) =~= seq![line]);
        }
        assert(paragraph_lines(line, m, max_w) =~= seq![line]);
        assert(head + seq![line] =~= lines);
    } else {
        assert(paragraphs_lines(lines, m, max_w) =~= lines);
    }
}

/// Wrapping lines that are already wrapped changes nothing.
pub proof fn law_wrapping_again_changes_nothing(s: Seq<char>, m: Measure, max_w: nat)
    requires
        max_w > 0,
    ensures
        wrapped(text::join(wrapped(s, m, max_w), seq!['\n']), m, max_w) == wrapped(s, m, max_w),
{
    let nl = CharClass::Only('\n');
    let lines = wrapped(s, m, max_w);
    text::lemma_split_some(s, nl);
    lemma_paragraphs_stay(text::split(s, nl), m, max_w);
    assert forall|i: int| 0 <= i < lines.len() implies !(#[trigger] lines[i]).contains('\n') by {
        assert(stays(lines[i], m, max_w));
    }
    text::lemma_split_joined(lines, '\n');
    lemma_lines_that_stay(lines, m, max_w);
}

/// The solid characters of some lines, one after another.
pub open spec fn solid_lines(lines: Seq<Seq<char>>) -> Seq<char>
    decreases lines.len(),
{
    if lines.len() == 0 {
        Seq::empty()
    } else {
        solid_lines(lines.drop_last()) + text::solid(lines.last())
    }
}

proof fn lemma_solid_is_words(s: Seq<char>)
    ensures
        text::solid(s) == run_together(text::words(s, CharClass::White)),
    decreases s.len(),
{
    let k = CharClass::White;
    if s.len() == 0 {
        assert(s =~= Seq::empty());
        lemma_no_words();
        assert(run_together(Seq::empty()) =~= text::solid(s));
    } else {
        let t = s.drop_last();
        lemma_solid_is_words(t);
        text::lemma_split_some(t, k);
        let before = text::split(t, k);
        let after = text::split(s, k);
        if k.has(s.last()) {
            assert(after.drop_last() =~= before);
        } else {
            let head = before.drop_last();
            let p = before.last();
            assert(after.drop_last() =~= head);
            assert(text::non_empty(after) == text::non_empty(head).push(p.push(s.last())));
            let run = run_together(text::non_empty(head));
            assert(text::non_empty(head).push(p.push(s.last())).drop_last() =~= text::non_empty(head));
            if p.len() == 0 {
                assert(run + p.push(s.last()) =~= run.push(s.last()));
            } else {
                assert(text::non_empty(head).push(p).drop_last() =~= text::non_empty(head));
                assert(run + p.push(s.last()) =~= (run + p).push(s.last()));
            }
        }
    }
}

proof fn lemma_solid_lines_are_words(lines: Seq<Seq<char>>)
    ensures
        solid_lines(lines) == run_together(all_words(lines)),
    decreases lines.len(),
{
    if lines.len() > 0 {
        lemma_solid_lines_are_words(lines.drop_last());
        lemma_solid_is_words(lines.last());
        lemma_run_concat(all_words(lines.drop_last()), text::words(lines.last(), CharClass::White));
    } else {
        assert(all_words(lines) =~= Seq::empty());
        assert(run_together(Seq::empty()) =~= Seq::empty());
    }
}

/// The solid characters of the wrapped lines are those of the text, in their order.
pub proof fn law_wrap_keeps_solid_characters(s: Seq<char>, m: Measure, max_w: nat)
    ensures
        solid_lines(wrapped(s, m, max_w)) == text::solid(s),
{
    law_wrap_keeps_characters(s, m, max_w);
    lemma_solid_lines_are_words(wrapped(s, m, max_w));
    lemma_solid_is_words(s);
}

/// The columns of some words with a space between each and the next.
pub open spec fn line_width(words: Seq<Seq<char>>, m: Measure) -> nat
    decreases words.len(),
{
    if words.len() == 0 {
        0
    } else if words.len() == 1 {
        m.of(words[0])
    } else {
        line_width(words.drop_last(), m) + 1 + m.of(words.last())
    }
}

proof fn lemma_words_in_one_line(words: Seq<Seq<char>>, m: Measure, max_w: nat)
    requires
        words.len() > 0,
        forall|i: int| 0 <= i < words.len() ==> is_word(#[trigger] words[i]),
        line_width(words, m) <= max_w,
    ensures
        ({
            let line = text::join(words, seq![' ']);
            let f = filling(words, m, max_w);
            &&& f.lines.len() == 0
            &&& f.current == line
            &&& f.width == line_width(words, m)
            &&& line.len() > 0
            &&& text::words(line, CharClass::White) == words
            &&& !line.contains('\n')
        }),
    decreases words.len(),
{
    let k = CharClass::White;
    let head = words.drop_last();
    let word = words.last();
    assert(is_word(words[words.len() - 1]));
    lemma_word_alone(word);
    if word.contains('\n') {
        let i = choose|i: int| 0 <= i < word.len() && word[i] == '\n';
        assert(!text::is_white(word[i]));
    }
    if words.len() == 1 {
        assert(words =~= seq![word]);
        assert(head =~= Seq::empty());
        assert(filling(head, m, max_w).current.len() == 0);
        assert(parts(word, m, max_w).drop_last() =~= Seq::empty());
        assert(filling(words, m, max_w).lines =~= Seq::empty());
    } else {
        assert forall|i: int| 0 <= i < head.len() implies is_word(#[trigger] head[i]) by {
            assert(head[i] == words[i]);
        }
        lemma_words_in_one_line(head, m, max_w);
        let before = text::join(head, seq![' ']);
        let line = text::join(words, seq![' ']);
        assert(line =~= before.push(' ') + word);
        assert(k.has(' '));
        lemma_words_around(before, ' ', word, k);
        assert(head + seq![word] =~= words);
        if line.contains('\n') {
            let i = choose|i: int| 0 <= i < line.len() && line[i] == '\n';
            if i < before.len() {
                assert(before[i] == '\n');
            } else if i > before.len() {
                assert(word[i - before.len() - 1] == '\n');
            }
        }
    }
}

/// Words that fit in one line, with a space between each and the next, are not broken up.
pub proof fn law_words_that_fit_stay_together(words: Seq<Seq<char>>, m: Measure, max_w: nat)
    requires
        max_w > 0,
        words.len() > 0,
        forall|i: int| 0 <= i < words.len() ==> is_word(#[trigger] words[i]),
        line_width(words, m) <= max_w,
    ensures
        wrapped(text::join(words, seq![' ']), m, max_w) == seq![text::join(words, seq![' '])],
{
    lemma_words_in_one_line(words, m, max_w);
    let s = text::join(words, seq![' ']);
    let nl = CharClass::Only('\n');
    assert forall|i: int| 0 <= i < s.len() implies !nl.has(#[trigger] s[i]) by {
        assert(s.contains(s[i]));
    }
    text::lemma_split_solid(s, nl);
    assert(stays(s, m, max_w));
    lemma_lines_that_stay(seq![s], m, max_w);
}

/// Paragraphs are wrapped one by one.
pub proof fn law_paragraphs_are_wrapped_apart(a: Seq<char>, b: Seq<char>, m: Measure, max_w: nat)
    requires
        max_w > 0,
    ensures
        wrapped(a.push('\n') + b, m, max_w) == wrapped(a, m, max_w) + wrapped(b, m, max_w),
{
    let nl = CharClass::Only('\n');
    text::lemma_split_around(a, '\n', b, nl);
    lemma_paragraphs_concat(text::split(a, nl), text::split(b, nl), m, max_w);
}

proof fn lemma_paragraphs_concat(a: Seq<Seq<char>>, b: Seq<Seq<char>>, m: Measure, max_w: nat)
    ensures
        paragraphs_lines(a + b, m, max_w) == paragraphs_lines(a, m, max_w) + paragraphs_lines(b, m, max_w),
    decreases b.len(),
{
    if b.len() == 0 {
        assert(a + b =~= a);
        assert(paragraphs_lines(a, m, max_w) + paragraphs_lines(b, m, max_w) =~= paragraphs_lines(a, m, max_w));
    } else {
        lemma_paragraphs_concat(a, b.drop_last(), m, max_w);
        assert((a + b).drop_last() =~= a + b.drop_last());
        let last = paragraph_lines(b.last(), m, max_w);
        assert((paragraphs_lines(a, m, max_w) + paragraphs_lines(b.drop_last(), m, max_w)) + last
            =~= paragraphs_lines(a, m, max_w) + (paragraphs_lines(b.drop_last(), m, max_w) + last));
    }
}

/// Within a width every text has a line.
pub proof fn lemma_some_line(s: Seq<char>, m: Measure, max_w: nat)
    requires
        max_w > 0,
    ensures
        wrapped(s, m, max_w).len() > 0,
{
    text::lemma_split_some(s, CharClass::Only('\n'));
    lemma_paragraphs_stay(text::split(s, CharClass::Only('\n')), m, max_w);
}

/// A line and the line behind it, the first word of which would have been too much for the first.
pub open spec fn is_broken_rightly(line: Seq<char>, next: Seq<char>, m: Measure, max_w: nat) -> bool {
    let words = text::words(line, CharClass::White);
    let more = text::words(next, CharClass::White);
    more.len() > 0 && line_width(words, m) + 1 + m.of(more[0]) > max_w
}

proof fn lemma_filling_greedy(words: Seq<Seq<char>>, m: Measure, max_w: nat)
    requires
        forall|i: int| 0 <= i < words.len() ==> is_word(#[trigger] words[i]) && m.of(words[i]) <= max_w,
    ensures
        ({
            let f = filling(words, m, max_w);
            let lines = ended_lines(f);
            &&& words.len() > 0 ==> f.current.len() > 0
            &&& f.width == line_width(text::words(f.current, CharClass::White), m)
            &&& f.current.len() > 0 ==> text::words(f.current, CharClass::White).len() > 0
            &&& forall|i: int|
                0 <= i < lines.len() - 1 ==> is_broken_rightly(#[trigger] lines[i], lines[i + 1], m, max_w)
        }),
    decreases words.len(),
{
    let k = CharClass::White;
    lemma_no_words();
    if words.len() > 0 {
        let head = words.drop_last();
        let word = words.last();
        assert forall|i: int| 0 <= i < head.len() implies is_word(#[trigger] head[i]) && m.of(head[i])
            <= max_w by {
            assert(head[i] == words[i]);
        }
        assert(is_word(words[words.len() - 1]) && m.of(words[words.len() - 1]) <= max_w);
        lemma_filling_greedy(head, m, max_w);
        lemma_word_alone(word);
        let before = filling(head, m, max_w);
        let f = filling(words, m, max_w);
        let old_lines = ended_lines(before);
        let lines = ended_lines(f);
        let had = text::words(before.current, k);
        if before.current.len() > 0 && before.width + 1 + m.of(word) <= max_w {
            assert(k.has(' '));
            lemma_words_around(before.current, ' ', word, k);
            assert((had + seq![word]).drop_last() =~= had);
            assert((had + seq![word])[0] == had[0]);
            assert forall|i: int| 0 <= i < lines.len() - 1 implies is_broken_rightly(
                #[trigger] lines[i],
                lines[i + 1],
                m,
                max_w,
            ) by {
                assert(lines[i] == old_lines[i]);
                assert(is_broken_rightly(old_lines[i], old_lines[i + 1], m, max_w));
                if i + 1 < lines.len() - 1 {
                    assert(lines[i + 1] == old_lines[i + 1]);
                }
            }
        } else {
            assert(parts(word, m, max_w).drop_last() =~= Seq::empty());
            assert(f.lines =~= old_lines);
            assert(f.current == word);
            assert(lines =~= old_lines.push(word));
            assert forall|i: int| 0 <= i < lines.len() - 1 implies is_broken_rightly(
                #[trigger] lines[i],
                lines[i + 1],
                m,
                max_w,
            ) by {
                assert(lines[i] == old_lines[i]);
                if i < old_lines.len() - 1 {
                    assert(is_broken_rightly(old_lines[i], old_lines[i + 1], m, max_w));
                    assert(lines[i + 1] == old_lines[i + 1]);
                } else if before.current.len() == 0 {
                    if head.len() > 0 {
                        assert(before.current.len() > 0);
                    }
                    assert(old_lines.len() == 0);
                } else {
                    assert(old_lines[i] == before.current);
                }
            }
        }
    } else {
        assert(filling(words, m, max_w).current =~= Seq::empty());
    }
}

/// A line of a paragraph ends only where the next word would have been too much for it.
pub proof fn law_lines_are_filled_up(s: Seq<char>, m: Measure, max_w: nat, i: int)
    requires
        max_w > 0,
        !s.contains('\n'),
        forall|j: int|
            0 <= j < text::words(s, CharClass::White).len() ==> m.of(
                #[trigger] text::words(s, CharClass::White)[j],
            ) <= max_w,
        0 <= i < wrapped(s, m, max_w).len() - 1,
    ensures
        is_broken_rightly(wrapped(s, m, max_w)[i], wrapped(s, m, max_w)[i + 1], m, max_w),
{
    let nl = CharClass::Only('\n');
    assert forall|j: int| 0 <= j < s.len() implies !nl.has(#[trigger] s[j]) by {
        assert(s.contains(s[j]));
    }
    text::lemma_split_solid(s, nl);
    let one = seq![s];
    assert(one.drop_last() =~= Seq::empty());
    assert(paragraphs_lines(one.drop_last(), m, max_w) =~= Seq::empty());
    assert(wrapped(s, m, max_w) =~= paragraph_lines(s, m, max_w));
    lemma_trim_keeps_words(s);
    lemma_words_are_words(s);
    lemma_filling_greedy(text::words(s, CharClass::White), m, max_w);
}

/// A word that has to be broken fills its lines: no piece could take another character.
pub proof fn law_pieces_are_filled_up(w: Seq<char>, m: Measure, max_w: nat, i: int)
    requires
        w.len() > 0,
        m.of(w) > max_w,
        0 <= i < parts(w, m, max_w).len() - 1,
    ensures
        parts(w, m, max_w)[i + 1].len() > 0,
        m.of(parts(w, m, max_w)[i].push(parts(w, m, max_w)[i + 1][0])) > max_w,
{
    lemma_pieces_full(w, m, max_w, i);
}

proof fn lemma_pieces_full(w: Seq<char>, m: Measure, max_w: nat, i: int)
    requires
        w.len() > 0,
        0 <= i < chopping(w, m, max_w).pieces.len(),
    ensures
        ({
            let c = chopping(w, m, max_w);
            let all = c.pieces.push(c.current);
            &&& all[i + 1].len() > 0
            &&& m.of(all[i].push(all[i + 1][0])) > max_w
        }),
    decreases w.len(),
{
    let head = w.drop_last();
    let before = chopping(head, m, max_w);
    let c = chopping(w, m, max_w);
    if head.len() > 0 {
        lemma_chopping(head, m, max_w);
        if i < before.pieces.len() {
            lemma_pieces_full(head, m, max_w, i);
            let old_all = before.pieces.push(before.current);
            let all = c.pieces.push(c.current);
            assert(all[i] == old_all[i]);
            if i + 1 < before.pieces.len() {
                assert(all[i + 1] == old_all[i + 1]);
            }
        }
    } else {
        assert(before.current.len() == 0);
    }
}

} // verus!
