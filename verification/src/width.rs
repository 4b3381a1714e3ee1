//! How many terminal columns a text takes.

use crate::text::chars_of;
use unicode_width::UnicodeWidthChar;
use vstd::prelude::*;
use vstd::utf8::*;
use wide::u8x16;

verus! {

/// The columns of a character beyond ASCII, as `unicode_width::UnicodeWidthChar::width` gives
/// them.
pub uninterp spec fn wide_columns(c: char) -> usize;

/// `unicode_width::UnicodeWidthChar::width`: control characters have no width, the other ASCII
/// characters and the ellipsis take one column. No character takes more columns than bytes in
/// UTF-8.
#[verifier::external_body]
fn char_width(c: char) -> (r: Option<usize>)
    ensures
        r == (if c < '\u{20}' || ('\u{7F}' <= c && c < '\u{A0}') {
            None
        } else if c < '\u{7F}' || c == '\u{2026}' {
            Some(1usize)
        } else {
            Some(wide_columns(c))
        }),
        r matches Some(w) ==> w <= encode_scalar(c as u32).len(),
{
    UnicodeWidthChar::width(c)
}

/// The columns of a character; none for control characters.
pub open spec fn columns(c: char) -> nat {
    if c < '\u{20}' || ('\u{7F}' <= c && c < '\u{A0}') {
        0
    } else if c < '\u{7F}' || c == '\u{2026}' {
        1
    } else {
        wide_columns(c) as nat
    }
}

/// The columns of a text, each character counted by itself.
pub open spec fn text_columns(s: Seq<char>) -> nat
    decreases s.len(),
{
    if s.len() == 0 {
        0
    } else {
        text_columns(s.drop_last()) + columns(s.last())
    }
}

/// The columns of a character.
pub fn columns_of(c: char) -> (r: usize)
    ensures
        r == columns(c),
        r <= encode_scalar(c as u32).len(),
{
    match char_width(c) {
        Some(w) => w,
        None => 0,
    }
}

/// The columns of a text, each character counted by itself.
pub fn str_width(s: &str) -> (r: usize)
    ensures
        r == text_columns(s@),
{
    let total: usize = s.as_bytes().len();
    let v = chars_of(s);
    let mut width: usize = 0;
    assert(s@.skip(0) =~= s@);
    for i in 0..v.len()
        invariant
            v@ == s@,
            width == text_columns(s@.take(i as int)),
            width + encode_utf8(s@.skip(i as int)).len() <= total,
    {
        assert(s@.take(i + 1).drop_last() =~= s@.take(i as int));
        assert(s@.skip(i as int).drop_first() =~= s@.skip(i + 1));
        width = width + columns_of(v[i]);
    }
    assert(s@.take(s@.len() as int) =~= s@);
    width
}

/// The columns of two texts put together.
pub proof fn lemma_columns_concat(a: Seq<char>, b: Seq<char>)
    ensures
        text_columns(a + b) == text_columns(a) + text_columns(b),
    decreases b.len(),
{
    if b.len() == 0 {
        assert(a + b =~= a);
    } else {
        lemma_columns_concat(a, b.drop_last());
        assert((a + b).drop_last() =~= a + b.drop_last());
    }
}

/// The columns of a text, but the number of its characters where all of them are ASCII.
pub open spec fn display_columns(s: Seq<char>) -> nat {
    if is_ascii_chars(s) {
        s.len()
    } else {
        text_columns(s)
    }
}

/// `wide::u8x16::move_mask`: one bit for each of sixteen bytes, set where the byte is 0x80 or
/// more.
#[verifier::external_body]
fn high_bits(chunk: [u8; 16]) -> (r: i32)
    ensures
        r == 0 <==> forall|i: int| 0 <= i < 16 ==> #[trigger] chunk@[i] < 0x80,
{
    u8x16::new(chunk).move_mask()
}

/// The sixteen bytes from `at` on.
fn chunk_at(bytes: &[u8], at: usize) -> (r: [u8; 16])
    requires
        at + 16 <= bytes@.len(),
    ensures
        forall|i: int| 0 <= i < 16 ==> #[trigger] r@[i] == bytes@[at + i],
{
    let mut chunk: [u8; 16] = [0; 16];
    for k in 0usize..16usize
        invariant
            at + 16 <= bytes@.len(),
            forall|i: int| 0 <= i < k ==> #[trigger] chunk@[i] == bytes@[at + i],
    {
        let end: usize = bytes.len();
        assert(at + k < end);
        chunk[k] = bytes[at + k];
    }
    chunk
}

/// Tests whether all bytes are below 0x80, sixteen at a time.
fn all_low(bytes: &[u8]) -> (r: bool)
    ensures
        r == (forall|i: int| 0 <= i < bytes@.len() ==> #[trigger] bytes@[i] < 0x80),
{
    let n: usize = bytes.len();
    let mut i: usize = 0;
    while n - i >= 16
        invariant
            n == bytes@.len(),
            i <= n,
            forall|j: int| 0 <= j < i ==> #[trigger] bytes@[j] < 0x80,
        decreases n - i,
    {
        let chunk = chunk_at(bytes, i);
        if high_bits(chunk) != 0 {
            proof {
                let k = choose|k: int| 0 <= k < 16 && !(#[trigger] chunk@[k] < 0x80);
                assert(bytes@[i + k] == chunk@[k]);
            }
            return false;
        }
        proof {
            assert forall|j: int| 0 <= j < i + 16 implies #[trigger] bytes@[j] < 0x80 by {
                if j >= i {
                    assert(chunk@[j - i] == bytes@[i + (j - i)]);
                }
            }
        }
        i = i + 16;
    }
    while i < n
        invariant
            n == bytes@.len(),
            i <= n,
            forall|j: int| 0 <= j < i ==> #[trigger] bytes@[j] < 0x80,
        decreases n - i,
    {
        if bytes[i] >= 0x80 {
            return false;
        }
        i = i + 1;
    }
    true
}

proof fn lemma_one_byte(c: char)
    requires
        encode_scalar(c as u32).len() == 1,
    ensures
        '\0' <= c <= '\u{7f}',
{
    char_is_scalar(c);
}

/// A text is ASCII exactly if all bytes of its encoding are below 0x80.
proof fn lemma_low_bytes(s: Seq<char>)
    ensures
        is_ascii_chars(s) <==> forall|i: int|
            0 <= i < encode_utf8(s).len() ==> #[trigger] encode_utf8(s)[i] < 0x80,
    decreases s.len(),
{
    if is_ascii_chars(s) {
        is_ascii_chars_encode_utf8(s);
        assert forall|i: int| 0 <= i < encode_utf8(s).len() implies #[trigger] encode_utf8(s)[i] < 0x80 by {
            assert(s[i] as u8 == encode_utf8(s)[i]);
        }
    } else if forall|i: int| 0 <= i < encode_utf8(s).len() ==> #[trigger] encode_utf8(s)[i] < 0x80 {
        let rest = s.drop_first();
        let head = encode_scalar(s[0] as u32);
        encode_utf8_first_scalar(s);
        assert(encode_utf8(s)[0] < 0x80);
        assert(head.len() == 1);
        assert forall|i: int| 0 <= i < encode_utf8(rest).len() implies #[trigger] encode_utf8(rest)[i]
            < 0x80 by {
            assert(encode_utf8(s)[head.len() + i] == encode_utf8(rest)[i]);
        }
        lemma_low_bytes(rest);
        assert forall|i: int| 0 <= i < s.len() implies '\0' <= #[trigger] s[i] <= '\u{7f}' by {
            if i > 0 {
                assert(rest[i - 1] == s[i]);
            } else {
                lemma_one_byte(s[0]);
            }
        }
    }
}

/// The columns of a text, but the number of its characters where all of them are ASCII.
pub fn str_display_width(s: &str) -> (r: usize)
    ensures
        r == display_columns(s@),
{
    let bytes = s.as_bytes();
    proof {
        lemma_low_bytes(s@);
    }
    if all_low(bytes) {
        proof {
            is_ascii_chars_encode_utf8(s@);
        }
        bytes.len()
    } else {
        str_width(s)
    }
}

/// How the width of a word is taken.
#[derive(Clone, Copy)]
pub enum Measure {
    /// Column by column.
    Columns,
    /// By length for ASCII words, column by column for others.
    Display,
}

impl Measure {
    pub open spec fn of(self, s: Seq<char>) -> nat {
        match self {
            Measure::Columns => text_columns(s),
            Measure::Display => display_columns(s),
        }
    }

    /// The width of `s`.
    pub fn take(self, s: &str) -> (r: usize)
        ensures
            r == self.of(s@),
    {
        match self {
            Measure::Columns => str_width(s),
            Measure::Display => str_display_width(s),
        }
    }
}

/// An ASCII text takes at most one column for each character.
proof fn lemma_ascii_columns(s: Seq<char>)
    requires
        is_ascii_chars(s),
    ensures
        text_columns(s) <= s.len(),
    decreases s.len(),
{
    if s.len() > 0 {
        let t = s.drop_last();
        assert forall|i: int| 0 <= i < t.len() implies '\0' <= #[trigger] t[i] <= '\u{7f}' by {
            assert(t[i] == s[i]);
        }
        lemma_ascii_columns(t);
        assert('\0' <= s[s.len() - 1] <= '\u{7f}');
    }
}

/// Two texts with a space between them take no more than one column more than both.
pub proof fn lemma_measure_joined(m: Measure, a: Seq<char>, b: Seq<char>)
    ensures
        m.of(a.push(' ') + b) <= m.of(a) + 1 + m.of(b),
{
    let s = a.push(' ') + b;
    lemma_columns_concat(a.push(' '), b);
    assert(a.push(' ').drop_last() =~= a);
    if is_ascii_chars(s) {
        assert forall|i: int| 0 <= i < a.len() implies '\0' <= #[trigger] a[i] <= '\u{7f}' by {
            assert(s[i] == a[i]);
        }
        assert forall|i: int| 0 <= i < b.len() implies '\0' <= #[trigger] b[i] <= '\u{7f}' by {
            assert(s[a.len() + 1 + i] == b[i]);
        }
    } else {
        if is_ascii_chars(a) {
            lemma_ascii_columns(a);
        }
        if is_ascii_chars(b) {
            lemma_ascii_columns(b);
        }
    }
}

/// Printable ASCII characters take one column each by either measure.
pub proof fn law_ascii_takes_one_column_each(s: Seq<char>, m: Measure)
    requires
        forall|i: int| 0 <= i < s.len() ==> ' ' <= #[trigger] s[i] <= '~',
    ensures
        m.of(s) == s.len(),
{
    lemma_printable(s);
}

proof fn lemma_printable(s: Seq<char>)
    requires
        forall|i: int| 0 <= i < s.len() ==> ' ' <= #[trigger] s[i] <= '~',
    ensures
        text_columns(s) == s.len(),
        is_ascii_chars(s),
    decreases s.len(),
{
    if s.len() > 0 {
        let t = s.drop_last();
        assert forall|i: int| 0 <= i < t.len() implies ' ' <= #[trigger] t[i] <= '~' by {
            assert(t[i] == s[i]);
        }
        lemma_printable(t);
        assert(' ' <= s[s.len() - 1] <= '~');
    }
}

/// Two texts put together take the columns of both. Only where all characters are ASCII does the other
/// measure count control characters too.
pub proof fn law_columns_add_up(a: Seq<char>, b: Seq<char>, c: char)
    ensures
        Measure::Columns.of(a + b) == Measure::Columns.of(a) + Measure::Columns.of(b),
        c < ' ' ==> Measure::Columns.of(a.push(c)) == Measure::Columns.of(a),
        is_ascii_chars(a) ==> Measure::Display.of(a) == a.len(),
        !is_ascii_chars(a) ==> Measure::Display.of(a) == Measure::Columns.of(a),
{
    lemma_columns_concat(a, b);
    assert(a.push(c).drop_last() =~= a);
}

} // verus!
