//! Text as sequences of characters: trimming, splitting, joining and number formatting.

use vstd::prelude::*;
use vstd::slice::slice_subrange;
use vstd::string::*;
use vstd::utf8::*;

verus! {

/// `String::push` appends one character at the end.
pub assume_specification[ String::push ](s: &mut String, c: char)
    ensures
        final(s)@ == old(s)@.push(c),
;

/// A set of characters to trim or to split at.
#[derive(Clone, Copy)]
pub enum CharClass {
    /// The Unicode `White_Space` characters.
    White,
    /// Space, tab, line feed, form feed and carriage return.
    AsciiWhite,
    /// One given character.
    Only(char),
}

/// The 25 code points with the Unicode property `White_Space`.
pub open spec fn is_white(c: char) -> bool {
    let u = c as u32;
    ||| 0x09 <= u <= 0x0D
    ||| u == 0x20
    ||| u == 0x85
    ||| u == 0xA0
    ||| u == 0x1680
    ||| 0x2000 <= u <= 0x200A
    ||| u == 0x2028
    ||| u == 0x2029
    ||| u == 0x202F
    ||| u == 0x205F
    ||| u == 0x3000
}

/// The ASCII whitespace characters.
pub open spec fn is_ascii_white(c: char) -> bool {
    let u = c as u32;
    u == 0x20 || u == 0x09 || u == 0x0A || u == 0x0C || u == 0x0D
}

impl CharClass {
    /// Whether `c` belongs to the class.
    pub open spec fn has(self, c: char) -> bool {
        match self {
            CharClass::White => is_white(c),
            CharClass::AsciiWhite => is_ascii_white(c),
            CharClass::Only(k) => c == k,
        }
    }

    /// Tests whether `c` belongs to the class.
    pub fn test(self, c: char) -> (b: bool)
        ensures
            b == self.has(c),
    {
        let u: u32 = c as u32;
        match self {
            CharClass::White => (0x09 <= u && u <= 0x0D) || u == 0x20 || u == 0x85 || u == 0xA0
                || u == 0x1680 || (0x2000 <= u && u <= 0x200A) || u == 0x2028 || u == 0x2029
                || u == 0x202F || u == 0x205F || u == 0x3000,
            CharClass::AsciiWhite => u == 0x20 || u == 0x09 || u == 0x0A || u == 0x0C || u == 0x0D,
            CharClass::Only(k) => c == k,
        }
    }
}

// ── characters and strings ──────────────────────────────────────────────────

/// The characters of `s`.
pub fn chars_of(s: &str) -> (v: Vec<char>)
    ensures
        v@ == s@,
{
    let mut v: Vec<char> = Vec::new();
    for c in it: s.chars()
        invariant
            it.seq() == s@,
            v@ == s@.take(it.index() as int),
    {
        v.push(c);
    }
    assert(s@.take(s@.len() as int) == s@);
    v
}

/// The string made of `v`.
pub fn string_of(v: &[char]) -> (s: String)
    ensures
        s@ == v@,
{
    let mut s = String::new();
    for i in 0..v.len()
        invariant
            s@ == v@.take(i as int),
    {
        s.push(v[i]);
    }
    assert(v@.take(v@.len() as int) == v@);
    s
}

/// Two strings are equal when their characters are.
pub fn same_text(a: &str, b: &str) -> (r: bool)
    ensures
        r == (a@ == b@),
{
    let x = a.as_bytes();
    let y = b.as_bytes();
    proof {
        broadcast use encode_utf8_decode_utf8;
        assert(decode_utf8(encode_utf8(a@)) == a@);
        assert(decode_utf8(encode_utf8(b@)) == b@);
    }
    if x.len() != y.len() {
        return false;
    }
    for i in 0..x.len()
        invariant
            x@.len() == y@.len(),
            x@ == a.spec_bytes(),
            y@ == b.spec_bytes(),
            forall|j: int| 0 <= j < i ==> x@[j] == y@[j],
    {
        if x[i] != y[i] {
            return false;
        }
    }
    assert(x@ =~= y@);
    true
}

/// The views of a vector of strings.
pub open spec fn texts(v: Seq<String>) -> Seq<Seq<char>> {
    v.map_values(|s: String| s@)
}

/// A copy of `v`.
pub fn copy_lines(v: &Vec<String>) -> (r: Vec<String>)
    ensures
        texts(r@) == texts(v@),
{
    let mut out: Vec<String> = Vec::new();
    for i in 0..v.len()
        invariant
            out@.len() == i,
            forall|j: int| 0 <= j < i ==> (#[trigger] out@[j])@ == v@[j]@,
    {
        out.push(v[i].clone());
    }
    assert(texts(out@) =~= texts(v@));
    out
}

/// The views of some strings.
pub open spec fn views(v: Seq<&str>) -> Seq<Seq<char>> {
    v.map_values(|s: &str| s@)
}

/// Copies of some strings.
pub fn strings(v: &[&str]) -> (r: Vec<String>)
    ensures
        texts(r@) == views(v@),
{
    let mut out: Vec<String> = Vec::new();
    for i in 0..v.len()
        invariant
            out@.len() == i,
            forall|j: int| 0 <= j < i ==> (#[trigger] out@[j])@ == v@[j]@,
    {
        out.push(v[i].to_string());
    }
    assert(texts(out@) =~= views(v@));
    out
}

// ── trimming ────────────────────────────────────────────────────────────────

/// `s` without its leading characters of class `k`.
pub open spec fn trim_front(s: Seq<char>, k: CharClass) -> Seq<char>
    decreases s.len(),
{
    if s.len() > 0 && k.has(s[0]) {
        trim_front(s.drop_first(), k)
    } else {
        s
    }
}

/// `s` without its trailing characters of class `k`.
pub open spec fn trim_back(s: Seq<char>, k: CharClass) -> Seq<char>
    decreases s.len(),
{
    if s.len() > 0 && k.has(s.last()) {
        trim_back(s.drop_last(), k)
    } else {
        s
    }
}

/// `s` without its leading and trailing characters of class `k`.
pub open spec fn trim_both(s: Seq<char>, k: CharClass) -> Seq<char> {
    trim_back(trim_front(s, k), k)
}

/// `s` without the white space around it.
pub open spec fn trimmed(s: Seq<char>) -> Seq<char> {
    trim_both(s, CharClass::White)
}

/// Drops the leading characters of class `k`.
pub fn strip_front(s: &[char], k: CharClass) -> (r: &[char])
    ensures
        r@ == trim_front(s@, k),
{
    let mut i: usize = 0;
    assert(s@.skip(0) == s@);
    while i < s.len() && k.test(s[i])
        invariant
            i <= s.len(),
            trim_front(s@.skip(i as int), k) == trim_front(s@, k),
        decreases s.len() - i,
    {
        assert(s@.skip(i as int).drop_first() == s@.skip(i + 1));
        i = i + 1;
    }
    assert(s@.skip(i as int) == s@.subrange(i as int, s@.len() as int));
    slice_subrange(s, i, s.len())
}

/// Drops the trailing characters of class `k`.
pub fn strip_back(s: &[char], k: CharClass) -> (r: &[char])
    ensures
        r@ == trim_back(s@, k),
{
    let mut n: usize = s.len();
    assert(s@.take(n as int) == s@);
    while n > 0 && k.test(s[n - 1])
        invariant
            n <= s.len(),
            trim_back(s@.take(n as int), k) == trim_back(s@, k),
        decreases n,
    {
        assert(s@.take(n as int).drop_last() == s@.take(n - 1));
        n = n - 1;
    }
    assert(s@.take(n as int) == s@.subrange(0, n as int));
    slice_subrange(s, 0, n)
}

/// Drops the characters of class `k` at both ends.
pub fn strip_both(s: &[char], k: CharClass) -> (r: &[char])
    ensures
        r@ == trim_both(s@, k),
{
    strip_back(strip_front(s, k), k)
}

/// `s` without the white space around it.
pub fn trim(s: &str) -> (r: String)
    ensures
        r@ == trimmed(s@),
{
    let v = chars_of(s);
    string_of(strip_both(v.as_slice(), CharClass::White))
}

/// `s` without the white space around it, as a part of it.
pub fn trim_part<'a>(s: &'a str) -> (r: &'a str)
    ensures
        r@ == trimmed(s@),
{
    let v = chars_of(s);
    let k = CharClass::White;
    let mut i: usize = 0;
    assert(s@.skip(0) == s@);
    while i < v.len() && k.test(v[i])
        invariant
            v@ == s@,
            k == CharClass::White,
            i <= v.len(),
            trim_front(s@.skip(i as int), k) == trim_front(s@, k),
        decreases v.len() - i,
    {
        assert(s@.skip(i as int).drop_first() == s@.skip(i + 1));
        i = i + 1;
    }
    let ghost front = s@.skip(i as int);
    let mut n: usize = v.len();
    assert(s@.subrange(i as int, n as int) == front);
    while n > i && k.test(v[n - 1])
        invariant
            v@ == s@,
            k == CharClass::White,
            i <= n <= v.len(),
            trim_back(s@.subrange(i as int, n as int), k) == trim_back(front, k),
        decreases n,
    {
        assert(s@.subrange(i as int, n as int).drop_last() == s@.subrange(i as int, n - 1));
        n = n - 1;
    }
    s.substring_char(i, n)
}

/// The ends of a trimmed text are outside the class.
pub proof fn lemma_trim_both_ends(s: Seq<char>, k: CharClass)
    ensures
        ({
            let t = trim_both(s, k);
            t.len() > 0 ==> !k.has(t[0]) && !k.has(t.last())
        }),
{
    lemma_trim_front_end(s, k);
    lemma_trim_back_end(trim_front(s, k), k);
}

proof fn lemma_trim_front_end(s: Seq<char>, k: CharClass)
    ensures
        trim_front(s, k).len() > 0 ==> !k.has(trim_front(s, k)[0]),
    decreases s.len(),
{
    if s.len() > 0 && k.has(s[0]) {
        lemma_trim_front_end(s.drop_first(), k);
    }
}

proof fn lemma_trim_back_end(s: Seq<char>, k: CharClass)
    ensures
        trim_back(s, k).len() > 0 ==> !k.has(trim_back(s, k).last()) && trim_back(s, k)[0] == s[0],
        trim_back(s, k).len() <= s.len(),
    decreases s.len(),
{
    if s.len() > 0 && k.has(s.last()) {
        lemma_trim_back_end(s.drop_last(), k);
    }
}

// ── splitting ───────────────────────────────────────────────────────────────

/// The pieces of `s` between the characters of class `k`: always one more piece than
/// there are such characters.
pub open spec fn split(s: Seq<char>, k: CharClass) -> Seq<Seq<char>>
    decreases s.len(),
{
    if s.len() == 0 {
        seq![Seq::empty()]
    } else {
        let pieces = split(s.drop_last(), k);
        if k.has(s.last()) {
            pieces.push(Seq::empty())
        } else {
            pieces.drop_last().push(pieces.last().push(s.last()))
        }
    }
}

/// The pieces that are not empty.
pub open spec fn non_empty(v: Seq<Seq<char>>) -> Seq<Seq<char>>
    decreases v.len(),
{
    if v.len() == 0 {
        Seq::empty()
    } else if v.last().len() == 0 {
        non_empty(v.drop_last())
    } else {
        non_empty(v.drop_last()).push(v.last())
    }
}

/// The non-empty pieces between the characters of class `k`.
pub open spec fn words(s: Seq<char>, k: CharClass) -> Seq<Seq<char>> {
    non_empty(split(s, k))
}

/// A text has at least one piece.
pub proof fn lemma_split_some(s: Seq<char>, k: CharClass)
    ensures
        split(s, k).len() >= 1,
    decreases s.len(),
{
    if s.len() > 0 {
        lemma_split_some(s.drop_last(), k);
    }
}

/// The pieces of two texts with a separator between them.
pub proof fn lemma_split_around(a: Seq<char>, c: char, b: Seq<char>, k: CharClass)
    requires
        k.has(c),
    ensures
        split(a.push(c) + b, k) == split(a, k) + split(b, k),
    decreases b.len(),
{
    lemma_split_some(b, k);
    if b.len() == 0 {
        assert(a.push(c) + b =~= a.push(c));
        assert(a.push(c).drop_last() =~= a);
        assert(split(a, k).push(Seq::empty()) =~= split(a, k) + seq![Seq::<char>::empty()]);
    } else {
        let s = a.push(c) + b;
        lemma_split_around(a, c, b.drop_last(), k);
        lemma_split_some(b.drop_last(), k);
        assert(s.drop_last() =~= a.push(c) + b.drop_last());
        assert(s.last() == b.last());
        let left = split(a, k);
        let right = split(b.drop_last(), k);
        assert((left + right).last() == right.last());
        assert((left + right).drop_last() =~= left + right.drop_last());
        if k.has(b.last()) {
            assert((left + right).push(Seq::empty()) =~= left + right.push(Seq::empty()));
        } else {
            let p = right.last().push(b.last());
            assert((left + right.drop_last()).push(p) =~= left + right.drop_last().push(p));
        }
    }
}

/// A text without separators is its own only piece.
pub proof fn lemma_split_solid(w: Seq<char>, k: CharClass)
    requires
        forall|i: int| 0 <= i < w.len() ==> !k.has(#[trigger] w[i]),
    ensures
        split(w, k) == seq![w],
    decreases w.len(),
{
    if w.len() > 0 {
        let v = w.drop_last();
        assert forall|i: int| 0 <= i < v.len() implies !k.has(#[trigger] v[i]) by {
            assert(v[i] == w[i]);
        }
        lemma_split_solid(v, k);
        assert(!k.has(w[w.len() - 1]));
        assert(seq![v].last() == v);
        assert(v.push(w.last()) =~= w);
        assert(seq![v].drop_last().push(w) =~= seq![w]);
    } else {
        assert(w =~= Seq::empty());
    }
}

/// The pieces of `s` between the characters of class `k`.
pub fn split_at_class(s: &[char], k: CharClass) -> (r: Vec<Vec<char>>)
    ensures
        r@.len() == split(s@, k).len(),
        forall|i: int| 0 <= i < r@.len() ==> (#[trigger] r@[i])@ == split(s@, k)[i],
{
    let mut out: Vec<Vec<char>> = Vec::new();
    let mut cur: Vec<char> = Vec::new();
    for i in 0..s.len()
        invariant
            out@.len() + 1 == split(s@.take(i as int), k).len(),
            forall|j: int| 0 <= j < out@.len() ==> (#[trigger] out@[j])@ == split(s@.take(i as int), k)[j],
            cur@ == split(s@.take(i as int), k).last(),
    {
        assert(s@.take(i + 1).drop_last() == s@.take(i as int));
        assert(s@.take(i + 1).last() == s@[i as int]);
        let c = s[i];
        if k.test(c) {
            out.push(cur);
            cur = Vec::new();
        } else {
            cur.push(c);
        }
    }
    assert(s@.take(s@.len() as int) == s@);
    out.push(cur);
    out
}

/// The non-empty pieces of `s` between the characters of class `k`.
pub fn words_of(s: &[char], k: CharClass) -> (r: Vec<String>)
    ensures
        texts(r@) == words(s@, k),
{
    let pieces = split_at_class(s, k);
    let ghost all = split(s@, k);
    let mut out: Vec<String> = Vec::new();
    for i in 0..pieces.len()
        invariant
            all == split(s@, k),
            pieces@.len() == all.len(),
            forall|j: int| 0 <= j < pieces@.len() ==> (#[trigger] pieces@[j])@ == all[j],
            texts(out@) == non_empty(all.take(i as int)),
    {
        assert(all.take(i + 1).drop_last() == all.take(i as int));
        assert(pieces@[i as int]@ == all[i as int]);
        if pieces[i].len() > 0 {
            let ghost before = out@;
            out.push(string_of(pieces[i].as_slice()));
            assert(texts(out@) == texts(before).push(all[i as int]));
        }
    }
    assert(all.take(all.len() as int) == all);
    out
}

/// `s` without one trailing carriage return.
pub open spec fn without_cr(s: Seq<char>) -> Seq<char> {
    if s.len() > 0 && s.last() == '\r' {
        s.drop_last()
    } else {
        s
    }
}

/// The lines of `s`. A line ends at a line feed, or at a carriage return followed by a
/// line feed; the end of the last line is optional.
pub open spec fn lines(s: Seq<char>) -> Seq<Seq<char>> {
    let pieces = split(s, CharClass::Only('\n'));
    let ended = pieces.drop_last().map_values(|l: Seq<char>| without_cr(l));
    if pieces.last().len() == 0 {
        ended
    } else {
        ended.push(pieces.last())
    }
}

/// The lines of `s`.
pub fn lines_of(s: &str) -> (r: Vec<String>)
    ensures
        texts(r@) == lines(s@),
{
    let v = chars_of(s);
    let pieces = split_at_class(v.as_slice(), CharClass::Only('\n'));
    let ghost all = split(s@, CharClass::Only('\n'));
    proof {
        lemma_split_some(s@, CharClass::Only('\n'));
    }
    let last: usize = pieces.len() - 1;
    let ghost ended = all.drop_last().map_values(|l: Seq<char>| without_cr(l));
    let mut out: Vec<String> = Vec::new();
    for i in 0..last
        invariant
            pieces@.len() == all.len(),
            last == all.len() - 1,
            ended == all.drop_last().map_values(|l: Seq<char>| without_cr(l)),
            forall|j: int| 0 <= j < pieces@.len() ==> (#[trigger] pieces@[j])@ == all[j],
            texts(out@) == ended.take(i as int),
    {
        let p = pieces[i].as_slice();
        let n: usize = p.len();
        let ghost before = out@;
        assert(pieces@[i as int]@ == all[i as int]);
        if n > 0 && p[n - 1] == '\r' {
            out.push(string_of(slice_subrange(p, 0, n - 1)));
            assert(p@.subrange(0, n - 1) == all[i as int].drop_last());
        } else {
            out.push(string_of(p));
        }
        assert(texts(out@) == texts(before).push(ended[i as int]));
        assert(ended.take(i + 1) == ended.take(i as int).push(ended[i as int]));
    }
    assert(ended.take(ended.len() as int) == ended);
    assert(pieces@[last as int]@ == all.last());
    if pieces[last].len() > 0 {
        let ghost before = out@;
        out.push(string_of(pieces[last].as_slice()));
        assert(texts(out@) == texts(before).push(all.last()));
    }
    out
}

/// `parts` with `sep` between each and the next.
pub open spec fn join(parts: Seq<Seq<char>>, sep: Seq<char>) -> Seq<char>
    decreases parts.len(),
{
    if parts.len() == 0 {
        Seq::empty()
    } else if parts.len() == 1 {
        parts[0]
    } else {
        join(parts.drop_last(), sep) + sep + parts.last()
    }
}

/// Splitting undoes joining where no part has the separator in it.
pub proof fn lemma_split_joined(parts: Seq<Seq<char>>, c: char)
    requires
        parts.len() > 0,
        forall|i: int| 0 <= i < parts.len() ==> !(#[trigger] parts[i]).contains(c),
    ensures
        split(join(parts, seq![c]), CharClass::Only(c)) == parts,
    decreases parts.len(),
{
    let k = CharClass::Only(c);
    let head = parts.drop_last();
    let last = parts.last();
    assert(!parts[parts.len() - 1].contains(c));
    assert forall|i: int| 0 <= i < last.len() implies !k.has(#[trigger] last[i]) by {
        assert(last.contains(last[i]));
    }
    lemma_split_solid(last, k);
    if parts.len() == 1 {
        assert(seq![last] =~= parts);
    } else {
        assert forall|i: int| 0 <= i < head.len() implies !(#[trigger] head[i]).contains(c) by {
            assert(head[i] == parts[i]);
        }
        lemma_split_joined(head, c);
        let joined = join(head, seq![c]);
        assert(joined + seq![c] + last =~= joined.push(c) + last);
        lemma_split_around(joined, c, last, k);
        assert(head + seq![last] =~= parts);
    }
}

/// Joins `parts` with `sep` between them.
pub fn join_with(parts: &Vec<String>, sep: &str) -> (r: String)
    ensures
        r@ == join(texts(parts@), sep@),
{
    let mut out = String::new();
    let ghost all = texts(parts@);
    for i in 0..parts.len()
        invariant
            all == texts(parts@),
            out@ == join(all.take(i as int), sep@),
    {
        assert(all.take(i + 1).drop_last() == all.take(i as int));
        assert(all.take(i + 1).last() == parts@[i as int]@);
        if i > 0 {
            out.append(sep);
            out.append(parts[i].as_str());
        } else {
            out.append(parts[i].as_str());
            assert(out@ == all.take(1)[0]);
        }
    }
    assert(all.take(all.len() as int) == all);
    out
}

// ── numbers ─────────────────────────────────────────────────────────────────

/// The character of a digit below sixteen, in upper case.
pub open spec fn digit_char(d: nat) -> char {
    if d < 10 {
        (48 + d) as char
    } else {
        (55 + d) as char
    }
}

/// `n` written in base `base`.
pub open spec fn digits(n: nat, base: nat) -> Seq<char>
    decreases n,
{
    if base < 2 || n < base {
        seq![digit_char(n)]
    } else {
        proof {
            assert(n / base < n) by (nonlinear_arith)
                requires
                    2 <= base <= n,
            ;
        }
        digits(n / base, base).push(digit_char(n % base))
    }
}

/// `n` in decimal.
pub open spec fn decimal(n: int) -> Seq<char> {
    if n < 0 {
        seq!['-'] + digits((-n) as nat, 10)
    } else {
        digits(n as nat, 10)
    }
}

/// `s` with `fill` put before it until it has at least `width` characters.
pub open spec fn filled(s: Seq<char>, width: nat, fill: char) -> Seq<char> {
    if s.len() >= width {
        s
    } else {
        Seq::new((width - s.len()) as nat, |i: int| fill) + s
    }
}

/// `n` in upper-case hexadecimal with at least `width` digits.
pub open spec fn hex(n: nat, width: nat) -> Seq<char> {
    filled(digits(n, 16), width, '0')
}

fn digit(d: u64) -> (c: char)
    requires
        d < 16,
    ensures
        c == digit_char(d as nat),
{
    if d < 10 {
        (48 + d as u8) as char
    } else {
        (55 + d as u8) as char
    }
}

fn push_digits(n: u64, base: u64) -> (s: String)
    requires
        2 <= base <= 16,
    ensures
        s@ == digits(n as nat, base as nat),
    decreases n,
{
    if n < base {
        let mut s = String::new();
        s.push(digit(n));
        s
    } else {
        assert(n / base < n) by (nonlinear_arith)
            requires
                2 <= base <= n,
        ;
        let mut s = push_digits(n / base, base);
        s.push(digit(n % base));
        s
    }
}

/// Writes `n` in decimal.
pub fn decimal_of(n: u64) -> (s: String)
    ensures
        s@ == decimal(n as int),
{
    push_digits(n, 10)
}

/// Writes a number that may be negative in decimal.
pub fn signed_decimal(n: i64) -> (s: String)
    ensures
        s@ == decimal(n as int),
{
    if n < 0 {
        let m: u64 = if n == i64::MIN {
            0x8000_0000_0000_0000
        } else {
            (-n) as u64
        };
        let mut s = String::new();
        s.push('-');
        s.append(push_digits(m, 10).as_str());
        s
    } else {
        push_digits(n as u64, 10)
    }
}

/// Puts `fill` before `s` until it has at least `width` characters.
pub fn fill_left(s: &str, width: usize, fill: char) -> (r: String)
    ensures
        r@ == filled(s@, width as nat, fill),
{
    let v = chars_of(s);
    let mut r = String::new();
    if v.len() < width {
        let k: usize = width - v.len();
        for i in 0..k
            invariant
                r@ == Seq::new(i as nat, |j: int| fill),
        {
            r.push(fill);
        }
    }
    r.append(s);
    r
}

/// Writes `n` in upper-case hexadecimal with at least `width` digits.
pub fn hex_of(n: u64, width: usize) -> (s: String)
    ensures
        s@ == hex(n as nat, width as nat),
{
    fill_left(push_digits(n, 16).as_str(), width, '0')
}

/// The value of a run of decimal digits; none if `s` holds anything else.
pub open spec fn digits_value(s: Seq<char>) -> Option<nat>
    decreases s.len(),
{
    if s.len() == 0 {
        Some(0)
    } else {
        match digits_value(s.drop_last()) {
            Some(n) if '0' <= s.last() <= '9' => Some(n * 10 + (s.last() as u32 - 48) as nat),
            _ => None,
        }
    }
}

/// What a text says as an index: an optional plus sign and at least one digit, no more
/// than an index can hold.
pub open spec fn index_value(s: Seq<char>) -> Option<usize> {
    let t = if s.len() > 0 && s[0] == '+' {
        s.skip(1)
    } else {
        s
    };
    match digits_value(t) {
        Some(n) if t.len() > 0 && n <= usize::MAX => Some(n as usize),
        _ => None,
    }
}

/// Reading stays impossible after a character that is no digit, and a value never shrinks.
proof fn lemma_digits_prefix(s: Seq<char>, i: int)
    requires
        0 <= i <= s.len(),
    ensures
        digits_value(s) is Some ==> digits_value(s.take(i)) is Some && digits_value(s.take(i))->0
            <= digits_value(s)->0,
    decreases s.len() - i,
{
    if i < s.len() {
        lemma_digits_prefix(s, i + 1);
        assert(s.take(i + 1).drop_last() == s.take(i));
    } else {
        assert(s.take(i) == s);
    }
}

/// Reads a text as an index.
pub fn parse_index(s: &str) -> (r: Option<usize>)
    ensures
        r == index_value(s@),
{
    let v = chars_of(s);
    let start: usize = if v.len() > 0 && v[0] == '+' {
        1
    } else {
        0
    };
    let ghost t = if s@.len() > 0 && s@[0] == '+' {
        s@.skip(1)
    } else {
        s@
    };
    assert(t == s@.skip(start as int));
    if start == v.len() {
        return None;
    }
    let mut n: usize = 0;
    for i in start..v.len()
        invariant
            v@ == s@,
            start <= 1,
            start < v.len(),
            t == s@.skip(start as int),
            digits_value(t.take(i - start)) == Some(n as nat),
            t.len() > 0,
            index_value(s@) == (match digits_value(t) {
                Some(m) if m <= usize::MAX => Some(m as usize),
                _ => None,
            }),
    {
        proof {
            lemma_digits_prefix(t, i - start + 1);
            assert(t.take(i - start + 1).drop_last() == t.take(i - start));
            assert(t.take(i - start + 1).last() == s@[i as int]);
        }
        let c = v[i];
        if c < '0' || c > '9' {
            return None;
        }
        let d: usize = (c as u32 - 48) as usize;
        if n > (usize::MAX - d) / 10 {
            return None;
        }
        n = n * 10 + d;
    }
    assert(t.take(t.len() as int) == t);
    Some(n)
}

proof fn lemma_first_digit(n: nat)
    ensures
        digits(n, 10).len() > 0,
        '0' <= digits(n, 10)[0] <= '9',
    decreases n,
{
    if n >= 10 {
        lemma_first_digit(n / 10);
    }
}

proof fn lemma_digits_value(n: nat)
    ensures
        digits_value(digits(n, 10)) == Some(n),
    decreases n,
{
    if n < 10 {
        let s = seq![digit_char(n)];
        assert(s.drop_last() =~= Seq::empty());
        assert(digits_value(s.drop_last()) == Some(0nat));
    } else {
        lemma_digits_value(n / 10);
        let head = digits(n / 10, 10);
        let c = digit_char(n % 10);
        assert(head.push(c).drop_last() =~= head);
        assert(n == n / 10 * 10 + n % 10);
    }
}

/// A number written in decimal reads as that number.
pub proof fn law_decimal_reads_back(n: nat)
    requires
        n <= usize::MAX,
    ensures
        index_value(decimal(n as int)) == Some(n as usize),
{
    lemma_digits_value(n);
    lemma_first_digit(n);
}

/// A number below zero is written as a minus sign and the number without its sign.
pub proof fn law_negative_numbers_have_a_sign(n: int)
    requires
        n > 0,
    ensures
        decimal(-n) == seq!['-'] + decimal(n),
{
}

/// The number that some digits stand for, each counting `base` times what the next one does.
pub open spec fn value_in_base(s: Seq<char>, base: nat) -> int
    decreases s.len(),
{
    if s.len() == 0 {
        0
    } else {
        let c = s.last();
        value_in_base(s.drop_last(), base) * base + (if c <= '9' {
            c as u32 - '0' as u32
        } else {
            10 + (c as u32 - 'A' as u32)
        })
    }
}

/// The digits of a number stand for that number, and only zero starts with the digit zero.
pub proof fn law_digits_stand_for_the_number(n: nat, base: nat)
    requires
        2 <= base <= 16,
    ensures
        value_in_base(digits(n, base), base) == n,
        digits(n, base).len() > 0,
        digits(n, base)[0] == '0' <==> n == 0,
    decreases n,
{
    if n < base {
        let s = seq![digit_char(n)];
        assert(s.drop_last() =~= Seq::empty());
        assert(value_in_base(s.drop_last(), base) == 0);
        assert(0 * base == 0);
    } else {
        assert(n / base < n && n / base >= 1) by (nonlinear_arith)
            requires
                2 <= base <= n,
        ;
        law_digits_stand_for_the_number(n / base, base);
        let head = digits(n / base, base);
        let c = digit_char(n % base);
        assert(head.push(c).drop_last() =~= head);
        assert(n == n / base * base + n % base) by (nonlinear_arith)
            requires
                base > 0,
        ;
        assert(n % base < base);
    }
}

/// Filling puts nothing but the fill character before a text, up to the width and no further.
pub proof fn law_filled_text_ends_with_the_text(s: Seq<char>, width: nat, fill: char)
    ensures
        ({
            let t = filled(s, width, fill);
            &&& t.len() == (if s.len() < width {
                width
            } else {
                s.len()
            })
            &&& t.skip(t.len() - s.len()) == s
            &&& forall|i: int| 0 <= i < t.len() - s.len() ==> #[trigger] t[i] == fill
        }),
{
    let t = filled(s, width, fill);
    assert(t.skip(t.len() - s.len()) =~= s);
}

/// A number in hexadecimal digits, at least `width` of them, stands for that number.
pub proof fn law_hex_stands_for_the_number(n: nat, width: nat)
    ensures
        value_in_base(hex(n, width), 16) == n,
        hex(n, width).len() >= width,
{
    law_digits_stand_for_the_number(n, 16);
    let d = digits(n, 16);
    if d.len() < width {
        lemma_leading_zeros((width - d.len()) as nat, d);
    }
}

proof fn lemma_leading_zeros(k: nat, d: Seq<char>)
    ensures
        value_in_base(Seq::new(k, |i: int| '0') + d, 16) == value_in_base(d, 16),
    decreases d.len(), k,
{
    let zeros = Seq::new(k, |i: int| '0');
    let t = zeros + d;
    if d.len() > 0 {
        lemma_leading_zeros(k, d.drop_last());
        assert(t.drop_last() =~= zeros + d.drop_last());
        assert(t.last() == d.last());
    } else if k > 0 {
        let fewer = Seq::new((k - 1) as nat, |i: int| '0');
        lemma_leading_zeros((k - 1) as nat, d);
        assert(fewer + d =~= fewer);
        assert(t.drop_last() =~= fewer);
        assert(t.last() == '0');
    } else {
        assert(t =~= d);
    }
}

/// Which ASCII characters are white space.
pub proof fn law_ascii_white_space(c: char)
    requires
        c < '\u{80}',
    ensures
        is_white(c) <==> c == ' ' || '\t' <= c <= '\r',
        is_ascii_white(c) <==> is_white(c) && c != '\u{b}',
{
}

// ── characters that are not white space ─────────────────────────────────────

/// The characters of a text that are not white space, in their order.
pub open spec fn solid(s: Seq<char>) -> Seq<char>
    decreases s.len(),
{
    if s.len() == 0 {
        Seq::empty()
    } else if is_white(s.last()) {
        solid(s.drop_last())
    } else {
        solid(s.drop_last()).push(s.last())
    }
}

/// The solid characters of two texts.
pub proof fn lemma_solid_concat(a: Seq<char>, b: Seq<char>)
    ensures
        solid(a + b) == solid(a) + solid(b),
    decreases b.len(),
{
    if b.len() == 0 {
        assert(a + b =~= a);
        assert(solid(a) + solid(b) =~= solid(a));
    } else {
        lemma_solid_concat(a, b.drop_last());
        assert((a + b).drop_last() =~= a + b.drop_last());
        assert((a + b).last() == b.last());
        assert(solid(a) + solid(b.drop_last()).push(b.last()) =~= (solid(a) + solid(b.drop_last())).push(
            b.last(),
        ));
    }
}

/// White space has no solid characters.
pub proof fn lemma_solid_white(s: Seq<char>)
    requires
        forall|i: int| 0 <= i < s.len() ==> is_white(#[trigger] s[i]),
    ensures
        solid(s) == Seq::<char>::empty(),
    decreases s.len(),
{
    if s.len() > 0 {
        let t = s.drop_last();
        assert forall|i: int| 0 <= i < t.len() implies is_white(#[trigger] t[i]) by {
            assert(t[i] == s[i]);
        }
        lemma_solid_white(t);
        assert(is_white(s[s.len() - 1]));
    }
}

proof fn lemma_trim_front_from(s: Seq<char>, k: CharClass) -> (n: int)
    ensures
        0 <= n <= s.len(),
        trim_front(s, k) == s.skip(n),
        forall|i: int| 0 <= i < n ==> k.has(#[trigger] s[i]),
    decreases s.len(),
{
    if s.len() > 0 && k.has(s[0]) {
        let n = lemma_trim_front_from(s.drop_first(), k);
        assert(s.drop_first().skip(n) =~= s.skip(n + 1));
        assert forall|i: int| 0 <= i < n + 1 implies k.has(#[trigger] s[i]) by {
            if i > 0 {
                assert(s.drop_first()[i - 1] == s[i]);
            }
        }
        n + 1
    } else {
        assert(s.skip(0) =~= s);
        0
    }
}

proof fn lemma_trim_back_to(s: Seq<char>, k: CharClass) -> (n: int)
    ensures
        0 <= n <= s.len(),
        trim_back(s, k) == s.take(n),
        forall|i: int| n <= i < s.len() ==> k.has(#[trigger] s[i]),
    decreases s.len(),
{
    if s.len() > 0 && k.has(s.last()) {
        let n = lemma_trim_back_to(s.drop_last(), k);
        assert(s.drop_last().take(n) =~= s.take(n));
        assert forall|i: int| n <= i < s.len() implies k.has(#[trigger] s[i]) by {
            if i < s.len() - 1 {
                assert(s.drop_last()[i] == s[i]);
            }
        }
        n
    } else {
        assert(s.take(s.len() as int) =~= s);
        s.len() as int
    }
}

/// Trimming keeps a part of the text as it is. Everything before and behind that part belongs to
/// the class; its first and last character do not.
pub proof fn law_trimming_takes_the_ends_only(s: Seq<char>, k: CharClass) -> (at: int)
    ensures
        ({
            let t = trim_both(s, k);
            &&& 0 <= at
            &&& at + t.len() <= s.len()
            &&& t == s.subrange(at, at + t.len())
            &&& forall|i: int| 0 <= i < at ==> k.has(#[trigger] s[i])
            &&& forall|i: int| at + t.len() <= i < s.len() ==> k.has(#[trigger] s[i])
            &&& t.len() > 0 ==> !k.has(t[0]) && !k.has(t.last())
        }),
{
    let at = lemma_trim_front_from(s, k);
    let front = s.skip(at);
    let n = lemma_trim_back_to(front, k);
    lemma_trim_both_ends(s, k);
    assert(front.take(n) =~= s.subrange(at, at + n));
    assert forall|i: int| at + n <= i < s.len() implies k.has(#[trigger] s[i]) by {
        assert(front[i - at] == s[i]);
    }
    at
}

/// A text that starts and ends outside the class is left as it is.
pub proof fn lemma_trim_nothing(s: Seq<char>, k: CharClass)
    requires
        s.len() > 0 ==> !k.has(s[0]) && !k.has(s.last()),
    ensures
        trim_both(s, k) == s,
        trim_front(s, k) == s,
        trim_back(s, k) == s,
{
}

/// Trimming takes no solid characters away.
pub proof fn lemma_trimmed_solid(s: Seq<char>)
    ensures
        solid(trimmed(s)) == solid(s),
{
    let k = CharClass::White;
    let at = law_trimming_takes_the_ends_only(s, k);
    let t = trimmed(s);
    let a = s.take(at);
    let b = s.skip(at + t.len());
    assert(a + t + b =~= s);
    lemma_solid_concat(a + t, b);
    lemma_solid_concat(a, t);
    assert forall|i: int| 0 <= i < a.len() implies is_white(#[trigger] a[i]) by {
        assert(k.has(s[i]));
    }
    assert forall|i: int| 0 <= i < b.len() implies is_white(#[trigger] b[i]) by {
        assert(k.has(s[at + t.len() + i]));
    }
    lemma_solid_white(a);
    lemma_solid_white(b);
    assert(Seq::<char>::empty() + solid(t) + Seq::<char>::empty() =~= solid(t));
}

/// The pieces between separators, joined by the separator, are the text again.
pub proof fn law_split_text_joins_back(s: Seq<char>, c: char)
    ensures
        join(split(s, CharClass::Only(c)), seq![c]) == s,
        forall|i: int|
            0 <= i < split(s, CharClass::Only(c)).len() ==> !(#[trigger] split(s, CharClass::Only(c))[i]).contains(
                c,
            ),
    decreases s.len(),
{
    let k = CharClass::Only(c);
    let all = split(s, k);
    if s.len() > 0 {
        let t = s.drop_last();
        let before = split(t, k);
        lemma_split_some(t, k);
        law_split_text_joins_back(t, c);
        if s.last() == c {
            assert(all.drop_last() =~= before);
            assert(t + seq![c] + Seq::<char>::empty() =~= s);
        } else {
            assert(all.drop_last() =~= before.drop_last());
            assert(all.last() == before.last().push(s.last()));
            if before.len() == 1 {
                assert(before[0].push(s.last()) =~= s);
            } else {
                let head = join(before.drop_last(), seq![c]) + seq![c];
                assert(head + before.last().push(s.last()) =~= (head + before.last()).push(s.last()));
                assert(t.push(s.last()) =~= s);
            }
        }
        assert forall|i: int| 0 <= i < all.len() implies !(#[trigger] all[i]).contains(c) by {
            if i < before.len() - 1 {
                assert(all[i] == before[i]);
            } else if i == before.len() - 1 {
                if all[i].contains(c) {
                    let j = choose|j: int| 0 <= j < all[i].len() && all[i][j] == c;
                    if j < before[i].len() {
                        assert(before[i][j] == c);
                    }
                }
            }
        }
    } else {
        assert(all[0].len() == 0);
        assert(s =~= Seq::empty());
    }
}

/// Trimming the end of a text that has something left leaves what stands before it.
pub proof fn lemma_trim_back_behind(pre: Seq<char>, s: Seq<char>, k: CharClass)
    requires
        trim_back(s, k).len() > 0,
    ensures
        trim_back(pre + s, k) == pre + trim_back(s, k),
    decreases s.len(),
{
    assert((pre + s).last() == s.last());
    if k.has(s.last()) {
        lemma_trim_back_behind(pre, s.drop_last(), k);
        assert((pre + s).drop_last() =~= pre + s.drop_last());
    }
}

/// A text without a plus sign at its start.
pub open spec fn without_plus(s: Seq<char>) -> Seq<char> {
    if s.len() > 0 && s[0] == '+' {
        s.skip(1)
    } else {
        s
    }
}

/// A text is read as an index only if it is a number in decimal digits, with or without a plus sign
/// before it, and then as that number.
pub proof fn law_index_is_the_number(s: Seq<char>)
    ensures
        index_value(s) matches Some(n) ==> {
            &&& without_plus(s).len() > 0
            &&& forall|i: int| 0 <= i < without_plus(s).len() ==> '0' <= #[trigger] without_plus(s)[i] <= '9'
            &&& value_in_base(without_plus(s), 10) == n
        },
{
    if index_value(s) is Some {
        lemma_digits_are_digits(without_plus(s));
    }
}

proof fn lemma_digits_are_digits(s: Seq<char>)
    requires
        digits_value(s) is Some,
    ensures
        forall|i: int| 0 <= i < s.len() ==> '0' <= #[trigger] s[i] <= '9',
        value_in_base(s, 10) == digits_value(s)->0,
    decreases s.len(),
{
    if s.len() > 0 {
        let t = s.drop_last();
        lemma_digits_are_digits(t);
        assert forall|i: int| 0 <= i < s.len() implies '0' <= #[trigger] s[i] <= '9' by {
            if i < t.len() {
                assert(s[i] == t[i]);
            }
        }
    }
}

/// The lines of a text are what stands between its line feeds; the last one may lack its own.
pub proof fn law_lines_stand_between_line_feeds(parts: Seq<Seq<char>>)
    requires
        parts.len() > 0,
        forall|i: int| 0 <= i < parts.len() ==> !(#[trigger] parts[i]).contains('\n'),
        forall|i: int| 0 <= i < parts.len() ==> (#[trigger] parts[i]).len() > 0 ==> parts[i].last() != '\r',
        parts.last().len() > 0,
    ensures
        lines(join(parts, seq!['\n'])) == parts,
        lines(join(parts, seq!['\n']).push('\n')) == parts,
{
    let s = join(parts, seq!['\n']);
    let k = CharClass::Only('\n');
    lemma_split_joined(parts, '\n');
    let ended = parts.drop_last().map_values(|l: Seq<char>| without_cr(l));
    assert(ended =~= parts.drop_last()) by {
        assert forall|i: int| 0 <= i < parts.len() - 1 implies ended[i] == parts[i] by {
            assert(parts[i].len() > 0 ==> parts[i].last() != '\r');
        }
    }
    assert(ended.push(parts.last()) =~= parts);
    assert(s.push('\n').drop_last() =~= s);
    let pieces = split(s.push('\n'), k);
    assert(pieces =~= parts.push(Seq::empty()));
    assert(pieces.drop_last() =~= parts);
    let all = parts.map_values(|l: Seq<char>| without_cr(l));
    assert(all =~= parts) by {
        assert forall|i: int| 0 <= i < parts.len() implies all[i] == parts[i] by {
            assert(parts[i].len() > 0 ==> parts[i].last() != '\r');
        }
    }
}

/// Which characters beyond ASCII are white space.
pub proof fn law_white_space_beyond_ascii(c: char)
    requires
        c >= '\u{80}',
    ensures
        is_white(c) <==> c == '\u{85}' || c == '\u{A0}' || c == '\u{1680}' || '\u{2000}' <= c <= '\u{200A}' || c
            == '\u{2028}' || c == '\u{2029}' || c == '\u{202F}' || c == '\u{205F}' || c == '\u{3000}',
{
}

/// The words of a text are the parts between separators that are not empty: a separator parts what
/// stands before it from what stands behind it, and a text without one is a word itself.
pub proof fn law_words_stand_between_separators(a: Seq<char>, c: char, b: Seq<char>, k: CharClass)
    requires
        k.has(c),
        b.len() > 0,
        forall|i: int| 0 <= i < b.len() ==> !k.has(#[trigger] b[i]),
    ensures
        words(a.push(c) + b, k) == words(a, k).push(b),
        words(b, k) == seq![b],
        words(a.push(c), k) == words(a, k),
{
    crate::wrap::lemma_words_around(a, c, b, k);
    lemma_split_solid(b, k);
    assert(seq![b].drop_last() =~= Seq::empty());
    assert(non_empty(seq![b].drop_last()) =~= Seq::empty());
    assert(non_empty(seq![b]) =~= seq![b]);
    assert(words(a, k) + seq![b] =~= words(a, k).push(b));
    assert(a.push(c).drop_last() =~= a);
    assert(split(a, k).push(Seq::empty()).drop_last() =~= split(a, k));
}

/// Strings are looked at as they are: their number, their order, and the characters of each.
pub proof fn law_strings_are_seen_as_they_are(v: Seq<String>, i: int)
    requires
        0 <= i < v.len(),
    ensures
        texts(v).len() == v.len(),
        texts(v)[i] == v[i]@,
{
}

} // verus!
