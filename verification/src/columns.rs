//! Texts in columns of a fixed width.

use crate::text::chars_of;
use crate::width;
use crate::width::columns_of;
use vstd::prelude::*;
use vstd::string::*;
use vstd::utf8::*;

verus! {

/// Smallest width of a column.
pub const MIN_COL_WIDTH: usize = 3;

/// Columns of the separator between two columns.
pub const COL_SEP_W: usize = 5;

/// The variation selector that asks for a glyph as an emoji.
pub open spec fn is_emoji_selector(c: char) -> bool {
    c == '\u{FE0F}'
}

/// The columns that character `i` of `s` adds. An emoji selector adds the second column of a
/// glyph that has only one.
pub open spec fn added_columns(s: Seq<char>, i: int) -> nat {
    if is_emoji_selector(s[i]) {
        if i > 0 && width::columns(s[i - 1]) < 2 {
            1
        } else {
            0
        }
    } else {
        width::columns(s[i])
    }
}

/// The columns that a terminal gives a text.
pub open spec fn disp(s: Seq<char>) -> nat
    decreases s.len(),
{
    if s.len() == 0 {
        0
    } else {
        disp(s.drop_last()) + added_columns(s, s.len() - 1)
    }
}

fn added(v: &Vec<char>, i: usize) -> (r: usize)
    requires
        i < v@.len(),
    ensures
        r == added_columns(v@, i as int),
        r <= encode_scalar(v@[i as int] as u32).len(),
{
    let c = v[i];
    if c == '\u{FE0F}' {
        if i > 0 && columns_of(v[i - 1]) < 2 {
            1
        } else {
            0
        }
    } else {
        columns_of(c)
    }
}

proof fn lemma_disp_take(s: Seq<char>, i: int)
    requires
        0 <= i < s.len(),
    ensures
        disp(s.take(i + 1)) == disp(s.take(i)) + added_columns(s, i),
{
    let t = s.take(i + 1);
    assert(t.drop_last() =~= s.take(i));
    assert(t[i] == s[i]);
    if i > 0 {
        assert(t[i - 1] == s[i - 1]);
    }
}

/// The columns that a terminal gives a text. A character with an emoji selector behind it takes
/// two.
pub fn disp_w(s: &str) -> (r: usize)
    ensures
        r == disp(s@),
{
    let total: usize = s.as_bytes().len();
    let v = chars_of(s);
    let mut used: usize = 0;
    assert(s@.skip(0) =~= s@);
    for i in 0..v.len()
        invariant
            v@ == s@,
            used == disp(s@.take(i as int)),
            used + encode_utf8(s@.skip(i as int)).len() <= total,
    {
        proof {
            lemma_disp_take(s@, i as int);
            assert(s@.skip(i as int).drop_first() =~= s@.skip(i + 1));
        }
        used = used + added(&v, i);
    }
    assert(s@.take(s@.len() as int) =~= s@);
    used
}

// ── cutting and padding ─────────────────────────────────────────────────────

/// How many characters of `s` fit in `target` columns, if the first `k` do.
pub open spec fn fitting(s: Seq<char>, target: int, k: int) -> int
    decreases s.len() - k,
{
    if 0 <= k < s.len() && disp(s.take(k + 1)) <= target {
        fitting(s, target, k + 1)
    } else {
        k
    }
}

/// `s`, cut to `width` columns with an ellipsis at the end where it is longer.
pub open spec fn cut(s: Seq<char>, width: int) -> Seq<char> {
    if disp(s) <= width {
        s
    } else {
        let target = if width < 1 {
            0
        } else {
            width - 1
        };
        s.take(fitting(s, target, 0)).push('\u{2026}')
    }
}

/// `n` spaces.
pub open spec fn spaces(n: int) -> Seq<char> {
    Seq::new(n as nat, |i: int| ' ')
}

/// `s`, cut to `width` columns and filled with spaces behind it.
pub open spec fn left_aligned(s: Seq<char>, width: int) -> Seq<char> {
    let t = cut(s, width);
    if disp(t) >= width {
        t
    } else {
        t + spaces(width - disp(t))
    }
}

/// `s`, cut to `width` columns and filled with spaces before it.
pub open spec fn right_aligned(s: Seq<char>, width: int) -> Seq<char> {
    let t = cut(s, width);
    if disp(t) >= width {
        t
    } else {
        spaces(width - disp(t)) + t
    }
}

/// Cuts `s` to `width` columns, with an ellipsis at the end where something was cut off.
pub fn truncate(s: &str, width: usize) -> (r: String)
    ensures
        r@ == cut(s@, width as int),
{
    if disp_w(s) <= width {
        return s.to_string();
    }
    let target: usize = if width < 1 { 0 } else { width - 1 };
    let v = chars_of(s);
    let mut out = String::new();
    let mut used: usize = 0;
    let mut i: usize = 0;
    let mut full = false;
    while i < v.len() && !full
        invariant
            v@ == s@,
            i <= v@.len(),
            out@ == s@.take(i as int),
            used == disp(s@.take(i as int)),
            used <= target,
            fitting(s@, target as int, i as int) == fitting(s@, target as int, 0),
            full ==> fitting(s@, target as int, i as int) == i,
        decreases v@.len() - i + (if full { 0int } else { 1 }),
    {
        proof {
            lemma_disp_take(s@, i as int);
        }
        let cw: usize = added(&v, i);
        if cw > target - used {
            full = true;
        } else {
            out.push(v[i]);
            assert(out@ =~= s@.take(i + 1));
            used = used + cw;
            i = i + 1;
        }
    }
    out.push('\u{2026}');
    out
}

fn push_spaces(s: &mut String, n: usize)
    ensures
        final(s)@ == old(s)@ + spaces(n as int),
{
    let ghost start = s@;
    for i in 0..n
        invariant
            s@ == start + spaces(i as int),
    {
        s.push(' ');
        assert(s@ =~= start + spaces(i + 1));
    }
}

/// Cuts `s` to `width` columns and fills it with spaces behind it.
pub fn pad_right(s: &str, width: usize) -> (r: String)
    ensures
        r@ == left_aligned(s@, width as int),
{
    let mut t = truncate(s, width);
    let w: usize = disp_w(t.as_str());
    if w < width {
        push_spaces(&mut t, width - w);
    }
    t
}

/// Cuts `s` to `width` columns and fills it with spaces before it.
pub fn pad_left(s: &str, width: usize) -> (r: String)
    ensures
        r@ == right_aligned(s@, width as int),
{
    let t = truncate(s, width);
    let w: usize = disp_w(t.as_str());
    if w < width {
        let mut out = String::new();
        push_spaces(&mut out, width - w);
        assert(out@ =~= spaces(width - w));
        out.append(t.as_str());
        out
    } else {
        t
    }
}

proof fn lemma_fitting(s: Seq<char>, target: int, k: int)
    requires
        0 <= k <= s.len(),
        disp(s.take(k)) <= target,
    ensures
        ({
            let n = fitting(s, target, k);
            &&& k <= n <= s.len()
            &&& disp(s.take(n)) <= target
            &&& n < s.len() ==> disp(s.take(n + 1)) > target
        }),
    decreases s.len() - k,
{
    if k < s.len() && disp(s.take(k + 1)) <= target {
        lemma_fitting(s, target, k + 1);
    }
}

/// A text that has been cut takes at most the given columns, and is as long as they allow.
pub proof fn law_cut_fits(s: Seq<char>, width: int)
    requires
        width >= 1,
    ensures
        disp(cut(s, width)) <= width,
        disp(s) <= width ==> cut(s, width) == s,
        disp(s) > width ==> {
            let n = cut(s, width).len() - 1;
            &&& 0 <= n < s.len()
            &&& cut(s, width) == s.take(n).push('\u{2026}')
            &&& disp(s.take(n + 1)) > width - 1
        },
{
    if disp(s) > width {
        assert(s.take(0) =~= Seq::empty());
        lemma_fitting(s, width - 1, 0);
        let n = fitting(s, width - 1, 0);
        let t = s.take(n).push('\u{2026}');
        assert(t.drop_last() =~= s.take(n));
        if n == s.len() {
            assert(s.take(n) =~= s);
        }
    }
}

proof fn lemma_disp_spaces_behind(t: Seq<char>, n: int)
    requires
        n >= 0,
    ensures
        disp(t + spaces(n)) == disp(t) + n,
    decreases n,
{
    if n == 0 {
        assert(t + spaces(0) =~= t);
    } else {
        lemma_disp_spaces_behind(t, n - 1);
        assert((t + spaces(n)).drop_last() =~= t + spaces(n - 1));
    }
}

/// A text behind spaces takes their columns and its own, unless it starts with a selector.
proof fn lemma_disp_spaces_before(t: Seq<char>, n: int)
    requires
        n >= 1,
        t.len() > 0 ==> !is_emoji_selector(t[0]),
    ensures
        disp(spaces(n) + t) == disp(t) + n,
    decreases t.len(),
{
    let s = spaces(n) + t;
    if t.len() == 0 {
        lemma_disp_spaces_behind(Seq::empty(), n);
        assert(s =~= Seq::empty() + spaces(n));
    } else {
        let u = t.drop_last();
        lemma_disp_spaces_before(u, n);
        assert(s.drop_last() =~= spaces(n) + u);
        let last = s.len() - 1;
        assert(s[last] == t.last());
        if t.len() > 1 {
            assert(s[last - 1] == t[t.len() - 2]);
        }
    }
}

/// A text filled with spaces behind it takes exactly the columns asked for.
pub proof fn law_left_aligned_fills_the_column(s: Seq<char>, width: int)
    requires
        width >= 1,
    ensures
        disp(left_aligned(s, width)) == width,
{
    law_cut_fits(s, width);
    let t = cut(s, width);
    if disp(t) < width {
        lemma_disp_spaces_behind(t, width - disp(t));
    }
}

/// A text filled with spaces before it takes exactly the columns asked for, unless it starts
/// with an emoji selector, to which the space before it then lends a column.
pub proof fn law_right_aligned_fills_the_column(s: Seq<char>, width: int)
    requires
        width >= 1,
        s.len() > 0 ==> !is_emoji_selector(s[0]),
    ensures
        disp(right_aligned(s, width)) == width,
{
    law_cut_fits(s, width);
    let t = cut(s, width);
    if disp(t) < width {
        assert(t.len() > 0 ==> !is_emoji_selector(t[0]));
        lemma_disp_spaces_before(t, width - disp(t));
    }
}

// ── widths of columns ───────────────────────────────────────────────────────

/// The sum of some widths.
pub open spec fn sum(s: Seq<usize>) -> int
    decreases s.len(),
{
    if s.len() == 0 {
        0
    } else {
        sum(s.drop_last()) + s.last()
    }
}

/// The width of all columns with the separators between them.
pub open spec fn total(s: Seq<usize>) -> int {
    if s.len() == 0 {
        0
    } else {
        sum(s) + 5 * (s.len() - 1)
    }
}

/// The widths cut off at `level`, and at one more for the first `p` columns.
pub open spec fn capped(w: Seq<usize>, level: int, p: int) -> Seq<usize> {
    Seq::new(
        w.len(),
        |i: int|
            {
                let cap = if i < p {
                    level + 1
                } else {
                    level
                };
                if w[i] <= cap {
                    w[i]
                } else {
                    cap as usize
                }
            },
    )
}

/// The width below which no column is cut: none where the separators leave room for it, the
/// smallest width of a column where the separators alone are too wide.
pub open spec fn floor(n: int, max_w: int) -> int {
    if 5 * (n - 1) <= max_w {
        0
    } else {
        3
    }
}

/// No column is wider than `level`.
pub open spec fn all_within(r: Seq<usize>, level: int) -> bool {
    forall|i: int| 0 <= i < r.len() ==> #[trigger] r[i] <= level
}

/// `r` are the widths `w`, made smaller to fit in `max_w`: the widest columns are cut off at
/// one level, the last ones first, until everything fits exactly. Where the separators alone
/// take more than `max_w`, this stops when no column is wider than the smallest width. Widths
/// that fit stay as they are.
pub open spec fn is_fit(w: Seq<usize>, max_w: int, r: Seq<usize>) -> bool {
    if total(w) <= max_w {
        r == w
    } else {
        let low = floor(w.len() as int, max_w);
        &&& exists|level: int, p: int|
            level >= low && 0 <= p <= w.len() && r == #[trigger] capped(w, level, p)
        &&& total(r) == max_w || (total(r) > max_w && all_within(r, low))
    }
}

proof fn lemma_sum_update(s: Seq<usize>, i: int, v: usize)
    requires
        0 <= i < s.len(),
    ensures
        sum(s.update(i, v)) == sum(s) - s[i] + v,
    decreases s.len(),
{
    let t = s.update(i, v);
    if i == s.len() - 1 {
        assert(t.drop_last() =~= s.drop_last());
    } else {
        lemma_sum_update(s.drop_last(), i, v);
        assert(t.drop_last() =~= s.drop_last().update(i, v));
    }
}

proof fn lemma_sum_le(a: Seq<usize>, b: Seq<usize>)
    requires
        a.len() == b.len(),
        forall|i: int| 0 <= i < a.len() ==> #[trigger] a[i] <= b[i],
    ensures
        sum(a) <= sum(b),
        sum(a) == sum(b) ==> a == b,
    decreases a.len(),
{
    if a.len() > 0 {
        assert forall|i: int| 0 <= i < a.len() - 1 implies #[trigger] a.drop_last()[i] <= b.drop_last()[i] by {
            assert(a[i] <= b[i]);
        }
        lemma_sum_le(a.drop_last(), b.drop_last());
        assert(a[a.len() - 1] <= b[a.len() - 1]);
        if sum(a) == sum(b) {
            assert(a =~= a.drop_last().push(a.last()));
            assert(b =~= b.drop_last().push(b.last()));
        }
    } else {
        assert(a =~= b);
    }
}

proof fn lemma_sum_prefix(s: Seq<usize>, i: int)
    requires
        0 <= i <= s.len(),
    ensures
        0 <= sum(s.take(i)) <= sum(s),
    decreases s.len() - i,
{
    if i < s.len() {
        lemma_sum_prefix(s, i + 1);
        assert(s.take(i + 1).drop_last() =~= s.take(i));
        lemma_sum_nonneg(s.take(i));
    } else {
        assert(s.take(i) =~= s);
        lemma_sum_nonneg(s);
    }
}

proof fn lemma_sum_nonneg(s: Seq<usize>)
    ensures
        0 <= sum(s),
    decreases s.len(),
{
    if s.len() > 0 {
        lemma_sum_nonneg(s.drop_last());
    }
}

proof fn lemma_capped_ordered(w: Seq<usize>, l1: int, p1: int, l2: int, p2: int)
    requires
        0 <= l1,
        0 <= l2,
        l1 < l2 || (l1 == l2 && p1 <= p2),
    ensures
        forall|i: int| 0 <= i < w.len() ==> #[trigger] capped(w, l1, p1)[i] <= capped(w, l2, p2)[i],
{
}

/// There is only one way to fit.
pub proof fn law_fit_is_unique(w: Seq<usize>, max_w: int, a: Seq<usize>, b: Seq<usize>)
    requires
        is_fit(w, max_w, a),
        is_fit(w, max_w, b),
    ensures
        a == b,
{
    if total(w) > max_w {
        let k = floor(w.len() as int, max_w);
        let (l1, p1) = choose|level: int, p: int|
            level >= k && 0 <= p <= w.len() && a == #[trigger] capped(w, level, p);
        let (l2, p2) = choose|level: int, p: int|
            level >= k && 0 <= p <= w.len() && b == #[trigger] capped(w, level, p);
        if l1 < l2 || (l1 == l2 && p1 <= p2) {
            lemma_capped_ordered(w, l1, p1, l2, p2);
            lemma_sum_le(a, b);
        } else {
            lemma_capped_ordered(w, l2, p2, l1, p1);
            lemma_sum_le(b, a);
        }
        if all_within(a, k) || all_within(b, k) {
            lemma_capped_ordered(w, k, 0, l1, p1);
            lemma_capped_ordered(w, k, 0, l2, p2);
            let low = capped(w, k, 0);
            if all_within(a, k) {
                assert forall|i: int| 0 <= i < w.len() implies #[trigger] a[i] <= low[i] by {
                    assert(a[i] <= k);
                }
                assert(a =~= low);
                lemma_sum_le(a, b);
            }
            if all_within(b, k) {
                assert forall|i: int| 0 <= i < w.len() implies #[trigger] b[i] <= low[i] by {
                    assert(b[i] <= k);
                }
                assert(b =~= low);
                lemma_sum_le(b, a);
            }
        }
    }
}

proof fn lemma_sum_zeros(s: Seq<usize>)
    requires
        all_within(s, 0),
    ensures
        sum(s) == 0,
    decreases s.len(),
{
    if s.len() > 0 {
        let t = s.drop_last();
        assert forall|i: int| 0 <= i < t.len() implies #[trigger] t[i] <= 0 by {
            assert(t[i] == s[i]);
        }
        lemma_sum_zeros(t);
        assert(s[s.len() - 1] <= 0);
    }
}

/// The fitted columns and their separators take no more than `max_w`, wherever the separators
/// alone leave that possible, and no column gets wider. Where they do not, every column comes
/// down to the smallest width.
pub proof fn law_fit_shrinks(w: Seq<usize>, max_w: int, r: Seq<usize>)
    requires
        is_fit(w, max_w, r),
    ensures
        r.len() == w.len(),
        forall|i: int| 0 <= i < w.len() ==> #[trigger] r[i] <= w[i],
        0 <= max_w && 5 * (w.len() - 1) <= max_w ==> total(r) <= max_w,
        total(r) <= max_w || all_within(r, 3),
{
    if total(w) > max_w && all_within(r, 0) {
        lemma_sum_zeros(r);
    }
}

/// No column is cut below the smallest width where all columns fit with that width.
pub proof fn law_narrow_only_if_needed(w: Seq<usize>, max_w: int, r: Seq<usize>)
    requires
        is_fit(w, max_w, r),
        total(capped(w, 3, 0)) <= max_w,
    ensures
        forall|i: int| 0 <= i < w.len() ==> #[trigger] r[i] >= capped(w, 3, 0)[i],
{
    let c = capped(w, 3, 0);
    if total(w) > max_w {
        let k = floor(w.len() as int, max_w);
        let (level, p) = choose|level: int, p: int|
            level >= k && 0 <= p <= w.len() && r == #[trigger] capped(w, level, p);
        law_fit_shrinks(w, max_w, r);
        if level < 3 {
            lemma_capped_ordered(w, level, p, 3, 0);
            lemma_sum_le(r, c);
            assert(r =~= c);
        } else {
            lemma_capped_ordered(w, 3, 0, level, p);
        }
    }
}

fn sum_of(v: &Vec<usize>) -> (r: usize)
    requires
        sum(v@) <= usize::MAX,
    ensures
        r == sum(v@),
{
    let mut s: usize = 0;
    for i in 0..v.len()
        invariant
            sum(v@) <= usize::MAX,
            s == sum(v@.take(i as int)),
    {
        proof {
            lemma_sum_prefix(v@, i + 1);
            assert(v@.take(i + 1).drop_last() =~= v@.take(i as int));
        }
        s = s + v[i];
    }
    assert(v@.take(v@.len() as int) =~= v@);
    s
}

/// The last of the widest columns.
fn widest(v: &Vec<usize>) -> (r: usize)
    requires
        v@.len() > 0,
    ensures
        r < v@.len(),
        forall|i: int| 0 <= i < v@.len() ==> #[trigger] v@[i] <= v@[r as int],
        forall|i: int| r < i < v@.len() ==> #[trigger] v@[i] < v@[r as int],
{
    let mut best: usize = 0;
    for i in 0..v.len()
        invariant
            v@.len() > 0,
            best < v@.len(),
            i == 0 ==> best == 0,
            i > 0 ==> best < i,
            forall|j: int| 0 <= j < i ==> #[trigger] v@[j] <= v@[best as int],
            forall|j: int| best < j < i ==> #[trigger] v@[j] < v@[best as int],
    {
        if v[i] >= v[best] {
            best = i;
        }
    }
    best
}

/// The width of the widest column other than `idx`; 0 if there is none.
fn runner_up(v: &Vec<usize>, idx: usize) -> (r: usize)
    requires
        idx < v@.len(),
    ensures
        forall|i: int| 0 <= i < v@.len() && i != idx ==> #[trigger] v@[i] <= r,
        r == 0 || exists|i: int| 0 <= i < v@.len() && i != idx && #[trigger] v@[i] == r,
{
    let mut best: usize = 0;
    for i in 0..v.len()
        invariant
            idx < v@.len(),
            forall|j: int| 0 <= j < i && j != idx ==> #[trigger] v@[j] <= best,
            best == 0 || exists|j: int| 0 <= j < i && j != idx && #[trigger] v@[j] == best,
    {
        if i != idx && v[i] > best {
            best = v[i];
            assert(v@[i as int] == best);
        }
    }
    best
}

/// If `r` are the widths cut off at some level, and `idx` is the last of its widest columns,
/// then that level is the width of `idx` up to `idx` and one less behind it.
proof fn lemma_level(w: Seq<usize>, r: Seq<usize>, low: int, level: int, p: int, idx: int)
    requires
        0 <= low <= level,
        r == capped(w, level, p),
        0 <= idx < w.len(),
        r[idx] > low,
        forall|i: int| 0 <= i < r.len() ==> #[trigger] r[i] <= r[idx],
        forall|i: int| idx < i < r.len() ==> #[trigger] r[i] < r[idx],
    ensures
        r == capped(w, r[idx] - 1, idx + 1),
{
    let m = r[idx] as int;
    let c = capped(w, m - 1, idx + 1);
    assert forall|i: int| 0 <= i < w.len() implies r[i] == c[i] by {
        assert(r[i] <= r[idx]);
        if idx < i {
            assert(r[i] < r[idx]);
        }
        if m == level + 1 {
            assert(idx < p);
        }
    }
    assert(r =~= c);
}

/// Makes column widths smaller so that all columns and their separators take no more than
/// `max_w` columns. Where the separators alone take more, the columns come down to the smallest
/// width.
pub fn fit_widths(widths: &[usize], max_w: usize) -> (r: Vec<usize>)
    requires
        total(widths@) <= usize::MAX,
    ensures
        is_fit(widths@, max_w as int, r@),
        5 * (widths@.len() - 1) <= max_w ==> total(r@) <= max_w,
{
    let n: usize = widths.len();
    let ghost w = widths@;
    let mut r = vstd::slice::slice_to_vec(widths);
    proof {
        lemma_sum_nonneg(w);
        assert(r@ =~= w);
    }
    if n == 0 {
        return r;
    }
    let seps: usize = (n - 1) * COL_SEP_W;
    let low: usize = if seps <= max_w { 0 } else { MIN_COL_WIDTH };
    proof {
        let top = widest_level(w);
        lemma_widest_level(w);
        assert(r@ =~= capped(w, top, 0));
    }
    let mut all: usize = sum_of(&r) + seps;
    let mut done = false;
    while all > max_w && !done
        invariant
            w == widths@,
            n == w.len(),
            n > 0,
            seps == 5 * (n - 1),
            low == floor(n as int, max_w as int),
            r@.len() == n,
            all == total(r@),
            exists|level: int, p: int|
                level >= low && 0 <= p <= w.len() && r@ == #[trigger] capped(w, level, p),
            r@ == w || (all >= max_w && total(w) > max_w),
            done ==> all_within(r@, low as int),
        decreases all + (if done { 0int } else { 1 }),
    {
        let idx: usize = widest(&r);
        let max_val: usize = r[idx];
        if max_val <= low {
            assert(all_within(r@, low as int));
            done = true;
        } else {
            let ghost before = r@;
            proof {
                let (level, p) = choose|level: int, p: int|
                    level >= low && 0 <= p <= w.len() && r@ == #[trigger] capped(w, level, p);
                lemma_level(w, r@, low as int, level, p, idx as int);
            }
            let second: usize = runner_up(&r, idx);
            let gap: usize = if second < max_val { max_val - second } else { 1 };
            let excess: usize = all - max_w;
            let less: usize = if gap < excess { gap } else { excess };
            let lowered: usize = max_val - less;
            let value: usize = if lowered < low { low } else { lowered };
            r[idx] = value;
            proof {
                lemma_sum_update(before, idx as int, value);
                assert(r@ =~= before.update(idx as int, value));
                lemma_lowered(w, before, r@, low as int, idx as int, second as int, value as int);
            }
            all = all - (max_val - value);
        }
    }
    proof {
        law_fit_shrinks(w, max_w as int, r@);
    }
    r
}

/// The width of the widest column, at least the smallest width.
spec fn widest_level(w: Seq<usize>) -> int
    decreases w.len(),
{
    if w.len() == 0 {
        3
    } else {
        let rest = widest_level(w.drop_last());
        if w.last() > rest {
            w.last() as int
        } else {
            rest
        }
    }
}

proof fn lemma_widest_level(w: Seq<usize>)
    ensures
        widest_level(w) >= 3,
        forall|i: int| 0 <= i < w.len() ==> #[trigger] w[i] <= widest_level(w),
    decreases w.len(),
{
    if w.len() > 0 {
        lemma_widest_level(w.drop_last());
        assert forall|i: int| 0 <= i < w.len() implies #[trigger] w[i] <= widest_level(w) by {
            if i < w.len() - 1 {
                assert(w.drop_last()[i] == w[i]);
            }
        }
    }
}

/// Lowering the last of the widest columns leaves widths that are cut off at some level.
proof fn lemma_lowered(
    w: Seq<usize>,
    before: Seq<usize>,
    after: Seq<usize>,
    low: int,
    idx: int,
    second: int,
    value: int,
)
    requires
        0 <= idx < w.len(),
        before.len() == w.len(),
        0 <= low < before[idx],
        before == capped(w, before[idx] - 1, idx + 1),
        forall|i: int| 0 <= i < before.len() && i != idx ==> #[trigger] before[i] <= second,
        forall|i: int| 0 <= i < before.len() ==> #[trigger] before[i] <= before[idx],
        second == 0 || exists|i: int| 0 <= i < before.len() && i != idx && #[trigger] before[i] == second,
        low <= value < before[idx],
        second < before[idx] ==> value >= second,
        second >= before[idx] ==> value == before[idx] - 1,
        after == before.update(idx, value as usize),
        value <= usize::MAX,
    ensures
        exists|level: int, p: int|
            level >= low && 0 <= p <= w.len() && after == #[trigger] capped(w, level, p),
{
    let m = before[idx] as int;
    if second >= m {
        let c = capped(w, m - 1, idx);
        assert forall|i: int| 0 <= i < w.len() implies after[i] == c[i] by {
            assert(before[i] == capped(w, m - 1, idx + 1)[i]);
        }
        assert(after =~= c);
    } else {
        let c = capped(w, value, 0);
        assert forall|i: int| 0 <= i < w.len() implies after[i] == c[i] by {
            assert(before[i] == capped(w, m - 1, idx + 1)[i]);
            if i != idx {
                assert(before[i] <= second);
            }
        }
        assert(after =~= c);
    }
}

// ── laws of short texts ─────────────────────────────────────────────────────

/// A text that fits its column is there as it is, with nothing but spaces behind it, or before it.
pub proof fn law_short_text_is_filled_with_spaces(s: Seq<char>, width: int)
    requires
        disp(s) <= width,
    ensures
        left_aligned(s, width) == s + Seq::new((width - disp(s)) as nat, |i: int| ' '),
        right_aligned(s, width) == Seq::new((width - disp(s)) as nat, |i: int| ' ') + s,
{
    let pad = Seq::new((width - disp(s)) as nat, |i: int| ' ');
    assert(spaces(width - disp(s)) =~= pad);
    if disp(s) == width {
        assert(s + pad =~= s);
        assert(pad + s =~= s);
    }
}

/// A text of printable ASCII characters takes as many columns as it has characters.
pub proof fn law_ascii_takes_one_column_each(s: Seq<char>)
    requires
        forall|i: int| 0 <= i < s.len() ==> ' ' <= #[trigger] s[i] <= '~',
    ensures
        disp(s) == s.len(),
    decreases s.len(),
{
    if s.len() > 0 {
        let t = s.drop_last();
        assert forall|i: int| 0 <= i < t.len() implies ' ' <= #[trigger] t[i] <= '~' by {
            assert(t[i] == s[i]);
        }
        law_ascii_takes_one_column_each(t);
        assert(' ' <= s[s.len() - 1] <= '~');
    }
}

/// Columns give up no more than they have to, and the widest give up first: no column is left more
/// than one wider than a column that has given up something.
pub proof fn law_widest_columns_shrink_first(w: Seq<usize>, max_w: int, r: Seq<usize>, i: int, j: int)
    requires
        is_fit(w, max_w, r),
        0 <= i < w.len(),
        0 <= j < w.len(),
    ensures
        r.len() == w.len(),
        r[i] < w[i] ==> r[j] <= r[i] + 1,
        r == w || sum(r) + 5 * (w.len() - 1) >= max_w,
        sum(w) + 5 * (w.len() - 1) <= max_w ==> r == w,
{
    if total(w) > max_w {
        let low = floor(w.len() as int, max_w);
        let (level, p) = choose|level: int, p: int|
            level >= low && 0 <= p <= w.len() && r == #[trigger] capped(w, level, p);
        assert(r == capped(w, level, p));
    }
}

/// An emoji selector makes the narrow character before it two columns wide, and does nothing behind a
/// wide one.
pub proof fn law_emoji_take_two_columns(s: Seq<char>, c: char)
    requires
        c != '\u{FE0F}',
    ensures
        disp(s.push(c)) == disp(s) + width::columns(c),
        width::columns(c) < 2 ==> disp(s.push(c).push('\u{FE0F}')) == disp(s) + width::columns(c) + 1,
        width::columns(c) >= 2 ==> disp(s.push(c).push('\u{FE0F}')) == disp(s) + width::columns(c),
{
    assert(s.push(c).drop_last() =~= s);
    assert(disp(s.push(c)) == disp(s) + width::columns(c));
    let t = s.push(c).push('\u{FE0F}');
    assert(t.drop_last() =~= s.push(c));
    assert(t[t.len() - 2] == c);
    assert(disp(t) == disp(s.push(c)) + added_columns(t, t.len() - 1));
}

} // verus!
