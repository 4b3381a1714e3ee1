//! Page texts that are kept because they were read or shown lately.

use lru::LruCache;
use std::num::NonZeroUsize;
use vstd::prelude::*;

verus! {

/// Page texts kept at most.
pub const CACHE_CAPACITY: usize = 30;

/// `lru::LruCache`.
#[verifier::external_type_specification]
#[verifier::external_body]
#[verifier::reject_recursive_types(K)]
#[verifier::reject_recursive_types(V)]
#[verifier::reject_recursive_types(S)]
pub struct ExLruCache<K, V, S>(lru::LruCache<K, V, S>);

/// `lru::DefaultHasher`, with which `lru::LruCache` finds its keys.
#[verifier::external_type_specification]
#[verifier::external_body]
pub struct ExDefaultHasher(lru::DefaultHasher);

/// The texts in a cache with their path and page, the one used last first.
pub uninterp spec fn cached(c: lru::LruCache<(String, usize), String>) -> Seq<((Seq<char>, usize), Seq<char>)>;

/// How many texts a cache holds at most.
pub uninterp spec fn capacity(c: lru::LruCache<(String, usize), String>) -> nat;

/// The text kept for a page.
pub open spec fn find(e: Seq<((Seq<char>, usize), Seq<char>)>, k: (Seq<char>, usize)) -> Option<Seq<char>>
    decreases e.len(),
{
    if e.len() == 0 {
        None
    } else if e.last().0 == k {
        Some(e.last().1)
    } else {
        find(e.drop_last(), k)
    }
}

/// The texts without that of page `k`.
pub open spec fn without(e: Seq<((Seq<char>, usize), Seq<char>)>, k: (Seq<char>, usize)) -> Seq<
    ((Seq<char>, usize), Seq<char>),
>
    decreases e.len(),
{
    if e.len() == 0 {
        Seq::empty()
    } else if e.last().0 == k {
        without(e.drop_last(), k)
    } else {
        without(e.drop_last(), k).push(e.last())
    }
}

/// The texts with that of page `k` first.
pub open spec fn with_first(
    e: Seq<((Seq<char>, usize), Seq<char>)>,
    k: (Seq<char>, usize),
    v: Seq<char>,
) -> Seq<((Seq<char>, usize), Seq<char>)> {
    seq![(k, v)] + without(e, k)
}

/// The first `n` texts.
pub open spec fn first_of(e: Seq<((Seq<char>, usize), Seq<char>)>, n: nat) -> Seq<
    ((Seq<char>, usize), Seq<char>),
> {
    if e.len() <= n {
        e
    } else {
        e.take(n as int)
    }
}

/// `lru::LruCache::new`.
#[verifier::external_body]
fn new_cache(cap: usize) -> (r: LruCache<(String, usize), String>)
    requires
        cap > 0,
    ensures
        cached(r) == Seq::<((Seq<char>, usize), Seq<char>)>::empty(),
        capacity(r) == cap,
{
    LruCache::new(NonZeroUsize::new(cap).unwrap())
}

/// `lru::LruCache::get`: an item that is found becomes the one used last.
#[verifier::external_body]
fn get_text(c: &mut LruCache<(String, usize), String>, path: &str, page: usize) -> (r: Option<String>)
    ensures
        crate::paths::text_of(r) == find(cached(*old(c)), (path@, page)),
        cached(*final(c)) == (match find(cached(*old(c)), (path@, page)) {
            Some(v) => with_first(cached(*old(c)), (path@, page), v),
            None => cached(*old(c)),
        }),
        capacity(*final(c)) == capacity(*old(c)),
{
    c.get(&(path.to_string(), page)).cloned()
}

/// `lru::LruCache::put`: the item becomes the one used last, in place of an earlier one with
/// the same key, and the one not used for longest leaves a cache that is full.
#[verifier::external_body]
fn put_text(c: &mut LruCache<(String, usize), String>, path: &str, page: usize, text: &str)
    ensures
        cached(*final(c)) == first_of(
            with_first(cached(*old(c)), (path@, page), text@),
            capacity(*old(c)),
        ),
        capacity(*final(c)) == capacity(*old(c)),
{
    c.put((path.to_string(), page), text.to_string());
}

/// `lru::LruCache::contains`.
#[verifier::external_body]
fn has_text(c: &LruCache<(String, usize), String>, path: &str, page: usize) -> (r: bool)
    ensures
        r == (find(cached(*c), (path@, page)) is Some),
{
    c.contains(&(path.to_string(), page))
}

/// The page texts that are kept.
pub struct PageCache {
    texts: LruCache<(String, usize), String>,
}

impl View for PageCache {
    type V = Seq<((Seq<char>, usize), Seq<char>)>;

    closed spec fn view(&self) -> Seq<((Seq<char>, usize), Seq<char>)> {
        cached(self.texts)
    }
}

impl PageCache {
    /// At most thirty texts are kept.
    pub closed spec fn wf(self) -> bool {
        capacity(self.texts) == 30 && cached(self.texts).len() <= 30
    }

    /// Nothing is kept yet.
    pub fn new() -> (r: PageCache)
        ensures
            r.wf(),
            r@ == Seq::<((Seq<char>, usize), Seq<char>)>::empty(),
    {
        PageCache { texts: new_cache(CACHE_CAPACITY) }
    }

    /// The text kept for a page, which becomes the one used last.
    pub fn lookup(&mut self, path: &str, page: usize) -> (r: Option<String>)
        requires
            old(self).wf(),
        ensures
            final(self).wf(),
            crate::paths::text_of(r) == find(old(self)@, (path@, page)),
            final(self)@ == (match find(old(self)@, (path@, page)) {
                Some(v) => with_first(old(self)@, (path@, page), v),
                None => old(self)@,
            }),
    {
        proof {
            lemma_without_shorter(self@, (path@, page));
        }
        get_text(&mut self.texts, path, page)
    }

    /// Keeps the text of a page. Where thirty are kept already, the one not used for longest
    /// is let go.
    pub fn store(&mut self, path: &str, page: usize, text: &str)
        requires
            old(self).wf(),
        ensures
            final(self).wf(),
            final(self)@ == first_of(with_first(old(self)@, (path@, page), text@), 30),
    {
        put_text(&mut self.texts, path, page, text);
    }

    /// Whether the text of a page is kept.
    pub fn contains(&self, path: &str, page: usize) -> (r: bool)
        ensures
            r == (find(self@, (path@, page)) is Some),
    {
        has_text(&self.texts, path, page)
    }

    /// The pages around `page` whose texts are still to be read, in a document of `total`
    /// pages.
    pub fn pages_to_fetch(&self, path: &str, page: usize, total: usize) -> (r: Vec<usize>)
        ensures
            r@ == missing(
                self@,
                path@,
                window_start(page as int) as usize,
                window_end(page as int, total as int),
            ),
    {
        let lo: usize = if page < 2 { 0 } else { page - 2 };
        let reach: usize = page.saturating_add(3);
        let hi: usize = if reach < total { reach } else { total };
        let mut out: Vec<usize> = Vec::new();
        let mut p: usize = lo;
        while p < hi
            invariant
                lo == window_start(page as int),
                hi == window_end(page as int, total as int),
                lo <= p,
                p <= hi || p == lo,
                out@ == missing(self@, path@, lo, p as int),
            decreases hi - p,
        {
            if !self.contains(path, p) {
                out.push(p);
            }
            p = p + 1;
        }
        proof {
            if hi < lo {
                lemma_missing_none(self@, path@, lo, hi as int);
            }
        }
        out
    }
}

/// The first page that is read ahead: two before the current one.
pub open spec fn window_start(page: int) -> int {
    if page < 2 {
        0
    } else {
        page - 2
    }
}

/// Behind the last page that is read ahead: two after the current one, within the document.
pub open spec fn window_end(page: int, total: int) -> int {
    if page + 3 < total {
        page + 3
    } else {
        total
    }
}

/// The pages from `lo` to before `hi` whose texts are not kept.
pub open spec fn missing(e: Seq<((Seq<char>, usize), Seq<char>)>, path: Seq<char>, lo: usize, hi: int) -> Seq<
    usize,
>
    decreases hi - lo,
{
    if hi <= lo {
        Seq::empty()
    } else if find(e, (path, (hi - 1) as usize)) is None {
        missing(e, path, lo, hi - 1).push((hi - 1) as usize)
    } else {
        missing(e, path, lo, hi - 1)
    }
}

proof fn lemma_missing_none(e: Seq<((Seq<char>, usize), Seq<char>)>, path: Seq<char>, lo: usize, hi: int)
    requires
        hi <= lo,
    ensures
        missing(e, path, lo, hi) == missing(e, path, lo, lo as int),
{
}

proof fn lemma_without_shorter(e: Seq<((Seq<char>, usize), Seq<char>)>, k: (Seq<char>, usize))
    ensures
        without(e, k).len() + (if find(e, k) is Some {
            1int
        } else {
            0int
        }) <= e.len(),
    decreases e.len(),
{
    if e.len() > 0 {
        lemma_without_shorter(e.drop_last(), k);
    }
}

proof fn lemma_without_finds(
    e: Seq<((Seq<char>, usize), Seq<char>)>,
    k: (Seq<char>, usize),
    other: (Seq<char>, usize),
)
    ensures
        find(without(e, k), other) == (if other == k {
            None
        } else {
            find(e, other)
        }),
    decreases e.len(),
{
    if e.len() > 0 {
        lemma_without_finds(e.drop_last(), k, other);
        if e.last().0 != k {
            assert(without(e, k).drop_last() =~= without(e.drop_last(), k));
        }
    }
}

proof fn lemma_first_found(
    k: (Seq<char>, usize),
    v: Seq<char>,
    rest: Seq<((Seq<char>, usize), Seq<char>)>,
    other: (Seq<char>, usize),
)
    ensures
        find(seq![(k, v)] + rest, other) == (match find(rest, other) {
            Some(x) => Some(x),
            None => if other == k {
                Some(v)
            } else {
                None
            },
        }),
    decreases rest.len(),
{
    let e = seq![(k, v)] + rest;
    if rest.len() == 0 {
        assert(e.drop_last() =~= Seq::empty());
        assert(find(e.drop_last(), other) is None);
        assert(e.last() == (k, v));
    } else {
        lemma_first_found(k, v, rest.drop_last(), other);
        assert(e.drop_last() =~= seq![(k, v)] + rest.drop_last());
        assert(e.last() == rest.last());
    }
}

proof fn lemma_prefix_finds(e: Seq<((Seq<char>, usize), Seq<char>)>, n: int, k: (Seq<char>, usize))
    requires
        0 <= n <= e.len(),
        find(e, k) is None,
    ensures
        find(e.take(n), k) is None,
    decreases e.len() - n,
{
    if n < e.len() {
        lemma_prefix_finds(e, n + 1, k);
        assert(e.take(n + 1).drop_last() =~= e.take(n));
    } else {
        assert(e.take(n) =~= e);
    }
}

/// What has been stored for a page is found, and never more than thirty texts are kept.
pub proof fn law_stored_text_is_found(
    e: Seq<((Seq<char>, usize), Seq<char>)>,
    k: (Seq<char>, usize),
    v: Seq<char>,
)
    ensures
        find(first_of(with_first(e, k, v), 30), k) == Some(v),
        first_of(with_first(e, k, v), 30).len() <= 30,
{
    let rest = without(e, k);
    let all = with_first(e, k, v);
    lemma_without_finds(e, k, k);
    lemma_first_found(k, v, rest, k);
    if all.len() > 30 {
        lemma_prefix_finds(rest, 29, k);
        lemma_first_found(k, v, rest.take(29), k);
        assert(all.take(30) =~= seq![(k, v)] + rest.take(29));
    }
}

/// Storing a page changes no other one where the page is kept already or there is room for it.
pub proof fn law_storing_keeps_the_others(
    e: Seq<((Seq<char>, usize), Seq<char>)>,
    k: (Seq<char>, usize),
    v: Seq<char>,
    other: (Seq<char>, usize),
)
    requires
        other != k,
        e.len() < 30 || (e.len() == 30 && find(e, k) is Some),
    ensures
        find(first_of(with_first(e, k, v), 30), other) == find(e, other),
{
    lemma_without_finds(e, k, other);
    lemma_without_shorter(e, k);
    lemma_first_found(k, v, without(e, k), other);
}

proof fn lemma_without_absent(e: Seq<((Seq<char>, usize), Seq<char>)>, k: (Seq<char>, usize))
    requires
        find(e, k) is None,
    ensures
        without(e, k) == e,
    decreases e.len(),
{
    if e.len() > 0 {
        lemma_without_absent(e.drop_last(), k);
        assert(e.drop_last().push(e.last()) =~= e);
    } else {
        assert(without(e, k) =~= e);
    }
}

/// Where thirty texts are kept and another page is stored, the text not used for longest leaves
/// and every other one stays, in its order.
pub proof fn law_oldest_text_leaves(
    e: Seq<((Seq<char>, usize), Seq<char>)>,
    k: (Seq<char>, usize),
    v: Seq<char>,
)
    requires
        e.len() == 30,
        find(e, k) is None,
    ensures
        first_of(with_first(e, k, v), 30) == seq![(k, v)] + e.drop_last(),
{
    lemma_without_absent(e, k);
    assert(with_first(e, k, v).take(30) =~= seq![(k, v)] + e.drop_last());
}

/// Looking a page up changes no text, and the page that was found is the last one to leave.
pub proof fn law_looking_up_changes_no_text(
    e: Seq<((Seq<char>, usize), Seq<char>)>,
    k: (Seq<char>, usize),
    other: (Seq<char>, usize),
)
    requires
        find(e, k) is Some,
    ensures
        find(with_first(e, k, find(e, k)->0), other) == find(e, other),
        with_first(e, k, find(e, k)->0)[0] == (k, find(e, k)->0),
{
    lemma_without_finds(e, k, other);
    lemma_first_found(k, find(e, k)->0, without(e, k), other);
}

proof fn lemma_missing(e: Seq<((Seq<char>, usize), Seq<char>)>, path: Seq<char>, lo: usize, hi: int, p: usize)
    requires
        hi <= usize::MAX,
    ensures
        missing(e, path, lo, hi).contains(p) <==> lo <= p < hi && find(e, (path, p)) is None,
        forall|i: int| 0 <= i < missing(e, path, lo, hi).len() ==> #[trigger] missing(e, path, lo, hi)[i] < hi,
        forall|i: int, j: int|
            0 <= i < j < missing(e, path, lo, hi).len() ==> #[trigger] missing(e, path, lo, hi)[i]
                < #[trigger] missing(e, path, lo, hi)[j],
    decreases hi - lo,
{
    if hi > lo {
        lemma_missing(e, path, lo, hi - 1, p);
        let few = missing(e, path, lo, hi - 1);
        let all = missing(e, path, lo, hi);
        let last = (hi - 1) as usize;
        if find(e, (path, last)) is None {
            assert(all == few.push(last));
            assert(all[few.len() as int] == last);
            if few.contains(p) {
                let i = choose|i: int| 0 <= i < few.len() && few[i] == p;
                assert(all[i] == p);
            }
            if all.contains(p) {
                let i = choose|i: int| 0 <= i < all.len() && all[i] == p;
                if i < few.len() {
                    assert(few[i] == p);
                }
            }
            assert forall|i: int| 0 <= i < all.len() implies #[trigger] all[i] < hi by {
                if i < few.len() {
                    assert(all[i] == few[i]);
                }
            }
            assert forall|i: int, j: int| 0 <= i < j < all.len() implies #[trigger] all[i] < #[trigger] all[j] by {
                assert(all[i] == few[i]);
                if j < few.len() {
                    assert(all[j] == few[j]);
                }
            }
        }
    }
}

/// The pages that are fetched are those from two before to two behind the shown one that the document
/// has and that are not kept already, in ascending order.
pub proof fn law_neighbouring_pages_are_fetched(
    e: Seq<((Seq<char>, usize), Seq<char>)>,
    path: Seq<char>,
    page: usize,
    total: usize,
    p: usize,
)
    requires
        page < total,
    ensures
        ({
            let pages = missing(
                e,
                path,
                window_start(page as int) as usize,
                window_end(page as int, total as int),
            );
            &&& pages.contains(p) <==> page - 2 <= p <= page + 2 && p < total && find(e, (path, p)) is None
            &&& forall|i: int, j: int| 0 <= i < j < pages.len() ==> #[trigger] pages[i] < #[trigger] pages[j]
        }),
{
    lemma_missing(e, path, window_start(page as int) as usize, window_end(page as int, total as int), p);
}

} // verus!
