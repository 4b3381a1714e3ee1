//! Paths and listings of remote file systems.

use crate::paths;
use crate::text;
use crate::text::{chars_of, decimal_of, same_text, string_of, strip_both, CharClass};
use chrono::DateTime;
use vstd::prelude::*;
use vstd::string::*;

verus! {

// ── paths ───────────────────────────────────────────────────────────────────

/// A path without white space around it, with one slash before it and none behind it.
pub open spec fn normalized(path: Seq<char>) -> Seq<char> {
    seq!['/'] + text::trim_both(text::trimmed(path), CharClass::Only('/'))
}

/// The path of `name` in the directory `parent`.
pub open spec fn joined(parent: Seq<char>, name: Seq<char>) -> Seq<char> {
    if normalized(parent) == seq!['/'] {
        seq!['/'] + name
    } else {
        normalized(parent) + seq!['/'] + name
    }
}

/// A path without white space around it, with one slash before it and none behind it.
pub fn normalize_path(path: &str) -> (r: String)
    ensures
        r@ == normalized(path@),
{
    let v = chars_of(path);
    let inner = strip_both(strip_both(v.as_slice(), CharClass::White), CharClass::Only('/'));
    let mut s = String::new();
    s.push('/');
    s.append(string_of(inner).as_str());
    assert(s@ =~= normalized(path@));
    s
}

/// The path of `name` in the directory `parent`.
pub fn join_remote(parent: &str, name: &str) -> (r: String)
    ensures
        r@ == joined(parent@, name@),
{
    let mut s = normalize_path(parent);
    proof {
        reveal_strlit("/");
        assert("/"@ =~= seq!['/']);
    }
    if same_text(s.as_str(), "/") {
        s.append(name);
    } else {
        s.push('/');
        s.append(name);
        assert(s@ =~= joined(parent@, name@));
    }
    s
}

/// Whatever was given, a normalized path starts with one slash and does not end with one,
/// unless it is the root.
pub proof fn law_normalized_shape(path: Seq<char>)
    ensures
        ({
            let p = normalized(path);
            &&& p.len() > 0
            &&& p[0] == '/'
            &&& p.len() > 1 ==> p[1] != '/' && p.last() != '/'
        }),
{
    let inner = text::trim_both(text::trimmed(path), CharClass::Only('/'));
    text::lemma_trim_both_ends(text::trimmed(path), CharClass::Only('/'));
    let p = normalized(path);
    if p.len() > 1 {
        assert(p[1] == inner[0]);
        assert(p.last() == inner.last());
    }
}

proof fn lemma_trim_nothing(s: Seq<char>, k: CharClass)
    requires
        s.len() > 0 ==> !k.has(s[0]) && !k.has(s.last()),
    ensures
        text::trim_both(s, k) == s,
{
}

/// Normalizing a path twice changes nothing more, unless white space stood between its slashes
/// and its name.
pub proof fn law_normalize_twice(path: Seq<char>)
    requires
        ({
            let p = normalized(path);
            p.len() > 1 ==> !text::is_white(p.last())
        }),
    ensures
        normalized(normalized(path)) == normalized(path),
{
    let slash = CharClass::Only('/');
    let p = normalized(path);
    let inner = text::trim_both(text::trimmed(path), slash);
    law_normalized_shape(path);
    assert(p =~= seq!['/'] + inner);
    assert(!text::is_white(p[0]));
    lemma_trim_nothing(p, CharClass::White);
    assert(p.drop_first() =~= inner);
    assert(text::trim_front(p, slash) == text::trim_front(inner, slash));
    if inner.len() > 0 {
        assert(inner[0] == p[1]);
        assert(inner.last() == p.last());
    }
    lemma_trim_nothing(inner, slash);
}

/// The last component of a joined path is the name that was joined.
pub proof fn law_joined_path_ends_with_the_name(parent: Seq<char>, name: Seq<char>)
    requires
        paths::is_plain_name(name),
    ensures
        paths::last_component(joined(parent, name)) == Some(name),
{
    let dir = if normalized(parent) == seq!['/'] {
        Seq::empty()
    } else {
        normalized(parent)
    };
    let slash = CharClass::Only('/');
    let whole = joined(parent, name);
    assert(whole =~= dir.push('/') + name);
    text::lemma_split_around(dir, '/', name, slash);
    assert forall|i: int| 0 <= i < name.len() implies !slash.has(#[trigger] name[i]) by {
        assert(name.contains(name[i]));
    }
    text::lemma_split_solid(name, slash);
    let parts = text::split(dir, slash) + seq![name];
    assert(parts.last() == name);
    assert(paths::components(parts).last() == name);
}

/// A name joined to a directory lies in that directory, unless the directory's own last
/// component is a single dot.
pub proof fn law_joined_path_lies_in_the_directory(parent: Seq<char>, name: Seq<char>)
    requires
        paths::is_plain_name(name),
        normalized(parent) == seq!['/'] || paths::bare(normalized(parent)) == normalized(parent),
    ensures
        paths::parent_of(joined(parent, name)) == Some(normalized(parent)),
{
    let empty = Seq::<char>::empty();
    if normalized(parent) == seq!['/'] {
        paths::law_parent_of_a_name(empty, name);
        assert(empty + seq!['/'] + name =~= joined(parent, name));
    } else {
        law_normalized_shape(parent);
        paths::law_parent_of_a_name(normalized(parent), name);
    }
}

// ── listings ────────────────────────────────────────────────────────────────

/// An entry of a remote directory.
pub struct RemoteEntry {
    pub name: String,
    pub path: String,
    pub is_dir: bool,
    pub is_symlink: bool,
    pub size: u64,
    pub modified_unix: i64,
    pub mode: u32,
}

/// An entry of a remote directory.
pub struct Entry {
    pub name: Seq<char>,
    pub path: Seq<char>,
    pub is_dir: bool,
    pub is_symlink: bool,
    pub size: u64,
    pub modified_unix: i64,
    pub mode: u32,
}

impl View for RemoteEntry {
    type V = Entry;

    open spec fn view(&self) -> Entry {
        Entry {
            name: self.name@,
            path: self.path@,
            is_dir: self.is_dir,
            is_symlink: self.is_symlink,
            size: self.size,
            modified_unix: self.modified_unix,
            mode: self.mode,
        }
    }
}

/// The views of some entries.
pub open spec fn entries_view(v: Seq<RemoteEntry>) -> Seq<Entry> {
    v.map_values(|e: RemoteEntry| e@)
}

/// The permissions of an entry: 0o755 for directories, 0o644 for files.
pub open spec fn mode_of(is_dir: bool) -> u32 {
    if is_dir {
        0o755
    } else {
        0o644
    }
}

/// An entry called `name` in the directory `cwd`.
pub open spec fn entry_in(
    cwd: Seq<char>,
    name: Seq<char>,
    is_dir: bool,
    size: Option<u64>,
    modified: Option<i64>,
) -> Entry {
    Entry {
        name,
        path: joined(cwd, name),
        is_dir,
        is_symlink: false,
        size: match size {
            Some(n) => n,
            None => 0,
        },
        modified_unix: match modified {
            Some(t) => t,
            None => 0,
        },
        mode: mode_of(is_dir),
    }
}

/// An entry called `name` in the directory `cwd`.
pub fn make_entry(cwd: &str, name: &str, is_dir: bool, size: Option<u64>, modified: Option<i64>) -> (r:
    RemoteEntry)
    ensures
        r@ == entry_in(cwd@, name@, is_dir, size, modified),
{
    RemoteEntry {
        name: name.to_string(),
        path: join_remote(cwd, name),
        is_dir,
        is_symlink: false,
        size: match size {
            Some(n) => n,
            None => 0,
        },
        modified_unix: match modified {
            Some(t) => t,
            None => 0,
        },
        mode: if is_dir { 0o755 } else { 0o644 },
    }
}

/// Whether an entry is listed: it has a name, and hidden ones only if they are asked for.
pub open spec fn is_listed(name: Seq<char>, show_hidden: bool) -> bool {
    name.len() > 0 && (show_hidden || name[0] != '.')
}

/// Whether an entry is listed.
pub fn listed(name: &str, show_hidden: bool) -> (r: bool)
    ensures
        r == is_listed(name@, show_hidden),
{
    let v = chars_of(name);
    v.len() > 0 && (show_hidden || v[0] != '.')
}

/// The time that `chrono::DateTime::parse_from_rfc3339` reads from a text, in seconds since
/// 1970.
pub uninterp spec fn rfc3339_unix(value: Seq<char>) -> Option<i64>;

/// `chrono::DateTime::parse_from_rfc3339`, and `timestamp` of what it gives.
#[verifier::external_body]
pub(crate) fn parse_rfc3339_unix(value: &str) -> (r: Option<i64>)
    ensures
        r == rfc3339_unix(value@),
{
    DateTime::parse_from_rfc3339(value).ok().map(|dt| dt.timestamp())
}

// ── order of names ──────────────────────────────────────────────────────────

/// `a` stands before `b`: at the first difference its character is smaller, or it ends there.
pub open spec fn before(a: Seq<char>, b: Seq<char>) -> bool
    decreases a.len(),
{
    if b.len() == 0 {
        false
    } else if a.len() == 0 {
        true
    } else if a[0] != b[0] {
        a[0] < b[0]
    } else {
        before(a.drop_first(), b.drop_first())
    }
}

/// Tests whether `a` stands before `b`.
pub fn comes_before(a: &str, b: &str) -> (r: bool)
    ensures
        r == before(a@, b@),
{
    let x = chars_of(a);
    let y = chars_of(b);
    let mut i: usize = 0;
    assert(a@.skip(0) =~= a@);
    assert(b@.skip(0) =~= b@);
    while i < x.len() && i < y.len()
        invariant
            x@ == a@,
            y@ == b@,
            i <= x@.len(),
            i <= y@.len(),
            before(a@.skip(i as int), b@.skip(i as int)) == before(a@, b@),
        decreases x@.len() - i,
    {
        assert(a@.skip(i as int).drop_first() =~= a@.skip(i + 1));
        assert(b@.skip(i as int).drop_first() =~= b@.skip(i + 1));
        if x[i] != y[i] {
            return x[i] < y[i];
        }
        i = i + 1;
    }
    i < y.len()
}

proof fn lemma_before_total(a: Seq<char>, b: Seq<char>)
    ensures
        !(before(a, b) && before(b, a)),
        !before(a, b) && !before(b, a) ==> a == b,
    decreases a.len(),
{
    if a.len() > 0 && b.len() > 0 && a[0] == b[0] {
        lemma_before_total(a.drop_first(), b.drop_first());
        if !before(a, b) && !before(b, a) {
            assert(a =~= seq![a[0]] + a.drop_first());
            assert(b =~= seq![b[0]] + b.drop_first());
        }
    } else if a.len() == 0 && b.len() == 0 {
        assert(a =~= b);
    }
}

proof fn lemma_before_transitive(a: Seq<char>, b: Seq<char>, c: Seq<char>)
    requires
        before(a, b),
        !before(c, b),
    ensures
        before(a, c),
    decreases a.len(),
{
    if a.len() > 0 && a[0] == b[0] && c.len() > 0 && b[0] == c[0] {
        lemma_before_transitive(a.drop_first(), b.drop_first(), c.drop_first());
    }
}

/// `a` does not stand behind `b`.
pub open spec fn in_order(a: Entry, b: Entry) -> bool {
    !before(b.name, a.name)
}

/// The entries stand in the order of their names.
pub open spec fn is_sorted(s: Seq<Entry>) -> bool {
    forall|i: int, j: int| 0 <= i <= j < s.len() ==> in_order(#[trigger] s[i], #[trigger] s[j])
}

/// `e` put into `s` behind everything that does not stand behind it.
pub open spec fn inserted(s: Seq<Entry>, e: Entry) -> Seq<Entry>
    decreases s.len(),
{
    if s.len() == 0 || in_order(s.last(), e) {
        s.push(e)
    } else {
        inserted(s.drop_last(), e).push(s.last())
    }
}

/// The entries in the order of their names; those with the same name stay in their order.
pub open spec fn sorted(s: Seq<Entry>) -> Seq<Entry>
    decreases s.len(),
{
    if s.len() == 0 {
        Seq::empty()
    } else {
        inserted(sorted(s.drop_last()), s.last())
    }
}

/// Puts `e` into `out` behind everything that does not stand behind it.
pub fn insert_entry(out: &mut Vec<RemoteEntry>, e: RemoteEntry)
    ensures
        entries_view(final(out)@) == inserted(entries_view(old(out)@), e@),
{
    let ghost all = entries_view(out@);
    let mut at: usize = out.len();
    assert(all.take(at as int) =~= all);
    assert(inserted(all, e@) =~= inserted(all.take(at as int), e@) + all.skip(at as int));
    let mut found = false;
    while at > 0 && !found
        invariant
            all == entries_view(out@),
            at <= out@.len(),
            inserted(all, e@) == inserted(all.take(at as int), e@) + all.skip(at as int),
            found ==> at > 0 && in_order(all[at - 1], e@),
        decreases at + (if found { 0int } else { 1 }),
    {
        assert(all[at - 1] == out@[at - 1]@);
        if comes_before(e.name.as_str(), out[at - 1].name.as_str()) {
            proof {
                let s = all.take(at as int);
                assert(s.last() == all[at - 1]);
                assert(s.drop_last() =~= all.take(at - 1));
                assert(inserted(s.drop_last(), e@).push(s.last()) + all.skip(at as int) =~= inserted(
                    all.take(at - 1),
                    e@,
                ) + all.skip(at - 1));
            }
            at = at - 1;
        } else {
            found = true;
        }
    }
    proof {
        let s = all.take(at as int);
        if at > 0 {
            assert(s.last() == all[at - 1]);
        }
        assert(inserted(s, e@) == s.push(e@));
    }
    let ghost before_insert = out@;
    let ghost added = e@;
    out.insert(at, e);
    assert(entries_view(out@) =~= all.take(at as int).push(added) + all.skip(at as int));
}

proof fn lemma_inserted_sorted(s: Seq<Entry>, e: Entry)
    requires
        is_sorted(s),
    ensures
        is_sorted(inserted(s, e)),
        forall|x: Entry| #[trigger] inserted(s, e).contains(x) <==> (s.contains(x) || x == e),
        inserted(s, e).len() == s.len() + 1,
    decreases s.len(),
{
    let r = inserted(s, e);
    if s.len() == 0 || in_order(s.last(), e) {
        assert forall|i: int, j: int| 0 <= i <= j < r.len() implies in_order(#[trigger] r[i], #[trigger] r[j]) by {
            lemma_before_total(e.name, e.name);
            if j < s.len() {
                assert(in_order(s[i], s[j]));
            } else if i < s.len() {
                assert(in_order(s[i], s[s.len() - 1]));
                lemma_order_chain(s[i], s.last(), e);
            }
        }
        assert forall|x: Entry| #[trigger] r.contains(x) <==> (s.contains(x) || x == e) by {
            if s.contains(x) {
                let i = choose|i: int| 0 <= i < s.len() && s[i] == x;
                assert(r[i] == x);
            }
            if x == e {
                assert(r[s.len() as int] == x);
            }
        }
    } else {
        let t = s.drop_last();
        assert forall|i: int, j: int| 0 <= i <= j < t.len() implies in_order(#[trigger] t[i], #[trigger] t[j]) by {
            assert(in_order(s[i], s[j]));
        }
        lemma_inserted_sorted(t, e);
        let q = inserted(t, e);
        assert forall|i: int, j: int| 0 <= i <= j < r.len() implies in_order(#[trigger] r[i], #[trigger] r[j]) by {
            if j < q.len() {
                assert(in_order(q[i], q[j]));
            } else if i < q.len() {
                assert(q.contains(q[i]));
                assert(t.contains(q[i]) || q[i] == e);
                if q[i] == e {
                    lemma_before_total(e.name, s.last().name);
                } else {
                    let k = choose|k: int| 0 <= k < t.len() && t[k] == q[i];
                    assert(in_order(s[k], s[s.len() - 1]));
                }
            } else {
                lemma_before_total(s.last().name, s.last().name);
            }
        }
        assert forall|x: Entry| #[trigger] r.contains(x) <==> (s.contains(x) || x == e) by {
            if r.contains(x) {
                let i = choose|i: int| 0 <= i < r.len() && r[i] == x;
                if i < q.len() {
                    assert(q.contains(q[i]));
                    if x != e {
                        let k = choose|k: int| 0 <= k < t.len() && t[k] == x;
                        assert(s[k] == x);
                    }
                } else {
                    assert(s[s.len() - 1] == x);
                }
            }
            if s.contains(x) {
                let k = choose|k: int| 0 <= k < s.len() && s[k] == x;
                if k < t.len() {
                    assert(t[k] == x);
                    assert(q.contains(x));
                    let i = choose|i: int| 0 <= i < q.len() && q[i] == x;
                    assert(r[i] == x);
                } else {
                    assert(r[q.len() as int] == x);
                }
            }
            if x == e {
                assert(q.contains(e));
                let i = choose|i: int| 0 <= i < q.len() && q[i] == e;
                assert(r[i] == x);
            }
        }
    }
}

proof fn lemma_order_chain(a: Entry, b: Entry, c: Entry)
    requires
        in_order(a, b),
        in_order(b, c),
    ensures
        in_order(a, c),
{
    lemma_before_total(c.name, a.name);
    if before(c.name, a.name) {
        lemma_before_transitive(c.name, a.name, b.name);
    }
}

/// A listing is in the order of its names and holds exactly the entries that were found.
pub proof fn law_listing_is_sorted(s: Seq<Entry>)
    ensures
        is_sorted(sorted(s)),
        sorted(s).len() == s.len(),
        forall|x: Entry| #[trigger] sorted(s).contains(x) <==> s.contains(x),
    decreases s.len(),
{
    if s.len() > 0 {
        let t = s.drop_last();
        law_listing_is_sorted(t);
        lemma_inserted_sorted(sorted(t), s.last());
        assert forall|x: Entry| #[trigger] sorted(s).contains(x) <==> s.contains(x) by {
            if s.contains(x) {
                let k = choose|k: int| 0 <= k < s.len() && s[k] == x;
                if k < t.len() {
                    assert(t[k] == x);
                }
            }
            if t.contains(x) {
                let k = choose|k: int| 0 <= k < t.len() && t[k] == x;
                assert(s[k] == x);
            }
            if x == s.last() {
                assert(s[s.len() - 1] == x);
            }
        }
    } else {
        assert(sorted(s) =~= s);
    }
}

/// The entries called `name`, in their order.
pub open spec fn called(s: Seq<Entry>, name: Seq<char>) -> Seq<Entry>
    decreases s.len(),
{
    if s.len() == 0 {
        Seq::empty()
    } else if s.last().name == name {
        called(s.drop_last(), name).push(s.last())
    } else {
        called(s.drop_last(), name)
    }
}

proof fn lemma_inserted_called(s: Seq<Entry>, e: Entry, name: Seq<char>)
    ensures
        called(inserted(s, e), name) == (if e.name == name {
            called(s, name).push(e)
        } else {
            called(s, name)
        }),
    decreases s.len(),
{
    if s.len() == 0 || in_order(s.last(), e) {
        assert(s.push(e).drop_last() =~= s);
    } else {
        let t = s.drop_last();
        lemma_inserted_called(t, e, name);
        lemma_before_total(e.name, s.last().name);
        assert(inserted(t, e).push(s.last()).drop_last() =~= inserted(t, e));
    }
}

/// Entries with the same name keep the order in which they were found.
pub proof fn law_listing_keeps_the_order_of_equals(s: Seq<Entry>, name: Seq<char>)
    ensures
        called(sorted(s), name) == called(s, name),
    decreases s.len(),
{
    if s.len() > 0 {
        law_listing_keeps_the_order_of_equals(s.drop_last(), name);
        lemma_inserted_called(sorted(s.drop_last()), s.last(), name);
    }
}

/// An HTTP error as it is told: the service, the status and the body of the answer.
pub open spec fn status_message(service: Seq<char>, code: int, body: Seq<char>) -> Seq<char> {
    service + " HTTP "@ + text::decimal(code) + ": "@ + body
}

/// An HTTP error as it is told.
pub fn http_status_message(service: &str, code: u16, body: &str) -> (r: String)
    ensures
        r@ == status_message(service@, code as int, body@),
{
    let mut s = service.to_string();
    s.append(" HTTP ");
    s.append(decimal_of(code as u64).as_str());
    s.append(": ");
    s.append(body);
    s
}

/// The value of the authorization header.
pub fn bearer(token: &str) -> (r: String)
    ensures
        r@ == "Bearer "@ + token@,
{
    let mut s = "Bearer ".to_string();
    s.append(token);
    s
}

/// The message for one listed entry in the debug log.
pub fn log_line(service: &str, cwd: &str, name: &str, path: &str) -> (r: String)
    ensures
        r@ == service@ + " list_dir: cwd="@ + cwd@ + ", name="@ + name@ + ", joined_path="@ + path@,
{
    let mut s = service.to_string();
    s.append(" list_dir: cwd=");
    s.append(cwd);
    s.append(", name=");
    s.append(name);
    s.append(", joined_path=");
    s.append(path);
    s
}

// ── laws of paths ───────────────────────────────────────────────────────────

/// The part of a path behind the first slash, as it should be: something, with neither a slash nor
/// white space at either end.
pub open spec fn is_inner(q: Seq<char>) -> bool {
    &&& q.len() > 0
    &&& q[0] != '/' && !text::is_white(q[0])
    &&& q.last() != '/' && !text::is_white(q.last())
}

/// A path is the same with and without a slash at its start and at its end; inside it nothing
/// changes. Nothing but slashes is the root.
pub proof fn law_paths_start_with_one_slash(q: Seq<char>)
    requires
        is_inner(q),
    ensures
        normalized(q) == seq!['/'] + q,
        normalized(seq!['/'] + q) == seq!['/'] + q,
        normalized(q + seq!['/']) == seq!['/'] + q,
        normalized(seq!['/'] + q + seq!['/']) == seq!['/'] + q,
        normalized(seq!['/']) == seq!['/'],
        normalized(Seq::empty()) == seq!['/'],
{
    let k = CharClass::Only('/');
    let w = CharClass::White;
    let slash = seq!['/'];
    assert(!text::is_white('/'));
    text::lemma_trim_nothing(q, w);
    text::lemma_trim_nothing(q, k);
    text::lemma_trim_nothing(slash + q, w);
    text::lemma_trim_nothing(q + slash, w);
    text::lemma_trim_nothing(slash + q + slash, w);
    text::lemma_trim_nothing(slash, w);
    assert((slash + q).drop_first() =~= q);
    assert(text::trim_front(slash + q, k) == q);
    assert((q + slash).drop_last() =~= q);
    assert(text::trim_back(q + slash, k) == q);
    assert((slash + q + slash).drop_first() =~= q + slash);
    assert(text::trim_front(q + slash, k) == q + slash);
    assert(text::trim_front(slash + q + slash, k) == q + slash);
    let none = Seq::<char>::empty();
    assert(slash.drop_first() =~= none);
    assert(text::trim_front(none, k) == none);
    assert(text::trim_front(slash, k) == none);
    assert(text::trim_back(none, k) == none);
    assert(slash + none =~= slash);
    assert(text::trimmed(none) == none);
}

/// What is joined to a folder is its path, a slash and the name; in the root there is but one slash.
pub proof fn law_names_stand_behind_their_folder(q: Seq<char>, name: Seq<char>)
    requires
        is_inner(q),
    ensures
        joined(seq!['/'] + q, name) == seq!['/'] + q + seq!['/'] + name,
        joined(q, name) == seq!['/'] + q + seq!['/'] + name,
        joined(seq!['/'], name) == seq!['/'] + name,
        joined(Seq::empty(), name) == seq!['/'] + name,
{
    law_paths_start_with_one_slash(q);
    assert((seq!['/'] + q).len() > 1);
}

// ── laws of the order ───────────────────────────────────────────────────────

/// Of two names the one with the lower character comes first where they differ first; a name comes
/// before every longer one that starts with it.
pub proof fn law_names_are_in_the_order_of_their_characters(a: Seq<char>, b: Seq<char>, k: int)
    requires
        0 <= k <= a.len(),
        k <= b.len(),
        forall|i: int| 0 <= i < k ==> #[trigger] a[i] == b[i],
    ensures
        k < a.len() && k < b.len() && a[k] < b[k] ==> before(a, b) && !before(b, a),
        k == a.len() && k < b.len() ==> before(a, b) && !before(b, a),
        k == a.len() && k == b.len() ==> !before(a, b) && !before(b, a),
    decreases k,
{
    if k > 0 {
        assert(a[0] == b[0]);
        let x = a.drop_first();
        let y = b.drop_first();
        assert forall|i: int| 0 <= i < k - 1 implies #[trigger] x[i] == y[i] by {
            assert(a[i + 1] == b[i + 1]);
        }
        law_names_are_in_the_order_of_their_characters(x, y, k - 1);
    }
}

/// White space around a path does not count.
pub proof fn law_white_space_around_a_path_does_not_count(a: Seq<char>, q: Seq<char>, b: Seq<char>)
    requires
        is_inner(q),
        forall|i: int| 0 <= i < a.len() ==> text::is_white(#[trigger] a[i]),
        forall|i: int| 0 <= i < b.len() ==> text::is_white(#[trigger] b[i]),
    ensures
        normalized(a + q + b) == seq!['/'] + q,
{
    let w = CharClass::White;
    let s = a + q + b;
    let at = text::law_trimming_takes_the_ends_only(s, w);
    let t = text::trimmed(s);
    let n = a.len() as int;
    let m = n + q.len();
    assert(s[n] == q[0]);
    assert(s[m - 1] == q.last());
    assert(at <= n) by {
        if at > n {
            assert(w.has(s[n]));
        }
    }
    assert(at + t.len() >= m) by {
        if at + t.len() < m {
            assert(w.has(s[m - 1]));
        }
    }
    assert(at >= n) by {
        if at < n {
            assert(t[0] == s[at]);
            assert(s[at] == a[at]);
        }
    }
    assert(at + t.len() <= m) by {
        if at + t.len() > m {
            assert(t.last() == s[at + t.len() - 1]);
            assert(s[at + t.len() - 1] == b[at + t.len() - 1 - m]);
        }
    }
    assert(t =~= q);
    law_paths_start_with_one_slash(q);
    text::lemma_trim_nothing(q, w);
}

/// Entries are looked at as they are: their number, their order, and everything about each.
pub proof fn law_entries_are_seen_as_they_are(v: Seq<RemoteEntry>, i: int)
    requires
        0 <= i < v.len(),
    ensures
        entries_view(v).len() == v.len(),
        entries_view(v)[i].name == v[i].name@,
        entries_view(v)[i].path == v[i].path@,
        entries_view(v)[i].is_dir == v[i].is_dir,
        entries_view(v)[i].is_symlink == v[i].is_symlink,
        entries_view(v)[i].size == v[i].size,
        entries_view(v)[i].modified_unix == v[i].modified_unix,
        entries_view(v)[i].mode == v[i].mode,
{
}

/// The message on a refused request has the service at its start and the answer at its end.
pub proof fn law_refusals_tell_service_code_and_answer(service: Seq<char>, code: int, body: Seq<char>)
    ensures
        ({
            let m = status_message(service, code, body);
            let n = text::decimal(code).len() as int;
            &&& m.len() == service.len() + 6 + n + 2 + body.len()
            &&& m.take(service.len() as int) == service
            &&& m.subrange(service.len() as int + 6, service.len() as int + 6 + n) == text::decimal(code)
            &&& m.skip(m.len() - body.len()) == body
        }),
{
    reveal_strlit(" HTTP ");
    reveal_strlit(": ");
    let m = status_message(service, code, body);
    let n = text::decimal(code).len() as int;
    assert(m.take(service.len() as int) =~= service);
    assert(m.subrange(service.len() as int + 6, service.len() as int + 6 + n) =~= text::decimal(code));
    assert(m.skip(m.len() - body.len()) =~= body);
}

} // verus!
