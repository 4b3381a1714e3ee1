//! Dropbox as a remote file system.

use crate::json;
use crate::json::Json;
use crate::paths;
use crate::remote;
use crate::remote::{bearer, insert_entry, listed, make_entry, parse_rfc3339_unix, Entry, RemoteEntry};
use crate::text;
use crate::text::{same_text, trim};
use serde_json::Value;
use vstd::prelude::*;
use vstd::string::*;

pub use crate::remote::{join_remote, normalize_path};

verus! {

/// Where the folders are listed.
pub const LIST_URL: &'static str = "https://api.dropboxapi.com/2/files/list_folder";

/// Where entries are deleted.
pub const DELETE_URL: &'static str = "https://api.dropboxapi.com/2/files/delete_v2";

/// Where folders are made.
pub const MAKE_DIR_URL: &'static str = "https://api.dropboxapi.com/2/files/create_folder_v2";

/// Where files are downloaded.
pub const DOWNLOAD_URL: &'static str = "https://content.dropboxapi.com/2/files/download";

/// Where files are uploaded.
pub const UPLOAD_URL: &'static str = "https://content.dropboxapi.com/2/files/upload";

/// The configuration of an account.
pub struct Config {
    pub access_token: String,
}

/// Accepts a configuration that has been read, if its token is not blank.
pub fn parse_config(parsed: Result<Config, String>) -> (r: Result<Config, String>)
    ensures
        parsed is Err ==> r == parsed,
        parsed is Ok && text::trimmed(parsed->Ok_0.access_token@).len() > 0 ==> r == parsed,
        parsed is Ok && text::trimmed(parsed->Ok_0.access_token@).len() == 0 ==> r is Err && r->Err_0@
            == "Dropbox access_token is required"@,
{
    match parsed {
        Ok(cfg) => {
            let token = trim(cfg.access_token.as_str());
            if token.as_str().unicode_len() == 0 {
                Err("Dropbox access_token is required".to_string())
            } else {
                Ok(cfg)
            }
        },
        Err(m) => Err(m),
    }
}

/// A path as the service wants it: the root is the empty path.
pub open spec fn service_path(path: Seq<char>) -> Seq<char> {
    if remote::normalized(path) == seq!['/'] {
        Seq::empty()
    } else {
        remote::normalized(path)
    }
}

/// A path as the service wants it: the root is the empty path.
pub fn dropbox_path(path: &str) -> (r: String)
    ensures
        r@ == service_path(path@),
{
    let p = normalize_path(path);
    proof {
        reveal_strlit("/");
        assert("/"@ =~= seq!['/']);
    }
    if same_text(p.as_str(), "/") {
        String::new()
    } else {
        p
    }
}

// ── requests ────────────────────────────────────────────────────────────────

/// The arguments of a request that only has a path.
pub open spec fn path_argument(path: Seq<char>) -> Json {
    Json::Object(Map::empty().insert("path"@, Json::Text(service_path(path))))
}

/// The arguments of a request to make a folder.
pub open spec fn make_dir_argument(path: Seq<char>) -> Json {
    Json::Object(json::fields_of(path_argument(path)).insert("autorename"@, Json::Bool(false)))
}

/// The arguments of an upload: never over an existing file, but beside it under another name.
pub open spec fn upload_argument(path: Seq<char>) -> Json {
    Json::Object(
        json::fields_of(path_argument(path)).insert("mode"@, Json::Text("add"@)).insert(
            "autorename"@,
            Json::Bool(true),
        ).insert("mute"@, Json::Bool(false)).insert("strict_conflict"@, Json::Bool(false)),
    )
}

fn path_object(path: &str) -> (r: Value)
    ensures
        json::model(r) == path_argument(path@),
{
    let mut v = json::empty_object();
    json::set_field(&mut v, "path", json::text_value(dropbox_path(path).as_str()));
    v
}

/// The body of a request for the entries of a folder, or to delete an entry.
pub fn path_body(path: &str) -> (r: String)
    ensures
        r@ == json::json_text(path_argument(path@)),
{
    json::value_text(&path_object(path))
}

/// The body of a request to make a folder.
pub fn make_dir_body(path: &str) -> (r: String)
    ensures
        r@ == json::json_text(make_dir_argument(path@)),
{
    let mut v = path_object(path);
    json::set_field(&mut v, "autorename", json::bool_value(false));
    json::value_text(&v)
}

/// The argument header of an upload.
pub fn upload_body(path: &str) -> (r: String)
    ensures
        r@ == json::json_text(upload_argument(path@)),
{
    let mut v = path_object(path);
    json::set_field(&mut v, "mode", json::text_value("add"));
    json::set_field(&mut v, "autorename", json::bool_value(true));
    json::set_field(&mut v, "mute", json::bool_value(false));
    json::set_field(&mut v, "strict_conflict", json::bool_value(false));
    json::value_text(&v)
}

/// A transfer that is to be made.
pub struct Transfer {
    pub authorization: String,
    /// The name of the local file.
    pub name: String,
    /// The path on the service.
    pub remote: String,
    /// The argument header.
    pub argument: String,
}

/// Plans a download into a file with the name `name` of the remote path.
pub fn download_named(
    recursive: bool,
    parsed: Result<Config, String>,
    remote_path: &str,
    name: Option<String>,
) -> (r: Result<Transfer, String>)
    ensures
        recursive ==> r is Err && r->Err_0@ == "Dropbox directory download is not implemented yet"@,
        !recursive ==> (match accepted(parsed) {
            Err(m) => r is Err && r->Err_0@ == m,
            Ok(token) => match name {
                None => r is Err && r->Err_0@ == "remote path has no file name"@,
                Some(n) => {
                    &&& r is Ok
                    &&& r->Ok_0.authorization@ == "Bearer "@ + token
                    &&& r->Ok_0.name@ == n@
                    &&& r->Ok_0.remote@ == remote::normalized(remote_path@)
                    &&& r->Ok_0.argument@ == json::json_text(
                        path_argument(remote::normalized(remote_path@)),
                    )
                },
            },
        }),
{
    if recursive {
        return Err("Dropbox directory download is not implemented yet".to_string());
    }
    let cfg = match parse_config(parsed) {
        Ok(cfg) => cfg,
        Err(m) => return Err(m),
    };
    let name = match name {
        Some(n) => n,
        None => return Err("remote path has no file name".to_string()),
    };
    let remote = normalize_path(remote_path);
    let argument = path_body(remote.as_str());
    Ok(Transfer { authorization: bearer(cfg.access_token.as_str()), name, remote, argument })
}

/// The token of a configuration that is accepted, or why it is not.
pub open spec fn accepted(parsed: Result<Config, String>) -> Result<Seq<char>, Seq<char>> {
    match parsed {
        Err(m) => Err(m@),
        Ok(cfg) => if text::trimmed(cfg.access_token@).len() == 0 {
            Err("Dropbox access_token is required"@)
        } else {
            Ok(cfg.access_token@)
        },
    }
}

/// Plans a download of the remote path.
pub fn download_plan(recursive: bool, parsed: Result<Config, String>, remote_path: &str) -> (r: Result<
    Transfer,
    String,
>)
    ensures
        recursive ==> r is Err && r->Err_0@ == "Dropbox directory download is not implemented yet"@,
        !recursive ==> (match accepted(parsed) {
            Err(m) => r is Err && r->Err_0@ == m,
            Ok(token) => {
                let path = remote::normalized(remote_path@);
                &&& r is Err ==> r->Err_0@ == "remote path has no file name"@
                &&& r is Ok ==> {
                    &&& r->Ok_0.authorization@ == "Bearer "@ + token
                    &&& r->Ok_0.remote@ == path
                    &&& r->Ok_0.argument@ == json::json_text(path_argument(path))
                }
                &&& paths::is_portable(path) ==> match paths::last_component(path) {
                    None => r is Err,
                    Some(n) => r is Ok && r->Ok_0.name@ == n,
                }
            },
        }),
{
    let remote = normalize_path(remote_path);
    let name = paths::file_name(remote.as_str());
    download_named(recursive, parsed, remote_path, name)
}

/// Plans an upload of a local file with the name `name` into the folder `remote_dir`.
pub fn upload_named(
    recursive: bool,
    parsed: Result<Config, String>,
    remote_dir: &str,
    name: Option<String>,
) -> (r: Result<Transfer, String>)
    ensures
        recursive ==> r is Err && r->Err_0@ == "Dropbox directory upload is not implemented yet"@,
        !recursive ==> (match accepted(parsed) {
            Err(m) => r is Err && r->Err_0@ == m,
            Ok(token) => match name {
                None => r is Err && r->Err_0@ == "local path has no file name"@,
                Some(n) => {
                    &&& r is Ok
                    &&& r->Ok_0.authorization@ == "Bearer "@ + token
                    &&& r->Ok_0.name@ == n@
                    &&& r->Ok_0.remote@ == remote::joined(remote_dir@, n@)
                    &&& r->Ok_0.argument@ == json::json_text(
                        upload_argument(remote::joined(remote_dir@, n@)),
                    )
                },
            },
        }),
{
    if recursive {
        return Err("Dropbox directory upload is not implemented yet".to_string());
    }
    let cfg = match parse_config(parsed) {
        Ok(cfg) => cfg,
        Err(m) => return Err(m),
    };
    let name = match name {
        Some(n) => n,
        None => return Err("local path has no file name".to_string()),
    };
    let remote = join_remote(remote_dir, name.as_str());
    let argument = upload_body(remote.as_str());
    Ok(Transfer { authorization: bearer(cfg.access_token.as_str()), name, remote, argument })
}

/// Plans an upload of the file at `local_path` into the folder `remote_dir`.
pub fn upload_plan(
    recursive: bool,
    parsed: Result<Config, String>,
    local_path: &str,
    remote_dir: &str,
) -> (r: Result<Transfer, String>)
    ensures
        recursive ==> r is Err && r->Err_0@ == "Dropbox directory upload is not implemented yet"@,
        !recursive ==> (match accepted(parsed) {
            Err(m) => r is Err && r->Err_0@ == m,
            Ok(token) => {
                &&& r is Err ==> r->Err_0@ == "local path has no file name"@
                &&& r is Ok ==> {
                    &&& r->Ok_0.authorization@ == "Bearer "@ + token
                    &&& r->Ok_0.remote@ == remote::joined(remote_dir@, r->Ok_0.name@)
                    &&& r->Ok_0.argument@ == json::json_text(upload_argument(r->Ok_0.remote@))
                }
                &&& paths::is_portable(local_path@) ==> match paths::last_component(local_path@) {
                    None => r is Err,
                    Some(n) => r is Ok && r->Ok_0.name@ == n,
                }
            },
        }),
{
    upload_named(recursive, parsed, remote_dir, paths::file_name(local_path))
}

// ── answers ─────────────────────────────────────────────────────────────────

/// The time of an entry: that of the service, or else that of the client.
pub open spec fn modified_of(e: Json) -> Option<i64> {
    let server = match json::text_field(e, "server_modified"@) {
        Some(t) => remote::rfc3339_unix(t),
        None => None,
    };
    match server {
        Some(t) => Some(t),
        None => match json::text_field(e, "client_modified"@) {
            Some(t) => remote::rfc3339_unix(t),
            None => None,
        },
    }
}

/// The name of an entry; empty where it has none.
pub open spec fn name_of(e: Json) -> Seq<char> {
    match json::text_field(e, "name"@) {
        Some(n) => n,
        None => ""@,
    }
}

/// An entry of the answer as an entry of the folder `cwd`.
pub open spec fn entry_of(e: Json, cwd: Seq<char>) -> Entry {
    remote::entry_in(
        cwd,
        name_of(e),
        json::text_field(e, ".tag"@) == Some("folder"@),
        json::unsigned_field(e, "size"@),
        modified_of(e),
    )
}

/// The entries that are listed, in the order of the answer.
pub open spec fn found(entries: Seq<Json>, cwd: Seq<char>, show_hidden: bool) -> Seq<Entry>
    decreases entries.len(),
{
    if entries.len() == 0 {
        Seq::empty()
    } else if remote::is_listed(name_of(entries.last()), show_hidden) {
        found(entries.drop_last(), cwd, show_hidden).push(entry_of(entries.last(), cwd))
    } else {
        found(entries.drop_last(), cwd, show_hidden)
    }
}

/// The listing of the folder `cwd` that an answer gives.
pub open spec fn listing(answer: Json, cwd: Seq<char>, show_hidden: bool) -> Result<Seq<Entry>, Seq<char>> {
    match json::field(answer, "entries"@) {
        Some(Json::List(entries)) => Ok(remote::sorted(found(entries, cwd, show_hidden))),
        _ => Err("Dropbox list_folder response has no entries"@),
    }
}

/// The views of a listing.
pub open spec fn listing_view(r: Result<Vec<RemoteEntry>, String>) -> Result<Seq<Entry>, Seq<char>> {
    match r {
        Ok(v) => Ok(remote::entries_view(v@)),
        Err(m) => Err(m@),
    }
}

fn parse_time(text: Option<&str>) -> (r: Option<i64>)
    ensures
        r == (match text {
            Some(t) => remote::rfc3339_unix(t@),
            None => None,
        }),
{
    match text {
        Some(t) => parse_rfc3339_unix(t),
        None => None,
    }
}

fn read_entry(e: &Value, cwd: &str, name: &str) -> (r: RemoteEntry)
    requires
        name@ == name_of(json::model(*e)),
    ensures
        r@ == entry_of(json::model(*e), cwd@),
{
    let is_dir = match json::get_text(e, ".tag") {
        Some(t) => same_text(t, "folder"),
        None => false,
    };
    let modified = match parse_time(json::get_text(e, "server_modified")) {
        Some(t) => Some(t),
        None => parse_time(json::get_text(e, "client_modified")),
    };
    make_entry(cwd, name, is_dir, json::get_unsigned(e, "size"), modified)
}

/// The listing of the folder `cwd` that an answer gives.
pub fn entries_of(answer: &Value, cwd: &str, show_hidden: bool) -> (r: Result<Vec<RemoteEntry>, String>)
    ensures
        listing_view(r) == listing(json::model(*answer), cwd@, show_hidden),
{
    let list = match json::get(answer, "entries") {
        Some(x) => json::as_list(x),
        None => None,
    };
    let items = match list {
        Some(items) => items,
        None => return Err("Dropbox list_folder response has no entries".to_string()),
    };
    let ghost all = json::models(items@);
    let mut out: Vec<RemoteEntry> = Vec::new();
    assert(remote::entries_view(out@) =~= remote::sorted(found(all.take(0), cwd@, show_hidden)));
    for i in 0..items.len()
        invariant
            all == json::models(items@),
            remote::entries_view(out@) == remote::sorted(found(all.take(i as int), cwd@, show_hidden)),
    {
        assert(all.take(i + 1).drop_last() =~= all.take(i as int));
        assert(all[i as int] == json::model(items@[i as int]));
        let name = match json::get_text(&items[i], "name") {
            Some(n) => n,
            None => "",
        };
        if listed(name, show_hidden) {
            let e = read_entry(&items[i], cwd, name);
            let ghost before = found(all.take(i as int), cwd@, show_hidden);
            assert(before.push(e@).drop_last() =~= before);
            insert_entry(&mut out, e);
        }
    }
    assert(all.take(all.len() as int) =~= all);
    Ok(out)
}

/// The listing of the folder `cwd` that the text of an answer gives.
pub fn list_entries(reply: &str, cwd: &str, show_hidden: bool) -> (r: Result<Vec<RemoteEntry>, String>)
    ensures
        json::document(reply@) matches Err(m) ==> r is Err && r->Err_0@ == m,
        json::document(reply@) matches Ok(answer) ==> listing_view(r) == listing(
            answer,
            cwd@,
            show_hidden,
        ),
{
    match json::parse_value(reply) {
        Ok(answer) => entries_of(&answer, cwd, show_hidden),
        Err(m) => Err(m),
    }
}

/// Accepts any answer that is JSON.
pub fn check_reply(reply: &str) -> (r: Result<(), String>)
    ensures
        r is Ok <==> json::document(reply@) is Ok,
        r is Err ==> r->Err_0@ == json::document(reply@)->Err_0,
{
    match json::parse_value(reply) {
        Ok(_) => Ok(()),
        Err(m) => Err(m),
    }
}

// ── laws of the listing ─────────────────────────────────────────────────────

proof fn lemma_found(items: Seq<Json>, cwd: Seq<char>, show_hidden: bool, i: int)
    requires
        0 <= i < items.len(),
        remote::is_listed(name_of(items[i]), show_hidden),
    ensures
        found(items, cwd, show_hidden).contains(entry_of(items[i], cwd)),
    decreases items.len(),
{
    let all = found(items, cwd, show_hidden);
    let few = found(items.drop_last(), cwd, show_hidden);
    if i < items.len() - 1 {
        lemma_found(items.drop_last(), cwd, show_hidden, i);
        assert(items.drop_last()[i] == items[i]);
        let j = choose|j: int| 0 <= j < few.len() && few[j] == entry_of(items[i], cwd);
        assert(all[j] == few[j]);
    } else {
        assert(all[all.len() - 1] == entry_of(items[i], cwd));
    }
}

/// How many items have a name and are not hidden.
pub open spec fn items_to_list(items: Seq<Json>, show_hidden: bool) -> nat
    decreases items.len(),
{
    if items.len() == 0 {
        0
    } else {
        items_to_list(items.drop_last(), show_hidden) + (match json::text_field(items.last(), "name"@) {
            Some(name) if name.len() > 0 && (show_hidden || name[0] != '.') => 1nat,
            _ => 0nat,
        })
    }
}

proof fn lemma_found_count(items: Seq<Json>, cwd: Seq<char>, show_hidden: bool)
    ensures
        found(items, cwd, show_hidden).len() == items_to_list(items, show_hidden),
    decreases items.len(),
{
    reveal_strlit("");
    if items.len() > 0 {
        lemma_found_count(items.drop_last(), cwd, show_hidden);
    }
}

/// Every item of the answer with a name that is not hidden is in the listing: with its name, its path
/// in the folder, its size, its time and whether it is a folder, each as the item says, and zero
/// where it does not say. The listing has nothing else, and is in the order of the names.
pub proof fn law_listing_tells_of_every_item(
    answer: Json,
    items: Seq<Json>,
    cwd: Seq<char>,
    show_hidden: bool,
    i: int,
    name: Seq<char>,
)
    requires
        json::field(answer, "entries"@) == Some(Json::List(items)),
        0 <= i < items.len(),
        json::text_field(items[i], "name"@) == Some(name),
        name.len() > 0,
        show_hidden || name[0] != '.',
    ensures
        listing(answer, cwd, show_hidden) is Ok,
        ({
            let l = listing(answer, cwd, show_hidden)->Ok_0;
            let is_dir = json::text_field(items[i], ".tag"@) == Some("folder"@);
            &&& l.len() == items_to_list(items, show_hidden)
            &&& forall|j: int, k: int|
                0 <= j < k < l.len() ==> !remote::before((#[trigger] l[k]).name, (#[trigger] l[j]).name)
            &&& l.contains(
                Entry {
                    name,
                    path: remote::joined(cwd, name),
                    is_dir,
                    is_symlink: false,
                    size: match json::unsigned_field(items[i], "size"@) {
                        Some(n) => n,
                        None => 0,
                    },
                    modified_unix: match (
                        json::text_field(items[i], "server_modified"@),
                        json::text_field(items[i], "client_modified"@),
                    ) {
                        (Some(t), Some(u)) => match (remote::rfc3339_unix(t), remote::rfc3339_unix(u)) {
                            (Some(unix), _) => unix,
                            (None, Some(unix)) => unix,
                            (None, None) => 0,
                        },
                        (Some(t), None) | (None, Some(t)) => match remote::rfc3339_unix(t) {
                            Some(unix) => unix,
                            None => 0,
                        },
                        (None, None) => 0,
                    },
                    mode: if is_dir {
                        0o755
                    } else {
                        0o644
                    },
                },
            )
        }),
{
    let all = found(items, cwd, show_hidden);
    lemma_found(items, cwd, show_hidden, i);
    lemma_found_count(items, cwd, show_hidden);
    remote::law_listing_is_sorted(all);
    let l = remote::sorted(all);
    assert(l.contains(entry_of(items[i], cwd)));
    assert forall|j: int, k: int| 0 <= j < k < l.len() implies !remote::before(
        (#[trigger] l[k]).name,
        (#[trigger] l[j]).name,
    ) by {
        assert(remote::in_order(l[j], l[k]));
    }
}

/// An entry of the listing is an item of the answer.
pub proof fn law_listing_has_only_items(
    answer: Json,
    items: Seq<Json>,
    cwd: Seq<char>,
    show_hidden: bool,
    e: Entry,
)
    requires
        json::field(answer, "entries"@) == Some(Json::List(items)),
        listing(answer, cwd, show_hidden)->Ok_0.contains(e),
    ensures
        exists|i: int|
            0 <= i < items.len() && json::text_field(#[trigger] items[i], "name"@) == Some(e.name),
        e.name.len() > 0,
        show_hidden || e.name[0] != '.',
{
    let all = found(items, cwd, show_hidden);
    remote::law_listing_is_sorted(all);
    assert(all.contains(e));
    lemma_found_item(items, cwd, show_hidden, e);
}

proof fn lemma_found_item(items: Seq<Json>, cwd: Seq<char>, show_hidden: bool, e: Entry)
    requires
        found(items, cwd, show_hidden).contains(e),
    ensures
        exists|i: int|
            0 <= i < items.len() && json::text_field(#[trigger] items[i], "name"@) == Some(e.name),
        e.name.len() > 0,
        show_hidden || e.name[0] != '.',
    decreases items.len(),
{
    reveal_strlit("");
    let all = found(items, cwd, show_hidden);
    if items.len() > 0 {
        let head = items.drop_last();
        let few = found(head, cwd, show_hidden);
        let j = choose|j: int| 0 <= j < all.len() && all[j] == e;
        if j < few.len() {
            assert(few[j] == e);
            lemma_found_item(head, cwd, show_hidden, e);
            let i = choose|i: int|
                0 <= i < head.len() && json::text_field(#[trigger] head[i], "name"@) == Some(e.name);
            assert(items[i] == head[i]);
        } else {
            assert(e == entry_of(items.last(), cwd));
            assert(json::text_field(items[items.len() - 1], "name"@) == Some(e.name));
        }
    }
}

/// An answer without a list of items is refused.
pub proof fn law_answers_without_items_are_refused(answer: Json, cwd: Seq<char>, show_hidden: bool)
    requires
        !(json::field(answer, "entries"@) matches Some(Json::List(_))),
    ensures
        listing(answer, cwd, show_hidden) is Err,
{
}

// ── laws of the requests ────────────────────────────────────────────────────

/// A path is sent as it is, with one slash at its start; the root is the empty text.
pub proof fn law_paths_are_sent_as_they_are(q: Seq<char>)
    requires
        remote::is_inner(q),
    ensures
        service_path(seq!['/'] + q) == seq!['/'] + q,
        service_path(q) == seq!['/'] + q,
        service_path(seq!['/']).len() == 0,
        service_path(Seq::empty()).len() == 0,
{
    remote::law_paths_start_with_one_slash(q);
    assert((seq!['/'] + q).len() > 1);
}

/// Every request names its path. A folder is made under its own name or not at all; a file that is
/// there already is kept, and the new one gets another name.
pub proof fn law_requests_name_their_path(path: Seq<char>)
    ensures
        json::text_field(path_argument(path), "path"@) == Some(service_path(path)),
        json::text_field(make_dir_argument(path), "path"@) == Some(service_path(path)),
        json::field(make_dir_argument(path), "autorename"@) == Some(Json::Bool(false)),
        json::text_field(upload_argument(path), "path"@) == Some(service_path(path)),
        json::text_field(upload_argument(path), "mode"@) == Some("add"@),
        json::field(upload_argument(path), "autorename"@) == Some(Json::Bool(true)),
        json::field(upload_argument(path), "mute"@) == Some(Json::Bool(false)),
        json::field(upload_argument(path), "strict_conflict"@) == Some(Json::Bool(false)),
{
    reveal_strlit("path");
    reveal_strlit("mode");
    reveal_strlit("mute");
    reveal_strlit("autorename");
    reveal_strlit("strict_conflict");
    assert("path"@[0] == 'p' && "mode"@[1] == 'o' && "mute"@[1] == 'u' && "mode"@[0] == 'm');
    assert("path"@.len() == 4 && "autorename"@.len() == 10 && "strict_conflict"@.len() == 15 && "mode"@.len() == 4);
    assert("mute"@[0] == 'm' && "mute"@.len() == 4);
}

/// A configuration is accepted if its token is not blank, and the token is used as it is.
pub proof fn law_token_is_used(cfg: Config)
    ensures
        text::solid(cfg.access_token@).len() > 0 ==> accepted(Ok(cfg)) == Ok::<Seq<char>, Seq<char>>(
            cfg.access_token@,
        ),
        text::solid(cfg.access_token@).len() == 0 ==> accepted(Ok(cfg)) is Err,
{
    let t = cfg.access_token@;
    text::lemma_trimmed_solid(t);
    text::lemma_trim_both_ends(t, text::CharClass::White);
    let u = text::trimmed(t);
    if u.len() > 0 {
        assert(text::solid(u).len() > 0);
    } else {
        assert(text::solid(u).len() == 0);
    }
}

/// A listing is looked at as it is.
pub proof fn law_listings_are_seen_as_they_are(r: Result<Vec<RemoteEntry>, String>)
    ensures
        r is Ok ==> listing_view(r) == Ok::<Seq<Entry>, Seq<char>>(remote::entries_view(r->Ok_0@)),
        r is Err ==> listing_view(r) == Err::<Seq<Entry>, Seq<char>>(r->Err_0@),
{
}

} // verus!
