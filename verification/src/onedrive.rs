//! OneDrive as a remote file system, through Microsoft Graph.

use crate::json;
use crate::json::Json;
use crate::paths;
use crate::remote;
use crate::remote::{insert_entry, listed, make_entry, parse_rfc3339_unix, Entry, RemoteEntry};
use crate::text;
use crate::text::{chars_of, same_text, string_of, strip_both, trim_part, words_of, CharClass};
use percent_encoding::{utf8_percent_encode, NON_ALPHANUMERIC};
use serde_json::Value;
use vstd::prelude::*;
use vstd::string::*;
use vstd::utf8::*;

pub use crate::remote::{join_remote, normalize_path};

verus! {

/// The root of the drive.
pub const GRAPH_ROOT: &'static str = "https://graph.microsoft.com/v1.0/me/drive/root";

/// The key of this application, where the configuration names none.
pub const APP_KEY: &'static str = "b325403f-549c-4988-ba73-81d38df9ac4f";

/// What is asked for where the configuration names nothing.
pub const DEFAULT_SCOPES: &'static str = "offline_access Files.ReadWrite.All";

/// The configuration of an account.
pub struct Config {
    pub access_token: Option<String>,
    pub refresh_token: Option<String>,
    pub app_key: Option<String>,
    pub client_id: Option<String>,
    pub tenant: Option<String>,
    pub scopes: Option<String>,
}

// ── configuration ───────────────────────────────────────────────────────────

/// A value without the white space around it; none where nothing is left.
pub open spec fn given(value: Option<Seq<char>>) -> Option<Seq<char>> {
    match value {
        Some(s) => if text::trimmed(s).len() > 0 {
            Some(text::trimmed(s))
        } else {
            None
        },
        None => None,
    }
}

/// A value without the white space around it; none where nothing is left.
pub fn optional_value<'a>(value: Option<&'a str>) -> (r: Option<&'a str>)
    ensures
        match r {
            Some(s) => value is Some && given(Some(value->0@)) == Some(s@),
            None => value is None || given(Some(value->0@)) is None,
        },
{
    match value {
        Some(s) => {
            let t = trim_part(s);
            if t.unicode_len() > 0 {
                Some(t)
            } else {
                None
            }
        },
        None => None,
    }
}

fn field_value<'a>(value: &'a Option<String>) -> (r: Option<&'a str>)
    ensures
        match r {
            Some(s) => given(paths::text_of(*value)) == Some(s@),
            None => given(paths::text_of(*value)) is None,
        },
{
    match value {
        Some(s) => optional_value(Some(s.as_str())),
        None => None,
    }
}

fn field_or<'a>(value: &'a Option<String>, other: &'a str) -> (r: &'a str)
    ensures
        r@ == or_else(given(paths::text_of(*value)), other@),
{
    match field_value(value) {
        Some(s) => s,
        None => other,
    }
}

/// A value, or another one where there is none.
pub open spec fn or_else(value: Option<Seq<char>>, other: Seq<char>) -> Seq<char> {
    match value {
        Some(s) => s,
        None => other,
    }
}

impl Config {
    /// The key of the application: `app_key`, or else `client_id`, or else this one's.
    pub open spec fn client(self) -> Seq<char> {
        match given(paths::text_of(self.app_key)) {
            Some(s) => s,
            None => or_else(given(paths::text_of(self.client_id)), APP_KEY@),
        }
    }

    pub open spec fn tenant_used(self) -> Seq<char> {
        or_else(given(paths::text_of(self.tenant)), "common"@)
    }

    pub open spec fn scopes_used(self) -> Seq<char> {
        or_else(given(paths::text_of(self.scopes)), DEFAULT_SCOPES@)
    }
}

/// The key of the application.
pub fn onedrive_client_id(cfg: &Config) -> (r: Option<&str>)
    ensures
        r is Some,
        r->0@ == cfg.client(),
{
    match field_value(&cfg.app_key) {
        Some(s) => Some(s),
        None => match field_value(&cfg.client_id) {
            Some(s) => Some(s),
            None => Some(APP_KEY),
        },
    }
}

/// The text that is read as the configuration: an empty object for a blank one.
pub fn config_text(raw: &str) -> (r: &str)
    ensures
        r@ == (if text::trimmed(raw@).len() == 0 {
            "{}"@
        } else {
            raw@
        }),
{
    if trim_part(raw).unicode_len() == 0 {
        "{}"
    } else {
        raw
    }
}

/// What is wrong with a configuration, if anything is: without an access token it needs a
/// refresh token.
pub open spec fn config_fault(parsed: Result<Config, String>) -> Option<Seq<char>> {
    match parsed {
        Err(m) => Some(m@),
        Ok(cfg) => if given(paths::text_of(cfg.access_token)) is None && given(
            paths::text_of(cfg.refresh_token),
        ) is None {
            Some("OneDrive refresh_token is required"@)
        } else {
            None
        },
    }
}

/// Accepts a configuration that has been read, if it holds a token.
pub fn parse_config(parsed: Result<Config, String>) -> (r: Result<Config, String>)
    ensures
        r is Err <==> config_fault(parsed) is Some,
        r is Err ==> r->Err_0@ == config_fault(parsed)->0,
        r is Ok ==> r == parsed,
{
    match parsed {
        Ok(cfg) => {
            if field_value(&cfg.access_token).is_some() {
                return Ok(cfg);
            }
            if field_value(&cfg.refresh_token).is_none() {
                return Err("OneDrive refresh_token is required".to_string());
            }
            if onedrive_client_id(&cfg).is_none() {
                return Err("OneDrive app_key is required".to_string());
            }
            Ok(cfg)
        },
        Err(m) => Err(m),
    }
}

// ── escaping ────────────────────────────────────────────────────────────────

/// An ASCII letter or digit.
pub open spec fn is_alphanumeric(b: u8) -> bool {
    (0x30 <= b <= 0x39) || (0x41 <= b <= 0x5A) || (0x61 <= b <= 0x7A)
}

/// A byte in an address: letters and digits as they are, all others as a percent sign and two
/// hexadecimal digits.
pub open spec fn byte_code(b: u8) -> Seq<char> {
    if is_alphanumeric(b) {
        seq![b as char]
    } else {
        seq!['%', text::digit_char((b / 16) as nat), text::digit_char((b % 16) as nat)]
    }
}

/// Bytes in an address.
pub open spec fn percent(b: Seq<u8>) -> Seq<char>
    decreases b.len(),
{
    if b.len() == 0 {
        Seq::empty()
    } else {
        byte_code(b[0]) + percent(b.drop_first())
    }
}

/// A text in an address.
pub open spec fn escaped(s: Seq<char>) -> Seq<char> {
    percent(encode_utf8(s))
}

/// `percent_encoding::utf8_percent_encode` with `NON_ALPHANUMERIC`.
#[verifier::external_body]
fn escape(s: &str) -> (r: String)
    ensures
        r@ == escaped(s@),
{
    utf8_percent_encode(s, NON_ALPHANUMERIC).to_string()
}

/// The value of a hexadecimal digit in upper case.
pub open spec fn digit_value(c: char) -> int {
    if c <= '9' {
        c as int - 48
    } else {
        c as int - 55
    }
}

/// The bytes that stand in an address.
pub open spec fn unescaped(s: Seq<char>) -> Seq<u8>
    decreases s.len(),
{
    if s.len() == 0 {
        Seq::empty()
    } else if s[0] == '%' && s.len() >= 3 {
        seq![(16 * digit_value(s[1]) + digit_value(s[2])) as u8] + unescaped(s.skip(3))
    } else {
        seq![s[0] as u8] + unescaped(s.skip(1))
    }
}

/// Nothing is lost in an address: the bytes can be read from it again.
pub proof fn law_escaping_can_be_undone(b: Seq<u8>)
    ensures
        unescaped(percent(b)) == b,
    decreases b.len(),
{
    if b.len() > 0 {
        let rest = b.drop_first();
        law_escaping_can_be_undone(rest);
        let s = percent(b);
        let first = b[0];
        if is_alphanumeric(first) {
            assert(s[0] == first as char);
            assert(s.skip(1) =~= percent(rest));
            assert(first as char != '%');
        } else {
            let code = byte_code(first);
            assert(s[0] == code[0] && s[1] == code[1] && s[2] == code[2]);
            assert(s.skip(3) =~= percent(rest));
            assert(16 * digit_value(s[1]) + digit_value(s[2]) == first);
        }
        assert(unescaped(s) =~= seq![first] + rest);
        assert(seq![first] + rest =~= b);
    } else {
        assert(unescaped(percent(b)) =~= b);
    }
}

/// Different texts stand differently in an address.
pub proof fn law_escaping_keeps_texts_apart(a: Seq<char>, b: Seq<char>)
    requires
        escaped(a) == escaped(b),
    ensures
        a == b,
{
    law_escaping_can_be_undone(encode_utf8(a));
    law_escaping_can_be_undone(encode_utf8(b));
    encode_utf8_decode_utf8(a);
    encode_utf8_decode_utf8(b);
}

/// An escaped text holds only letters, digits and percent signs, so no separator of an
/// address.
pub proof fn law_escaped_text_is_harmless(b: Seq<u8>, i: int)
    requires
        0 <= i < percent(b).len(),
    ensures
        ({
            let c = percent(b)[i];
            c == '%' || '0' <= c <= '9' || 'A' <= c <= 'Z' || 'a' <= c <= 'z'
        }),
    decreases b.len(),
{
    let code = byte_code(b[0]);
    if i < code.len() {
        assert(percent(b)[i] == code[i]);
    } else {
        law_escaped_text_is_harmless(b.drop_first(), i - code.len());
        assert(percent(b)[i] == percent(b.drop_first())[i - code.len()]);
    }
}

/// The views of some fields.
pub open spec fn fields_view(fields: Seq<(&str, &str)>) -> Seq<(Seq<char>, Seq<char>)> {
    fields.map_values(|f: (&str, &str)| (f.0@, f.1@))
}

/// Fields of a form: names and values with equals signs between them, fields with ampersands
/// between them.
pub open spec fn form(fields: Seq<(Seq<char>, Seq<char>)>) -> Seq<char>
    decreases fields.len(),
{
    if fields.len() == 0 {
        Seq::empty()
    } else {
        let last = escaped(fields.last().0) + "="@ + escaped(fields.last().1);
        if fields.len() == 1 {
            last
        } else {
            form(fields.drop_last()) + "&"@ + last
        }
    }
}

/// The body of a form.
pub fn form_urlencoded(fields: &[(&str, &str)]) -> (r: String)
    ensures
        r@ == form(fields_view(fields@)),
{
    let ghost all = fields_view(fields@);
    let mut out = String::new();
    for i in 0..fields.len()
        invariant
            all == fields_view(fields@),
            out@ == form(all.take(i as int)),
    {
        assert(all.take(i + 1).drop_last() =~= all.take(i as int));
        let (name, value) = fields[i];
        assert(all.take(i + 1).last() == (name@, value@));
        let mut one = escape(name);
        one.append("=");
        one.append(escape(value).as_str());
        if i > 0 {
            out.append("&");
            out.append(one.as_str());
            assert(out@ =~= form(all.take(i + 1)));
        } else {
            out = one;
        }
    }
    assert(all.take(all.len() as int) =~= all);
    out
}

// ── addresses ───────────────────────────────────────────────────────────────

/// The parts of a path, escaped, each with a slash before it.
pub open spec fn escaped_parts(parts: Seq<Seq<char>>) -> Seq<char>
    decreases parts.len(),
{
    if parts.len() == 0 {
        Seq::empty()
    } else {
        escaped_parts(parts.drop_last()).push('/') + escaped(parts.last())
    }
}

/// A path in an address.
pub open spec fn escaped_path(path: Seq<char>) -> Seq<char> {
    escaped_parts(text::words(remote::normalized(path), CharClass::Only('/')))
}

/// A path in an address.
pub fn encode_graph_path(path: &str) -> (r: String)
    ensures
        r@ == escaped_path(path@),
{
    let v = chars_of(normalize_path(path).as_str());
    let parts = words_of(v.as_slice(), CharClass::Only('/'));
    let ghost all = text::words(remote::normalized(path@), CharClass::Only('/'));
    let mut out = String::new();
    assert(text::texts(parts@).len() == parts@.len());
    for i in 0..parts.len()
        invariant
            all == text::texts(parts@),
            out@ == escaped_parts(all.take(i as int)),
    {
        assert(all.take(i + 1).drop_last() =~= all.take(i as int));
        assert(all[i as int] == parts@[i as int]@);
        out.push('/');
        out.append(escape(parts[i].as_str()).as_str());
    }
    assert(all.take(all.len() as int) =~= all);
    out
}

/// The address of the item at `path`, with a suffix behind it.
pub open spec fn item_url(path: Seq<char>, suffix: Seq<char>) -> Seq<char> {
    let tail = text::trim_both(suffix, CharClass::Only('/'));
    let p = remote::normalized(path);
    if p == seq!['/'] {
        if tail.len() == 0 {
            GRAPH_ROOT@
        } else {
            GRAPH_ROOT@ + "/"@ + tail
        }
    } else if tail.len() == 0 {
        GRAPH_ROOT@ + ":"@ + escaped_path(p) + ":"@
    } else {
        GRAPH_ROOT@ + ":"@ + escaped_path(p) + ":/"@ + tail
    }
}

/// The address of the item at `path`, with a suffix behind it.
pub fn graph_item_url(path: &str, suffix: &str) -> (r: String)
    ensures
        r@ == item_url(path@, suffix@),
{
    let p = normalize_path(path);
    let v = chars_of(suffix);
    let tail = string_of(strip_both(v.as_slice(), CharClass::Only('/')));
    proof {
        reveal_strlit("/");
        assert("/"@ =~= seq!['/']);
    }
    let bare = tail.as_str().unicode_len() == 0;
    let mut url = GRAPH_ROOT.to_string();
    if same_text(p.as_str(), "/") {
        if !bare {
            url.append("/");
            url.append(tail.as_str());
        }
    } else {
        url.append(":");
        url.append(encode_graph_path(p.as_str()).as_str());
        if bare {
            url.append(":");
        } else {
            url.append(":/");
            url.append(tail.as_str());
        }
    }
    url
}

// ── tokens ──────────────────────────────────────────────────────────────────

/// A form that is to be sent.
pub struct FormRequest {
    pub url: String,
    pub body: String,
}

/// How an access token is had.
pub enum Access {
    /// The configuration holds it.
    Ready(String),
    /// The answer to this form holds it.
    Refresh(FormRequest),
}

/// An address of the sign-in service.
pub open spec fn login_url(tenant: Seq<char>, action: Seq<char>) -> Seq<char> {
    "https://login.microsoftonline.com/"@ + tenant + "/oauth2/v2.0/"@ + action
}

fn make_login_url(tenant: &str, action: &str) -> (r: String)
    ensures
        r@ == login_url(tenant@, action@),
{
    let mut s = "https://login.microsoftonline.com/".to_string();
    s.append(tenant);
    s.append("/oauth2/v2.0/");
    s.append(action);
    s
}

/// The fields of a request to refresh a token.
pub open spec fn refresh_fields(cfg: Config, refresh_token: Seq<char>) -> Seq<(Seq<char>, Seq<char>)> {
    seq![
        ("client_id"@, cfg.client()),
        ("grant_type"@, "refresh_token"@),
        ("refresh_token"@, refresh_token),
        ("scope"@, cfg.scopes_used()),
    ]
}

/// Address and form of a request that refreshes a token.
pub open spec fn refresh_request(cfg: Config, token: Seq<char>) -> (Seq<char>, Seq<char>) {
    (login_url(cfg.tenant_used(), "token"@), form(refresh_fields(cfg, token)))
}

/// Address and form of the request that starts signing in.
pub open spec fn start_request(cfg: Config) -> (Seq<char>, Seq<char>) {
    (
        login_url(cfg.tenant_used(), "devicecode"@),
        form(seq![("client_id"@, cfg.client()), ("scope"@, cfg.scopes_used())]),
    )
}

/// Address and form of the request that exchanges the code of a session for a token.
pub open spec fn exchange_request(session: Json, code: Seq<char>) -> (Seq<char>, Seq<char>) {
    (
        login_url(session_text(session, "tenant"@, "common"@), "token"@),
        form(
            seq![
                ("client_id"@, session_text(session, "client_id"@, APP_KEY@)),
                ("grant_type"@, "urn:ietf:params:oauth:grant-type:device_code"@),
                ("device_code"@, code),
            ],
        ),
    )
}

/// The form that asks for a new access token.
pub fn refresh_access_token(cfg: &Config) -> (r: Result<FormRequest, String>)
    ensures
        match given(paths::text_of(cfg.refresh_token)) {
            Some(token) => {
                &&& r is Ok
                &&& r->Ok_0.url@ == login_url(cfg.tenant_used(), "token"@)
                &&& r->Ok_0.body@ == form(refresh_fields(*cfg, token))
                &&& (r->Ok_0.url@, r->Ok_0.body@) == refresh_request(*cfg, token)
            },
            None => r is Err && r->Err_0@ == "OneDrive refresh_token is required"@,
        },
{
    let token = match field_value(&cfg.refresh_token) {
        Some(t) => t,
        None => return Err("OneDrive refresh_token is required".to_string()),
    };
    let client_id = match onedrive_client_id(cfg) {
        Some(c) => c,
        None => return Err("OneDrive app_key is required".to_string()),
    };
    let tenant = field_or(&cfg.tenant, "common");
    let scopes = field_or(&cfg.scopes, DEFAULT_SCOPES);
    let fields = [
        ("client_id", client_id),
        ("grant_type", "refresh_token"),
        ("refresh_token", token),
        ("scope", scopes),
    ];
    assert(fields_view(fields@) =~= refresh_fields(*cfg, token@));
    Ok(FormRequest { url: make_login_url(tenant, "token"), body: form_urlencoded(&fields) })
}

/// How an access token is had: from the configuration where it holds one, else by refreshing.
pub fn access_token(cfg: &Config) -> (r: Result<Access, String>)
    ensures
        match given(paths::text_of(cfg.access_token)) {
            Some(token) => r matches Ok(Access::Ready(t)) && t@ == token,
            None => match given(paths::text_of(cfg.refresh_token)) {
                Some(token) => {
                    &&& r matches Ok(Access::Refresh(f))
                    &&& f.url@ == login_url(cfg.tenant_used(), "token"@)
                    &&& f.body@ == form(refresh_fields(*cfg, token))
                    &&& (f.url@, f.body@) == refresh_request(*cfg, token)
                },
                None => r is Err && r->Err_0@ == "OneDrive refresh_token is required"@,
            },
        },
{
    match field_value(&cfg.access_token) {
        Some(token) => Ok(Access::Ready(token.to_string())),
        None => match refresh_access_token(cfg) {
            Ok(f) => Ok(Access::Refresh(f)),
            Err(m) => Err(m),
        },
    }
}

/// With a configuration that is accepted there is always a way to an access token.
pub proof fn law_accepted_configuration_leads_to_a_token(cfg: Config)
    requires
        config_fault(Ok(cfg)) is None,
    ensures
        given(paths::text_of(cfg.access_token)) is Some || given(paths::text_of(cfg.refresh_token)) is Some,
{
}

/// The access token in the answer to a refresh.
pub open spec fn token_in(answer: Json) -> Result<Seq<char>, Seq<char>> {
    match json::text_field(answer, "access_token"@) {
        Some(t) if text::trimmed(t).len() > 0 => Ok(t),
        _ => Err("OneDrive token response has no access_token"@),
    }
}

/// The views of a text or an error.
pub open spec fn text_result(r: Result<String, String>) -> Result<Seq<char>, Seq<char>> {
    match r {
        Ok(s) => Ok(s@),
        Err(m) => Err(m@),
    }
}

/// The access token in the answer to a refresh.
pub fn token_of(answer: &Value) -> (r: Result<String, String>)
    ensures
        text_result(r) == token_in(json::model(*answer)),
{
    match json::get_text(answer, "access_token") {
        Some(t) => {
            if trim_part(t).unicode_len() > 0 {
                Ok(t.to_string())
            } else {
                Err("OneDrive token response has no access_token".to_string())
            }
        },
        None => Err("OneDrive token response has no access_token".to_string()),
    }
}

/// The access token in the text of the answer to a refresh.
pub fn token_from_reply(reply: &str) -> (r: Result<String, String>)
    ensures
        text_result(r) == (match json::document(reply@) {
            Ok(answer) => token_in(answer),
            Err(m) => Err(m),
        }),
{
    match json::parse_value(reply) {
        Ok(answer) => token_of(&answer),
        Err(m) => Err(m),
    }
}

// ── listings ────────────────────────────────────────────────────────────────

/// The name of an entry; empty where it has none.
pub open spec fn name_of(e: Json) -> Seq<char> {
    match json::text_field(e, "name"@) {
        Some(n) => n,
        None => ""@,
    }
}

/// An entry of the answer as an entry of the folder `cwd`.
pub open spec fn entry_of(e: Json, cwd: Seq<char>) -> Entry {
    remote::entry_in(
        cwd,
        name_of(e),
        json::field(e, "folder"@) is Some,
        json::unsigned_field(e, "size"@),
        match json::text_field(e, "lastModifiedDateTime"@) {
            Some(t) => remote::rfc3339_unix(t),
            None => None,
        },
    )
}

/// The entries that are listed, in the order of the answer.
pub open spec fn found(entries: Seq<Json>, cwd: Seq<char>, show_hidden: bool) -> Seq<Entry>
    decreases entries.len(),
{
    if entries.len() == 0 {
        Seq::empty()
    } else if remote::is_listed(name_of(entries.last()), show_hidden) {
        found(entries.drop_last(), cwd, show_hidden).push(entry_of(entries.last(), cwd))
    } else {
        found(entries.drop_last(), cwd, show_hidden)
    }
}

/// The listing of the folder `cwd` that an answer gives.
pub open spec fn listing(answer: Json, cwd: Seq<char>, show_hidden: bool) -> Result<Seq<Entry>, Seq<char>> {
    match json::field(answer, "value"@) {
        Some(Json::List(entries)) => Ok(remote::sorted(found(entries, cwd, show_hidden))),
        _ => Err("OneDrive children response has no value array"@),
    }
}

/// The views of a listing.
pub open spec fn listing_view(r: Result<Vec<RemoteEntry>, String>) -> Result<Seq<Entry>, Seq<char>> {
    match r {
        Ok(v) => Ok(remote::entries_view(v@)),
        Err(m) => Err(m@),
    }
}

fn read_entry(e: &Value, cwd: &str, name: &str) -> (r: RemoteEntry)
    requires
        name@ == name_of(json::model(*e)),
    ensures
        r@ == entry_of(json::model(*e), cwd@),
{
    let is_dir = json::get(e, "folder").is_some();
    let modified = match json::get_text(e, "lastModifiedDateTime") {
        Some(t) => parse_rfc3339_unix(t),
        None => None,
    };
    make_entry(cwd, name, is_dir, json::get_unsigned(e, "size"), modified)
}

/// The listing of the folder `cwd` that an answer gives.
pub fn entries_of(answer: &Value, cwd: &str, show_hidden: bool) -> (r: Result<Vec<RemoteEntry>, String>)
    ensures
        listing_view(r) == listing(json::model(*answer), cwd@, show_hidden),
{
    let list = match json::get(answer, "value") {
        Some(x) => json::as_list(x),
        None => None,
    };
    let items = match list {
        Some(items) => items,
        None => return Err("OneDrive children response has no value array".to_string()),
    };
    let ghost all = json::models(items@);
    let mut out: Vec<RemoteEntry> = Vec::new();
    assert(remote::entries_view(out@) =~= remote::sorted(found(all.take(0), cwd@, show_hidden)));
    for i in 0..items.len()
        invariant
            all == json::models(items@),
            remote::entries_view(out@) == remote::sorted(found(all.take(i as int), cwd@, show_hidden)),
    {
        assert(all.take(i + 1).drop_last() =~= all.take(i as int));
        assert(all[i as int] == json::model(items@[i as int]));
        let name = match json::get_text(&items[i], "name") {
            Some(n) => n,
            None => "",
        };
        if listed(name, show_hidden) {
            let e = read_entry(&items[i], cwd, name);
            let ghost before = found(all.take(i as int), cwd@, show_hidden);
            assert(before.push(e@).drop_last() =~= before);
            insert_entry(&mut out, e);
        }
    }
    assert(all.take(all.len() as int) =~= all);
    Ok(out)
}

/// The listing of the folder `cwd` that the text of an answer gives.
pub fn list_entries(reply: &str, cwd: &str, show_hidden: bool) -> (r: Result<Vec<RemoteEntry>, String>)
    ensures
        json::document(reply@) matches Err(m) ==> r is Err && r->Err_0@ == m,
        json::document(reply@) matches Ok(answer) ==> listing_view(r) == listing(
            answer,
            cwd@,
            show_hidden,
        ),
{
    match json::parse_value(reply) {
        Ok(answer) => entries_of(&answer, cwd, show_hidden),
        Err(m) => Err(m),
    }
}

/// Accepts any answer that is JSON.
pub fn check_reply(reply: &str) -> (r: Result<(), String>)
    ensures
        r is Ok <==> json::document(reply@) is Ok,
        r is Err ==> r->Err_0@ == json::document(reply@)->Err_0,
{
    match json::parse_value(reply) {
        Ok(_) => Ok(()),
        Err(m) => Err(m),
    }
}

// ── transfers ───────────────────────────────────────────────────────────────

/// A transfer that is to be made.
pub struct Transfer {
    /// The name of the local file.
    pub name: String,
    /// The path on the drive.
    pub remote: String,
    /// Where the content is.
    pub url: String,
}

/// Plans a download of the remote path into a file with its name `name`.
pub fn download_named(remote_path: &str, name: Option<String>) -> (r: Result<Transfer, String>)
    ensures
        match name {
            None => r is Err && r->Err_0@ == "remote path has no file name"@,
            Some(n) => {
                &&& r is Ok
                &&& r->Ok_0.name@ == n@
                &&& r->Ok_0.remote@ == remote::normalized(remote_path@)
                &&& r->Ok_0.url@ == item_url(remote::normalized(remote_path@), "content"@)
            },
        },
{
    let name = match name {
        Some(n) => n,
        None => return Err("remote path has no file name".to_string()),
    };
    let remote = normalize_path(remote_path);
    let url = graph_item_url(remote.as_str(), "content");
    Ok(Transfer { name, remote, url })
}

/// Refuses whole directories.
pub fn check_download(recursive: bool) -> (r: Result<(), String>)
    ensures
        r is Err <==> recursive,
        r is Err ==> r->Err_0@ == "OneDrive directory download is not implemented yet"@,
{
    if recursive {
        Err("OneDrive directory download is not implemented yet".to_string())
    } else {
        Ok(())
    }
}

/// Refuses whole directories.
pub fn check_upload(recursive: bool) -> (r: Result<(), String>)
    ensures
        r is Err <==> recursive,
        r is Err ==> r->Err_0@ == "OneDrive directory upload is not implemented yet"@,
{
    if recursive {
        Err("OneDrive directory upload is not implemented yet".to_string())
    } else {
        Ok(())
    }
}

/// Plans a download of the remote path.
pub fn download_plan(remote_path: &str) -> (r: Result<Transfer, String>)
    ensures
        ({
            let path = remote::normalized(remote_path@);
            &&& r is Err ==> r->Err_0@ == "remote path has no file name"@
            &&& r is Ok ==> r->Ok_0.remote@ == path && r->Ok_0.url@ == item_url(path, "content"@)
            &&& paths::is_portable(path) ==> match paths::last_component(path) {
                None => r is Err,
                Some(n) => r is Ok && r->Ok_0.name@ == n,
            }
        }),
{
    let remote = normalize_path(remote_path);
    let name = paths::file_name(remote.as_str());
    download_named(remote_path, name)
}

/// Plans an upload of a local file with the name `name` into the folder `remote_dir`.
pub fn upload_named(remote_dir: &str, name: Option<String>) -> (r: Result<Transfer, String>)
    ensures
        match name {
            None => r is Err && r->Err_0@ == "local path has no file name"@,
            Some(n) => {
                &&& r is Ok
                &&& r->Ok_0.name@ == n@
                &&& r->Ok_0.remote@ == remote::joined(remote_dir@, n@)
                &&& r->Ok_0.url@ == item_url(remote::joined(remote_dir@, n@), "content"@)
            },
        },
{
    let name = match name {
        Some(n) => n,
        None => return Err("local path has no file name".to_string()),
    };
    let remote = join_remote(remote_dir, name.as_str());
    let url = graph_item_url(remote.as_str(), "content");
    Ok(Transfer { name, remote, url })
}

/// Plans an upload of the file at `local_path` into the folder `remote_dir`.
pub fn upload_plan(local_path: &str, remote_dir: &str) -> (r: Result<Transfer, String>)
    ensures
        r is Err ==> r->Err_0@ == "local path has no file name"@,
        r is Ok ==> r->Ok_0.remote@ == remote::joined(remote_dir@, r->Ok_0.name@) && r->Ok_0.url@ == item_url(
            r->Ok_0.remote@,
            "content"@,
        ),
        paths::is_portable(local_path@) ==> match paths::last_component(local_path@) {
            None => r is Err,
            Some(n) => r is Ok && r->Ok_0.name@ == n,
        },
{
    upload_named(remote_dir, paths::file_name(local_path))
}

/// A JSON document that is to be sent.
pub struct JsonRequest {
    pub url: String,
    pub body: String,
}

/// The body of a request to make the folder `name`: not where there is one already.
pub open spec fn folder_argument(name: Seq<char>) -> Json {
    Json::Object(
        Map::empty().insert("name"@, Json::Text(name)).insert(
            "folder"@,
            Json::Object(Map::empty()),
        ).insert("@microsoft.graph.conflictBehavior"@, Json::Text("fail"@)),
    )
}

/// The request to make the folder `name` in the folder `parent`, or in the root.
pub fn make_dir_named(name: Option<String>, parent: Option<String>) -> (r: Result<JsonRequest, String>)
    ensures
        match name {
            None => r is Err && r->Err_0@ == "remote path has no folder name"@,
            Some(n) => {
                &&& r is Ok
                &&& r->Ok_0.url@ == item_url(or_else(paths::text_of(parent), "/"@), "children"@)
                &&& r->Ok_0.body@ == json::json_text(folder_argument(n@))
            },
        },
{
    let name = match name {
        Some(n) => n,
        None => return Err("remote path has no folder name".to_string()),
    };
    let dir = match parent {
        Some(p) => p,
        None => "/".to_string(),
    };
    let mut v = json::empty_object();
    json::set_field(&mut v, "name", json::text_value(name.as_str()));
    json::set_field(&mut v, "folder", json::empty_object());
    json::set_field(&mut v, "@microsoft.graph.conflictBehavior", json::text_value("fail"));
    Ok(JsonRequest { url: graph_item_url(dir.as_str(), "children"), body: json::value_text(&v) })
}

/// The request to make the folder at `remote_path`.
pub fn make_dir_request(remote_path: &str) -> (r: Result<JsonRequest, String>)
    ensures
        ({
            let path = remote::normalized(remote_path@);
            &&& r is Err ==> r->Err_0@ == "remote path has no folder name"@
            &&& r is Ok ==> exists|name: Seq<char>, dir: Seq<char>|
                r->Ok_0.body@ == json::json_text(#[trigger] folder_argument(name)) && r->Ok_0.url@
                    == #[trigger] item_url(dir, "children"@)
            &&& paths::is_portable(path) ==> match paths::last_component(path) {
                None => r is Err,
                Some(name) => {
                    &&& r is Ok
                    &&& r->Ok_0.body@ == json::json_text(folder_argument(name))
                    &&& r->Ok_0.url@ == item_url(or_else(paths::parent_of(path), "/"@), "children"@)
                },
            }
        }),
{
    let remote = normalize_path(remote_path);
    proof {
        remote::law_normalized_shape(remote_path@);
    }
    let name = paths::file_name(remote.as_str());
    let parent = paths::parent(remote.as_str());
    make_dir_named(name, parent)
}

// ── signing in ──────────────────────────────────────────────────────────────

/// The start of a sign-in: what is asked for and by whom.
pub struct SignIn {
    pub client_id: String,
    pub tenant: String,
    pub scopes: String,
    pub request: FormRequest,
}

/// Starts a sign-in with a device code.
pub fn auth_start(parsed: Result<Config, String>) -> (r: Result<SignIn, String>)
    ensures
        match parsed {
            Err(m) => r is Err && r->Err_0@ == m@,
            Ok(cfg) => {
                &&& r is Ok
                &&& r->Ok_0.client_id@ == cfg.client()
                &&& r->Ok_0.tenant@ == cfg.tenant_used()
                &&& r->Ok_0.scopes@ == cfg.scopes_used()
                &&& r->Ok_0.request.url@ == login_url(cfg.tenant_used(), "devicecode"@)
                &&& r->Ok_0.request.body@ == form(
                    seq![("client_id"@, cfg.client()), ("scope"@, cfg.scopes_used())],
                )
                &&& (r->Ok_0.request.url@, r->Ok_0.request.body@) == start_request(cfg)
            },
        },
{
    let cfg = match parsed {
        Ok(cfg) => cfg,
        Err(m) => return Err(m),
    };
    let client_id = match onedrive_client_id(&cfg) {
        Some(c) => c,
        None => return Err("OneDrive app_key is required".to_string()),
    };
    let tenant = field_or(&cfg.tenant, "common");
    let scopes = field_or(&cfg.scopes, DEFAULT_SCOPES);
    let fields = [("client_id", client_id), ("scope", scopes)];
    assert(fields_view(fields@) =~= seq![("client_id"@, client_id@), ("scope"@, scopes@)]);
    Ok(
        SignIn {
            client_id: client_id.to_string(),
            tenant: tenant.to_string(),
            scopes: scopes.to_string(),
            request: FormRequest {
                url: make_login_url(tenant, "devicecode"),
                body: form_urlencoded(&fields),
            },
        },
    )
}

/// The session of a sign-in: the answer of the service with what was asked for beside it.
pub open spec fn session_of(answer: Json, tenant: Seq<char>, client_id: Seq<char>, scopes: Seq<char>) -> Json {
    Json::Object(
        json::fields_of(answer).insert("type"@, Json::Text("device_code"@)).insert(
            "tenant"@,
            Json::Text(tenant),
        ).insert("client_id"@, Json::Text(client_id)).insert("scopes"@, Json::Text(scopes)),
    )
}

/// The fields that a session adds to the answer of the service.
pub open spec fn is_session_key(key: Seq<char>) -> bool {
    key == "type"@ || key == "tenant"@ || key == "client_id"@ || key == "scopes"@
}

/// A stored session that can be shown and completed: it holds what was asked for, and what
/// else the answer holds.
pub open spec fn keeps_session(raw: Seq<char>, answer: Json, sign_in: SignIn) -> bool {
    &&& json::document(raw) matches Ok(stored) && json::keeps_fields(
        session_of(answer, sign_in.tenant@, sign_in.client_id@, sign_in.scopes@),
        stored,
    )
    &&& json::reads_field(raw, "type"@, "device_code"@)
    &&& json::reads_field(raw, "tenant"@, sign_in.tenant@)
    &&& json::reads_field(raw, "client_id"@, sign_in.client_id@)
    &&& json::reads_field(raw, "scopes"@, sign_in.scopes@)
    &&& forall|key: Seq<char>, value: Seq<char>|
        !is_session_key(key) && json::text_field(answer, key) == Some(value) ==> #[trigger] json::reads_field(
            raw,
            key,
            value,
        )
}

/// The session of a sign-in, from an answer that is an object or null.
pub fn auth_session(answer: Value, sign_in: &SignIn) -> (r: String)
    requires
        json::model(answer) is Object || json::model(answer) is Null,
        json::within(json::model(answer), 127),
    ensures
        r@ == json::json_text(
            session_of(
                json::model(answer),
                sign_in.tenant@,
                sign_in.client_id@,
                sign_in.scopes@,
            ),
        ),
        keeps_session(r@, json::model(answer), *sign_in),
{
    let ghost first = json::model(answer);
    proof {
        law_session_keeps_what_was_asked_for(
            first,
            sign_in.tenant@,
            sign_in.client_id@,
            sign_in.scopes@,
        );
        lemma_session_within(first, sign_in.tenant@, sign_in.client_id@, sign_in.scopes@);
    }
    let mut session = answer;
    json::set_field(&mut session, "type", json::text_value("device_code"));
    json::set_field(&mut session, "tenant", json::text_value(sign_in.tenant.as_str()));
    json::set_field(&mut session, "client_id", json::text_value(sign_in.client_id.as_str()));
    json::set_field(&mut session, "scopes", json::text_value(sign_in.scopes.as_str()));
    let raw = json::object_text(&session);
    assert forall|key: Seq<char>, value: Seq<char>|
        !is_session_key(key) && json::text_field(first, key) == Some(value) implies
        #[trigger] json::reads_field(raw@, key, value) by {
        assert(json::field(json::model(session), key) == json::field(first, key));
    }
    raw
}

proof fn lemma_session_within(answer: Json, tenant: Seq<char>, client_id: Seq<char>, scopes: Seq<char>)
    requires
        answer is Object || answer is Null,
        json::within(answer, 127),
    ensures
        json::within(session_of(answer, tenant, client_id, scopes), 127),
{
    let f = json::fields_of(session_of(answer, tenant, client_id, scopes));
    assert forall|k: Seq<char>| #[trigger] f.contains_key(k) implies json::within(f[k], 126) by {
        if f[k] !is Text {
            assert(json::fields_of(answer).contains_key(k));
        }
    }
}

/// The session of a sign-in, from the text of the answer; none where the answer is neither an
/// object nor null.
pub fn session_from_reply(reply: &str, sign_in: &SignIn) -> (r: Result<Option<String>, String>)
    ensures
        match json::document(reply@) {
            Err(m) => r is Err && r->Err_0@ == m,
            Ok(answer) => {
                &&& r is Ok
                &&& r->Ok_0 is Some <==> (answer is Object || answer is Null)
                &&& r->Ok_0 is Some ==> r->Ok_0->0@ == json::json_text(
                    session_of(answer, sign_in.tenant@, sign_in.client_id@, sign_in.scopes@),
                ) && keeps_session(r->Ok_0->0@, answer, *sign_in)
            },
        },
{
    match json::parse_value(reply) {
        Err(m) => Err(m),
        Ok(answer) => {
            if json::is_object(&answer) || json::is_null(&answer) {
                Ok(Some(auth_session(answer, sign_in)))
            } else {
                Ok(None)
            }
        },
    }
}

/// A text field of a session, or another text where there is none.
pub open spec fn session_text(session: Json, key: Seq<char>, other: Seq<char>) -> Seq<char> {
    or_else(json::text_field(session, key), other)
}

fn text_or<'a>(v: &'a Value, key: &str, other: &'a str) -> (r: &'a str)
    ensures
        r@ == session_text(json::model(*v), key@, other@),
{
    match json::get_text(v, key) {
        Some(s) => s,
        None => other,
    }
}

/// The form that exchanges the device code of a session for tokens.
pub fn exchange_of(session: &Value) -> (r: Result<SignIn, String>)
    ensures
        ({
            let m = json::model(*session);
            let client_id = session_text(m, "client_id"@, APP_KEY@);
            let tenant = session_text(m, "tenant"@, "common"@);
            match json::text_field(m, "device_code"@) {
                None => r is Err && r->Err_0@ == "OneDrive auth session has no device_code"@,
                Some(code) => {
                    &&& r is Ok
                    &&& r->Ok_0.client_id@ == client_id
                    &&& r->Ok_0.tenant@ == tenant
                    &&& r->Ok_0.scopes@ == session_text(m, "scopes"@, DEFAULT_SCOPES@)
                    &&& r->Ok_0.request.url@ == login_url(tenant, "token"@)
                    &&& r->Ok_0.request.body@ == form(
                        seq![
                            ("client_id"@, client_id),
                            ("grant_type"@, "urn:ietf:params:oauth:grant-type:device_code"@),
                            ("device_code"@, code),
                        ],
                    )
                    &&& (r->Ok_0.request.url@, r->Ok_0.request.body@) == exchange_request(m, code)
                },
            }
        }),
{
    let code = match json::get_text(session, "device_code") {
        Some(c) => c,
        None => return Err("OneDrive auth session has no device_code".to_string()),
    };
    let client_id = text_or(session, "client_id", APP_KEY);
    let tenant = text_or(session, "tenant", "common");
    let scopes = text_or(session, "scopes", DEFAULT_SCOPES);
    let fields = [
        ("client_id", client_id),
        ("grant_type", "urn:ietf:params:oauth:grant-type:device_code"),
        ("device_code", code),
    ];
    assert(fields_view(fields@) =~= seq![
        ("client_id"@, client_id@),
        ("grant_type"@, "urn:ietf:params:oauth:grant-type:device_code"@),
        ("device_code"@, code@),
    ]);
    Ok(
        SignIn {
            client_id: client_id.to_string(),
            tenant: tenant.to_string(),
            scopes: scopes.to_string(),
            request: FormRequest {
                url: make_login_url(tenant, "token"),
                body: form_urlencoded(&fields),
            },
        },
    )
}

/// The form that exchanges the device code of a stored session for tokens.
pub fn auth_exchange(session_json: &str) -> (r: Result<SignIn, String>)
    ensures
        match json::document(session_json@) {
            Err(m) => r is Err && r->Err_0@ == m,
            Ok(m) => match json::text_field(m, "device_code"@) {
                None => r is Err && r->Err_0@ == "OneDrive auth session has no device_code"@,
                Some(code) => {
                    let client_id = session_text(m, "client_id"@, APP_KEY@);
                    let tenant = session_text(m, "tenant"@, "common"@);
                    &&& r is Ok
                    &&& r->Ok_0.client_id@ == client_id
                    &&& r->Ok_0.tenant@ == tenant
                    &&& r->Ok_0.scopes@ == session_text(m, "scopes"@, DEFAULT_SCOPES@)
                    &&& r->Ok_0.request.url@ == login_url(tenant, "token"@)
                    &&& r->Ok_0.request.body@ == form(
                        seq![
                            ("client_id"@, client_id),
                            ("grant_type"@, "urn:ietf:params:oauth:grant-type:device_code"@),
                            ("device_code"@, code),
                        ],
                    )
                    &&& (r->Ok_0.request.url@, r->Ok_0.request.body@) == exchange_request(m, code)
                },
            },
        },
{
    match json::parse_value(session_json) {
        Ok(session) => exchange_of(&session),
        Err(m) => Err(m),
    }
}

/// The configuration that a sign-in ends with.
pub open spec fn final_config(sign_in: SignIn, refresh_token: Seq<char>) -> Json {
    Json::Object(
        Map::empty().insert("app_key"@, Json::Text(sign_in.client_id@)).insert(
            "refresh_token"@,
            Json::Text(refresh_token),
        ).insert("tenant"@, Json::Text(sign_in.tenant@)).insert("scopes"@, Json::Text(sign_in.scopes@)),
    )
}

/// The configuration that a sign-in ends with, from the answer of the service. It can be read
/// again, with the refresh token and everything that belongs to it.
pub fn config_of(sign_in: &SignIn, answer: &Value) -> (r: Result<String, String>)
    ensures
        match json::text_field(json::model(*answer), "refresh_token"@) {
            None => r is Err && r->Err_0@ == "OneDrive token response has no refresh_token"@,
            Some(token) => {
                &&& r is Ok
                &&& r->Ok_0@ == json::json_text(final_config(*sign_in, token))
                &&& json::document(r->Ok_0@) == Ok::<Json, Seq<char>>(final_config(*sign_in, token))
            },
        },
{
    let token = match json::get_text(answer, "refresh_token") {
        Some(t) => t,
        None => return Err("OneDrive token response has no refresh_token".to_string()),
    };
    let mut v = json::empty_object();
    json::set_field(&mut v, "app_key", json::text_value(sign_in.client_id.as_str()));
    json::set_field(&mut v, "refresh_token", json::text_value(token));
    json::set_field(&mut v, "tenant", json::text_value(sign_in.tenant.as_str()));
    json::set_field(&mut v, "scopes", json::text_value(sign_in.scopes.as_str()));
    let ghost held = json::model(v);
    proof {
        let f = json::fields_of(held);
        assert forall|k: Seq<char>| #[trigger] f.contains_key(k) implies json::within(f[k], 126) by {}
    }
    let raw = json::object_text(&v);
    proof {
        let f = json::fields_of(held);
        let g = json::fields_of(json::document(raw@)->Ok_0);
        assert forall|k: Seq<char>| #[trigger] g.contains_key(k) <==> f.contains_key(k) by {
            assert(json::keeps_field(held, json::document(raw@)->Ok_0, k));
        }
        assert forall|k: Seq<char>| #[trigger] f.contains_key(k) implies g[k] == f[k] by {
            assert(json::keeps_field(held, json::document(raw@)->Ok_0, k));
            assert(f[k] is Text);
        }
        assert(g =~= f);
    }
    Ok(raw)
}

/// The configuration that a sign-in ends with, from the text of the answer.
pub fn auth_complete(sign_in: &SignIn, reply: &str) -> (r: Result<String, String>)
    ensures
        match json::document(reply@) {
            Err(m) => r is Err && r->Err_0@ == m,
            Ok(answer) => match json::text_field(answer, "refresh_token"@) {
                None => r is Err && r->Err_0@ == "OneDrive token response has no refresh_token"@,
                Some(token) => {
                    &&& r is Ok
                    &&& r->Ok_0@ == json::json_text(final_config(*sign_in, token))
                    &&& json::document(r->Ok_0@) == Ok::<Json, Seq<char>>(
                        final_config(*sign_in, token),
                    )
                },
            },
        },
{
    match json::parse_value(reply) {
        Ok(answer) => config_of(sign_in, &answer),
        Err(m) => Err(m),
    }
}

/// A configuration whose fields are the texts in those of a stored object.
pub open spec fn is_stored_in(cfg: Config, stored: Json) -> bool {
    &&& paths::text_of(cfg.access_token) == json::text_field(stored, "access_token"@)
    &&& paths::text_of(cfg.refresh_token) == json::text_field(stored, "refresh_token"@)
    &&& paths::text_of(cfg.app_key) == json::text_field(stored, "app_key"@)
    &&& paths::text_of(cfg.client_id) == json::text_field(stored, "client_id"@)
    &&& paths::text_of(cfg.tenant) == json::text_field(stored, "tenant"@)
    &&& paths::text_of(cfg.scopes) == json::text_field(stored, "scopes"@)
}

/// The configuration that a sign-in ends with can be stored: it holds the refresh token, the
/// application, the tenant and the scopes of the sign-in and nothing else, and it is accepted,
/// unless the refresh token is blank. It has no access token, so one is had by refreshing with
/// exactly that refresh token.
pub proof fn law_signed_in_configuration_is_accepted(cfg: Config, sign_in: SignIn, token: Seq<char>)
    requires
        is_stored_in(cfg, final_config(sign_in, token)),
        text::trimmed(token).len() > 0,
    ensures
        cfg.access_token is None,
        cfg.client_id is None,
        paths::text_of(cfg.refresh_token) == Some(token),
        paths::text_of(cfg.app_key) == Some(sign_in.client_id@),
        paths::text_of(cfg.tenant) == Some(sign_in.tenant@),
        paths::text_of(cfg.scopes) == Some(sign_in.scopes@),
        config_fault(Ok(cfg)) is None,
        given(paths::text_of(cfg.access_token)) is None,
        given(paths::text_of(cfg.refresh_token)) == Some(text::trimmed(token)),
        text::trimmed(sign_in.client_id@).len() > 0 ==> cfg.client() == text::trimmed(sign_in.client_id@),
        text::trimmed(sign_in.tenant@).len() > 0 ==> cfg.tenant_used() == text::trimmed(sign_in.tenant@),
        text::trimmed(sign_in.scopes@).len() > 0 ==> cfg.scopes_used() == text::trimmed(sign_in.scopes@),
{
    reveal_strlit("access_token");
    reveal_strlit("client_id");
    reveal_strlit("app_key");
    reveal_strlit("refresh_token");
    reveal_strlit("tenant");
    reveal_strlit("scopes");
    assert("tenant"@[0] != "scopes"@[0]);
    assert("access_token"@.len() == 12 && "client_id"@.len() == 9 && "app_key"@.len() == 7
        && "refresh_token"@.len() == 13 && "tenant"@.len() == 6 && "scopes"@.len() == 6);
}

/// A session holds what was asked for, and every other field is that of the answer.
pub proof fn law_session_keeps_what_was_asked_for(
    answer: Json,
    tenant: Seq<char>,
    client_id: Seq<char>,
    scopes: Seq<char>,
)
    ensures
        ({
            let s = session_of(answer, tenant, client_id, scopes);
            &&& json::text_field(s, "type"@) == Some("device_code"@)
            &&& json::text_field(s, "tenant"@) == Some(tenant)
            &&& json::text_field(s, "client_id"@) == Some(client_id)
            &&& json::text_field(s, "scopes"@) == Some(scopes)
            &&& forall|key: Seq<char>|
                !is_session_key(key) ==> #[trigger] json::field(s, key) == json::field(answer, key)
        }),
{
    reveal_strlit("type");
    reveal_strlit("tenant");
    reveal_strlit("client_id");
    reveal_strlit("scopes");
    assert("tenant"@[0] != "scopes"@[0]);
    assert("type"@.len() == 4 && "tenant"@.len() == 6 && "client_id"@.len() == 9 && "scopes"@.len() == 6);
}

/// A session that was started and stored is completed with the application, the tenant and the
/// scopes that it was started with, and with the device code that the service gave.
pub proof fn law_started_session_is_completed(raw: Seq<char>, answer: Json, sign_in: SignIn, code: Seq<char>)
    requires
        keeps_session(raw, answer, sign_in),
        json::text_field(answer, "device_code"@) == Some(code),
    ensures
        json::document(raw) is Ok,
        ({
            let session = json::document(raw)->Ok_0;
            &&& json::text_field(session, "device_code"@) == Some(code)
            &&& session_text(session, "client_id"@, APP_KEY@) == sign_in.client_id@
            &&& session_text(session, "tenant"@, "common"@) == sign_in.tenant@
            &&& session_text(session, "scopes"@, DEFAULT_SCOPES@) == sign_in.scopes@
        }),
{
    reveal_strlit("type");
    reveal_strlit("tenant");
    reveal_strlit("client_id");
    reveal_strlit("scopes");
    reveal_strlit("device_code");
    assert("type"@.len() == 4 && "tenant"@.len() == 6 && "client_id"@.len() == 9 && "scopes"@.len() == 6
        && "device_code"@.len() == 11);
    assert(!is_session_key("device_code"@));
    assert(json::reads_field(raw, "device_code"@, code));
}

// ── laws of the listing ─────────────────────────────────────────────────────

proof fn lemma_found(items: Seq<Json>, cwd: Seq<char>, show_hidden: bool, i: int)
    requires
        0 <= i < items.len(),
        remote::is_listed(name_of(items[i]), show_hidden),
    ensures
        found(items, cwd, show_hidden).contains(entry_of(items[i], cwd)),
    decreases items.len(),
{
    let all = found(items, cwd, show_hidden);
    let few = found(items.drop_last(), cwd, show_hidden);
    if i < items.len() - 1 {
        lemma_found(items.drop_last(), cwd, show_hidden, i);
        assert(items.drop_last()[i] == items[i]);
        let j = choose|j: int| 0 <= j < few.len() && few[j] == entry_of(items[i], cwd);
        assert(all[j] == few[j]);
    } else {
        assert(all[all.len() - 1] == entry_of(items[i], cwd));
    }
}

/// How many items have a name and are not hidden.
pub open spec fn items_to_list(items: Seq<Json>, show_hidden: bool) -> nat
    decreases items.len(),
{
    if items.len() == 0 {
        0
    } else {
        items_to_list(items.drop_last(), show_hidden) + (match json::text_field(items.last(), "name"@) {
            Some(name) if name.len() > 0 && (show_hidden || name[0] != '.') => 1nat,
            _ => 0nat,
        })
    }
}

proof fn lemma_found_count(items: Seq<Json>, cwd: Seq<char>, show_hidden: bool)
    ensures
        found(items, cwd, show_hidden).len() == items_to_list(items, show_hidden),
    decreases items.len(),
{
    reveal_strlit("");
    if items.len() > 0 {
        lemma_found_count(items.drop_last(), cwd, show_hidden);
    }
}

/// Every item of the answer with a name that is not hidden is in the listing: with its name, its path
/// in the folder, its size, its time and whether it is a folder, each as the item says, and zero
/// where it does not say. The listing has nothing else, and is in the order of the names.
pub proof fn law_listing_tells_of_every_item(
    answer: Json,
    items: Seq<Json>,
    cwd: Seq<char>,
    show_hidden: bool,
    i: int,
    name: Seq<char>,
)
    requires
        json::field(answer, "value"@) == Some(Json::List(items)),
        0 <= i < items.len(),
        json::text_field(items[i], "name"@) == Some(name),
        name.len() > 0,
        show_hidden || name[0] != '.',
    ensures
        listing(answer, cwd, show_hidden) is Ok,
        ({
            let l = listing(answer, cwd, show_hidden)->Ok_0;
            let is_dir = json::field(items[i], "folder"@) is Some;
            &&& l.len() == items_to_list(items, show_hidden)
            &&& forall|j: int, k: int|
                0 <= j < k < l.len() ==> !remote::before((#[trigger] l[k]).name, (#[trigger] l[j]).name)
            &&& l.contains(
                Entry {
                    name,
                    path: remote::joined(cwd, name),
                    is_dir,
                    is_symlink: false,
                    size: match json::unsigned_field(items[i], "size"@) {
                        Some(n) => n,
                        None => 0,
                    },
                    modified_unix: match json::text_field(items[i], "lastModifiedDateTime"@) {
                        Some(t) => match remote::rfc3339_unix(t) {
                            Some(unix) => unix,
                            None => 0,
                        },
                        None => 0,
                    },
                    mode: if is_dir {
                        0o755
                    } else {
                        0o644
                    },
                },
            )
        }),
{
    let all = found(items, cwd, show_hidden);
    lemma_found(items, cwd, show_hidden, i);
    lemma_found_count(items, cwd, show_hidden);
    remote::law_listing_is_sorted(all);
    let l = remote::sorted(all);
    assert(l.contains(entry_of(items[i], cwd)));
    assert forall|j: int, k: int| 0 <= j < k < l.len() implies !remote::before(
        (#[trigger] l[k]).name,
        (#[trigger] l[j]).name,
    ) by {
        assert(remote::in_order(l[j], l[k]));
    }
}

/// An entry of the listing is an item of the answer.
pub proof fn law_listing_has_only_items(
    answer: Json,
    items: Seq<Json>,
    cwd: Seq<char>,
    show_hidden: bool,
    e: Entry,
)
    requires
        json::field(answer, "value"@) == Some(Json::List(items)),
        listing(answer, cwd, show_hidden)->Ok_0.contains(e),
    ensures
        exists|i: int|
            0 <= i < items.len() && json::text_field(#[trigger] items[i], "name"@) == Some(e.name),
        e.name.len() > 0,
        show_hidden || e.name[0] != '.',
{
    let all = found(items, cwd, show_hidden);
    remote::law_listing_is_sorted(all);
    assert(all.contains(e));
    lemma_found_item(items, cwd, show_hidden, e);
}

proof fn lemma_found_item(items: Seq<Json>, cwd: Seq<char>, show_hidden: bool, e: Entry)
    requires
        found(items, cwd, show_hidden).contains(e),
    ensures
        exists|i: int|
            0 <= i < items.len() && json::text_field(#[trigger] items[i], "name"@) == Some(e.name),
        e.name.len() > 0,
        show_hidden || e.name[0] != '.',
    decreases items.len(),
{
    reveal_strlit("");
    let all = found(items, cwd, show_hidden);
    if items.len() > 0 {
        let head = items.drop_last();
        let few = found(head, cwd, show_hidden);
        let j = choose|j: int| 0 <= j < all.len() && all[j] == e;
        if j < few.len() {
            assert(few[j] == e);
            lemma_found_item(head, cwd, show_hidden, e);
            let i = choose|i: int|
                0 <= i < head.len() && json::text_field(#[trigger] head[i], "name"@) == Some(e.name);
            assert(items[i] == head[i]);
        } else {
            assert(e == entry_of(items.last(), cwd));
            assert(json::text_field(items[items.len() - 1], "name"@) == Some(e.name));
        }
    }
}

/// An answer without a list of items is refused.
pub proof fn law_answers_without_items_are_refused(answer: Json, cwd: Seq<char>, show_hidden: bool)
    requires
        !(json::field(answer, "value"@) matches Some(Json::List(_))),
    ensures
        listing(answer, cwd, show_hidden) is Err,
{
}

// ── laws of the requests ────────────────────────────────────────────────────

proof fn lemma_plain_bytes(b: Seq<u8>)
    requires
        forall|i: int| 0 <= i < b.len() ==> is_alphanumeric(#[trigger] b[i]),
    ensures
        percent(b) == Seq::new(b.len(), |i: int| b[i] as char),
    decreases b.len(),
{
    let all = Seq::new(b.len(), |i: int| b[i] as char);
    if b.len() > 0 {
        let rest = b.drop_first();
        assert forall|i: int| 0 <= i < rest.len() implies is_alphanumeric(#[trigger] rest[i]) by {
            assert(rest[i] == b[i + 1]);
        }
        lemma_plain_bytes(rest);
        assert(percent(b) =~= all);
    } else {
        assert(percent(b) =~= all);
    }
}

proof fn lemma_letter(c: char)
    requires
        ('0' <= c <= '9') || ('A' <= c <= 'Z') || ('a' <= c <= 'z'),
    ensures
        is_alphanumeric(c as u8),
        (c as u8) as char == c,
        '\0' <= c <= '\u{7f}',
{
}

/// Letters and digits stand for themselves when they are escaped.
pub proof fn law_letters_and_digits_are_not_escaped(s: Seq<char>)
    requires
        forall|i: int|
            0 <= i < s.len() ==> ('0' <= #[trigger] s[i] <= '9') || ('A' <= s[i] <= 'Z') || ('a' <= s[i] <= 'z'),
    ensures
        escaped(s) == s,
{
    let b = encode_utf8(s);
    assert forall|i: int| 0 <= i < s.len() implies '\0' <= #[trigger] s[i] <= '\u{7f}' by {
        lemma_letter(s[i]);
    }
    assert(is_ascii_chars(s));
    is_ascii_chars_encode_utf8(s);
    assert forall|i: int| 0 <= i < b.len() implies is_alphanumeric(#[trigger] b[i]) && b[i] as char == s[i] by {
        lemma_letter(s[i]);
        assert(s[i] as u8 == b[i]);
    }
    lemma_plain_bytes(b);
    assert(escaped(s) =~= s);
}

/// The pairs of a form as they are written.
pub open spec fn written_pairs(fields: Seq<(Seq<char>, Seq<char>)>) -> Seq<Seq<char>> {
    Seq::new(fields.len(), |i: int| escaped(fields[i].0) + seq!['='] + escaped(fields[i].1))
}

proof fn lemma_escaped_has_no(s: Seq<char>, c: char)
    requires
        c == '&' || c == '=' || c == '/',
    ensures
        !escaped(s).contains(c),
{
    let e = escaped(s);
    if e.contains(c) {
        let i = choose|i: int| 0 <= i < e.len() && e[i] == c;
        law_escaped_text_is_harmless(encode_utf8(s), i);
    }
}

/// A form has its fields in order between ampersands, each as a key and a value around an equals
/// sign, which neither of them has in it.
pub proof fn law_form_holds_its_fields(fields: Seq<(Seq<char>, Seq<char>)>, i: int)
    requires
        0 <= i < fields.len(),
    ensures
        text::split(form(fields), CharClass::Only('&')) == written_pairs(fields),
        text::split(written_pairs(fields)[i], CharClass::Only('=')) == seq![
            escaped(fields[i].0),
            escaped(fields[i].1),
        ],
{
    let pairs = written_pairs(fields);
    lemma_form_is_joined(fields);
    assert forall|j: int| 0 <= j < pairs.len() implies !(#[trigger] pairs[j]).contains('&') by {
        let a = escaped(fields[j].0);
        let b = escaped(fields[j].1);
        lemma_escaped_has_no(fields[j].0, '&');
        lemma_escaped_has_no(fields[j].1, '&');
        if pairs[j].contains('&') {
            let x = choose|x: int| 0 <= x < pairs[j].len() && pairs[j][x] == '&';
            if x < a.len() {
                assert(a[x] == '&');
            } else if x > a.len() {
                assert(b[x - a.len() - 1] == '&');
            }
        }
    }
    text::lemma_split_joined(pairs, '&');
    let parts = seq![escaped(fields[i].0), escaped(fields[i].1)];
    lemma_escaped_has_no(fields[i].0, '=');
    lemma_escaped_has_no(fields[i].1, '=');
    text::lemma_split_joined(parts, '=');
    assert(parts.drop_last() =~= seq![escaped(fields[i].0)]);
    assert(text::join(parts.drop_last(), seq!['=']) == escaped(fields[i].0));
    assert(text::join(parts, seq!['=']) =~= pairs[i]);
}

proof fn lemma_form_is_joined(fields: Seq<(Seq<char>, Seq<char>)>)
    ensures
        form(fields) == text::join(written_pairs(fields), seq!['&']),
    decreases fields.len(),
{
    reveal_strlit("&");
    reveal_strlit("=");
    assert("&"@ =~= seq!['&']);
    assert("="@ =~= seq!['=']);
    if fields.len() > 1 {
        lemma_form_is_joined(fields.drop_last());
        assert(written_pairs(fields).drop_last() =~= written_pairs(fields.drop_last()));
    }
}

/// A refresh request sends the token, the client and the scopes, and says what it is.
pub proof fn law_refresh_request_sends_the_token(cfg: Config, token: Seq<char>)
    ensures
        ({
            let f = refresh_fields(cfg, token);
            &&& f.len() == 4
            &&& f.contains(("refresh_token"@, token))
            &&& f.contains(("grant_type"@, "refresh_token"@))
            &&& f.contains(("client_id"@, cfg.client()))
            &&& f.contains(("scope"@, cfg.scopes_used()))
        }),
{
    let f = refresh_fields(cfg, token);
    assert(f[0] == ("client_id"@, cfg.client()));
    assert(f[1] == ("grant_type"@, "refresh_token"@));
    assert(f[2] == ("refresh_token"@, token));
    assert(f[3] == ("scope"@, cfg.scopes_used()));
}

/// What a configuration says counts, without the white space around it; the application key comes
/// before the client identifier.
pub proof fn law_configuration_is_used(cfg: Config)
    ensures
        cfg.app_key matches Some(k) ==> text::solid(k@).len() > 0 ==> cfg.client() == text::trimmed(k@),
        cfg.app_key is None ==> (cfg.client_id matches Some(k) ==> text::solid(k@).len() > 0 ==> cfg.client()
            == text::trimmed(k@)),
        cfg.app_key is None && cfg.client_id is None ==> cfg.client() == APP_KEY@,
        cfg.tenant matches Some(t) ==> text::solid(t@).len() > 0 ==> cfg.tenant_used() == text::trimmed(t@),
        cfg.tenant is None ==> cfg.tenant_used() == "common"@,
        cfg.scopes matches Some(t) ==> text::solid(t@).len() > 0 ==> cfg.scopes_used() == text::trimmed(t@),
        cfg.scopes is None ==> cfg.scopes_used() == DEFAULT_SCOPES@,
{
    if let Some(k) = cfg.app_key {
        lemma_not_blank(k@);
    }
    if let Some(k) = cfg.client_id {
        lemma_not_blank(k@);
    }
    if let Some(k) = cfg.tenant {
        lemma_not_blank(k@);
    }
    if let Some(k) = cfg.scopes {
        lemma_not_blank(k@);
    }
}

proof fn lemma_not_blank(t: Seq<char>)
    ensures
        text::solid(t).len() > 0 ==> text::trimmed(t).len() > 0,
{
    text::lemma_trimmed_solid(t);
    if text::trimmed(t).len() == 0 {
        assert(text::solid(text::trimmed(t)).len() == 0);
    }
}

proof fn lemma_words_of_path(q: Seq<char>)
    ensures
        text::words(seq!['/'] + q, CharClass::Only('/')) == text::words(q, CharClass::Only('/')),
{
    let k = CharClass::Only('/');
    let none = Seq::<char>::empty();
    crate::wrap::lemma_words_around(none, '/', q, k);
    assert(none.push('/') + q =~= seq!['/'] + q);
    let one = seq![none];
    assert(one.drop_last() =~= Seq::empty());
    assert(text::non_empty(one.drop_last()) =~= Seq::empty());
    assert(text::words(none, k) =~= Seq::empty());
    assert(text::words(none, k) + text::words(q, k) =~= text::words(q, k));
}

proof fn lemma_word_of_name(name: Seq<char>)
    requires
        name.len() > 0,
        !name.contains('/'),
    ensures
        text::words(name, CharClass::Only('/')) == seq![name],
{
    let k = CharClass::Only('/');
    assert forall|i: int| 0 <= i < name.len() implies !k.has(#[trigger] name[i]) by {
        assert(name.contains(name[i]));
    }
    text::lemma_split_solid(name, k);
    assert(seq![name].drop_last() =~= Seq::empty());
    assert(text::non_empty(seq![name].drop_last()) =~= Seq::empty());
    assert(text::non_empty(seq![name]) =~= seq![name]);
}

/// Each name of a path is escaped by itself, and the slashes between them stay.
pub proof fn law_paths_are_escaped_name_by_name(q: Seq<char>, name: Seq<char>)
    requires
        remote::is_inner(q),
        remote::is_inner(name),
        !name.contains('/'),
    ensures
        escaped_path(seq!['/'] + name) == seq!['/'] + escaped(name),
        escaped_path(seq!['/'] + q + seq!['/'] + name) == escaped_path(seq!['/'] + q) + seq!['/'] + escaped(name),
{
    let k = CharClass::Only('/');
    let slash = seq!['/'];
    remote::law_paths_start_with_one_slash(name);
    remote::law_paths_start_with_one_slash(q);
    lemma_words_of_path(name);
    lemma_word_of_name(name);
    let one = seq![name];
    assert(one.drop_last() =~= Seq::empty());
    assert(escaped_parts(one.drop_last()) =~= Seq::empty());
    assert(Seq::<char>::empty().push('/') =~= slash);
    let both = q + slash + name;
    remote::law_paths_start_with_one_slash(both);
    assert(slash + both =~= slash + q + slash + name);
    lemma_words_of_path(both);
    lemma_words_of_path(q);
    crate::wrap::lemma_words_around(q, '/', name, k);
    assert(q.push('/') + name =~= both);
    let parts = text::words(q, k);
    assert((parts + one).drop_last() =~= parts);
    assert((parts + one).last() == name);
    assert(escaped_parts(parts).push('/') =~= escaped_parts(parts) + slash);
}

/// The address of an item: its path stands between colons, the root needs none, and what is asked
/// for stands at the end.
pub proof fn law_items_are_addressed_by_their_path(q: Seq<char>, suffix: Seq<char>)
    requires
        remote::is_inner(q),
        suffix.len() > 0,
        suffix[0] != '/',
        suffix.last() != '/',
    ensures
        item_url(seq!['/'] + q, suffix) == GRAPH_ROOT@ + seq![':'] + escaped_path(seq!['/'] + q) + seq![':', '/']
            + suffix,
        item_url(seq!['/'] + q, Seq::empty()) == GRAPH_ROOT@ + seq![':'] + escaped_path(seq!['/'] + q) + seq![':'],
        item_url(seq!['/'], suffix) == GRAPH_ROOT@ + seq!['/'] + suffix,
        item_url(seq!['/'], Seq::empty()) == GRAPH_ROOT@,
{
    reveal_strlit(":");
    reveal_strlit("/");
    reveal_strlit(":/");
    assert(":"@ =~= seq![':']);
    assert("/"@ =~= seq!['/']);
    assert(":/"@ =~= seq![':', '/']);
    remote::law_paths_start_with_one_slash(q);
    text::lemma_trim_nothing(suffix, CharClass::Only('/'));
    text::lemma_trim_nothing(Seq::empty(), CharClass::Only('/'));
    assert((seq!['/'] + q).len() > 1);
}

/// A request for a folder names it and asks to fail where it is there already.
pub proof fn law_folder_request_names_the_folder(name: Seq<char>)
    ensures
        json::text_field(folder_argument(name), "name"@) == Some(name),
        json::field(folder_argument(name), "folder"@) == Some(Json::Object(Map::empty())),
        json::text_field(folder_argument(name), "@microsoft.graph.conflictBehavior"@) == Some("fail"@),
{
    reveal_strlit("name");
    reveal_strlit("folder");
    reveal_strlit("@microsoft.graph.conflictBehavior");
    assert("name"@.len() == 4 && "folder"@.len() == 6 && "@microsoft.graph.conflictBehavior"@.len() == 33);
}

/// The token of an answer is taken as it is, unless it is missing or blank.
pub proof fn law_token_is_taken_from_the_answer(answer: Json, token: Seq<char>)
    requires
        json::text_field(answer, "access_token"@) == Some(token),
        text::solid(token).len() > 0,
    ensures
        token_in(answer) == Ok::<Seq<char>, Seq<char>>(token),
{
    lemma_not_blank(token);
}

/// A configuration is accepted exactly if it has a token to use or one to refresh with.
pub proof fn law_configuration_needs_a_token(cfg: Config)
    ensures
        config_fault(Ok(cfg)) is None <==> ({
            ||| cfg.access_token is Some && text::solid(cfg.access_token->0@).len() > 0
            ||| cfg.refresh_token is Some && text::solid(cfg.refresh_token->0@).len() > 0
        }),
{
    if let Some(t) = cfg.access_token {
        lemma_blank_or_not(t@);
    }
    if let Some(t) = cfg.refresh_token {
        lemma_blank_or_not(t@);
    }
}

proof fn lemma_blank_or_not(t: Seq<char>)
    ensures
        text::solid(t).len() > 0 <==> text::trimmed(t).len() > 0,
{
    lemma_not_blank(t);
    text::lemma_trimmed_solid(t);
    text::lemma_trim_both_ends(t, CharClass::White);
    let u = text::trimmed(t);
    if u.len() > 0 {
        assert(text::solid(u).len() > 0);
    }
}

/// What is stored after signing in has the token and what it was got with, and nothing else.
pub proof fn law_stored_configuration_has_the_token(sign_in: SignIn, token: Seq<char>, key: Seq<char>)
    ensures
        ({
            let c = final_config(sign_in, token);
            &&& json::text_field(c, "refresh_token"@) == Some(token)
            &&& json::text_field(c, "app_key"@) == Some(sign_in.client_id@)
            &&& json::text_field(c, "tenant"@) == Some(sign_in.tenant@)
            &&& json::text_field(c, "scopes"@) == Some(sign_in.scopes@)
            &&& json::field(c, key) is Some ==> key == "refresh_token"@ || key == "app_key"@ || key == "tenant"@
                || key == "scopes"@
        }),
{
    reveal_strlit("refresh_token");
    reveal_strlit("app_key");
    reveal_strlit("tenant");
    reveal_strlit("scopes");
    assert("refresh_token"@.len() == 13 && "app_key"@.len() == 7 && "tenant"@[0] == 't' && "scopes"@[0] == 's');
    assert("tenant"@.len() == 6 && "scopes"@.len() == 6);
}

/// The addresses for signing in have the tenant and what is asked for in their places.
pub proof fn law_sign_in_addresses(tenant: Seq<char>, action: Seq<char>)
    ensures
        ({
            let url = login_url(tenant, action);
            let head = "https://login.microsoftonline.com/"@;
            let middle = "/oauth2/v2.0/"@;
            &&& url.len() == head.len() + tenant.len() + middle.len() + action.len()
            &&& url.take(head.len() as int) == head
            &&& url.subrange(head.len() as int, head.len() as int + tenant.len()) == tenant
            &&& url.skip(url.len() - action.len()) == action
        }),
{
    let url = login_url(tenant, action);
    let head = "https://login.microsoftonline.com/"@;
    assert(url.take(head.len() as int) =~= head);
    assert(url.subrange(head.len() as int, head.len() as int + tenant.len()) =~= tenant);
    assert(url.skip(url.len() - action.len()) =~= action);
}

/// A listing is looked at as it is.
pub proof fn law_listings_are_seen_as_they_are(r: Result<Vec<RemoteEntry>, String>)
    ensures
        r is Ok ==> listing_view(r) == Ok::<Seq<Entry>, Seq<char>>(remote::entries_view(r->Ok_0@)),
        r is Err ==> listing_view(r) == Err::<Seq<Entry>, Seq<char>>(r->Err_0@),
{
}

/// Texts and fields are looked at as they are.
pub proof fn law_texts_are_seen_as_they_are(r: Result<String, String>, fields: Seq<(&str, &str)>, i: int)
    requires
        0 <= i < fields.len(),
    ensures
        r is Ok ==> text_result(r) == Ok::<Seq<char>, Seq<char>>(r->Ok_0@),
        r is Err ==> text_result(r) == Err::<Seq<char>, Seq<char>>(r->Err_0@),
        fields_view(fields).len() == fields.len(),
        fields_view(fields)[i] == (fields[i].0@, fields[i].1@),
{
}

/// A session has all that the service answered, such as the code to show and the code to ask with; only
/// its type, tenant, client and scopes are its own.
pub proof fn law_session_has_the_answer(
    answer: Json,
    tenant: Seq<char>,
    client_id: Seq<char>,
    scopes: Seq<char>,
    key: Seq<char>,
)
    requires
        key != "type"@,
        key != "tenant"@,
        key != "client_id"@,
        key != "scopes"@,
    ensures
        json::field(session_of(answer, tenant, client_id, scopes), key) == json::field(answer, key),
{
}

// ── laws of signing in ──────────────────────────────────────────────────────

/// A key and its value as they stand in a form.
pub open spec fn pair(key: Seq<char>, value: Seq<char>) -> Seq<char> {
    escaped(key) + seq!['='] + escaped(value)
}

/// Signing in starts with the client and the scopes of the configuration, at the address of its
/// tenant.
pub proof fn law_sign_in_starts_with_the_configuration(cfg: Config)
    ensures
        start_request(cfg).0 == login_url(cfg.tenant_used(), "devicecode"@),
        text::split(start_request(cfg).1, CharClass::Only('&')) == seq![
            pair("client_id"@, cfg.client()),
            pair("scope"@, cfg.scopes_used()),
        ],
{
    let fields = seq![("client_id"@, cfg.client()), ("scope"@, cfg.scopes_used())];
    law_form_holds_its_fields(fields, 0);
    assert(written_pairs(fields) =~= seq![
        pair("client_id"@, cfg.client()),
        pair("scope"@, cfg.scopes_used()),
    ]);
}

/// A session that was started is completed with the client and the tenant it was started with, and with
/// the code that the service gave for it.
pub proof fn law_sign_in_ends_as_it_started(raw: Seq<char>, answer: Json, sign_in: SignIn, code: Seq<char>)
    requires
        keeps_session(raw, answer, sign_in),
        json::text_field(answer, "device_code"@) == Some(code),
    ensures
        json::document(raw) is Ok,
        ({
            let session = json::document(raw)->Ok_0;
            let request = exchange_request(session, code);
            &&& json::text_field(session, "device_code"@) == Some(code)
            &&& request.0 == login_url(sign_in.tenant@, "token"@)
            &&& text::split(request.1, CharClass::Only('&')) == seq![
                pair("client_id"@, sign_in.client_id@),
                pair("grant_type"@, "urn:ietf:params:oauth:grant-type:device_code"@),
                pair("device_code"@, code),
            ]
        }),
{
    law_started_session_is_completed(raw, answer, sign_in, code);
    let fields = seq![
        ("client_id"@, sign_in.client_id@),
        ("grant_type"@, "urn:ietf:params:oauth:grant-type:device_code"@),
        ("device_code"@, code),
    ];
    law_form_holds_its_fields(fields, 0);
    assert(written_pairs(fields) =~= seq![
        pair("client_id"@, sign_in.client_id@),
        pair("grant_type"@, "urn:ietf:params:oauth:grant-type:device_code"@),
        pair("device_code"@, code),
    ]);
}

/// A token is refreshed with what the configuration says, at the address of its tenant.
pub proof fn law_refresh_uses_the_configuration(cfg: Config, token: Seq<char>)
    ensures
        refresh_request(cfg, token).0 == login_url(cfg.tenant_used(), "token"@),
        ({
            let pairs = text::split(refresh_request(cfg, token).1, CharClass::Only('&'));
            &&& pairs.len() == 4
            &&& pairs.contains(pair("refresh_token"@, token))
            &&& pairs.contains(pair("client_id"@, cfg.client()))
            &&& pairs.contains(pair("grant_type"@, "refresh_token"@))
            &&& pairs.contains(pair("scope"@, cfg.scopes_used()))
        }),
{
    let fields = refresh_fields(cfg, token);
    law_form_holds_its_fields(fields, 0);
    let pairs = written_pairs(fields);
    assert(pairs[0] == pair("client_id"@, cfg.client()));
    assert(pairs[1] == pair("grant_type"@, "refresh_token"@));
    assert(pairs[2] == pair("refresh_token"@, token));
    assert(pairs[3] == pair("scope"@, cfg.scopes_used()));
}

} // verus!
