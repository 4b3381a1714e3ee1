use kkc_plugins::remote::{
    comes_before, http_status_message, insert_entry, join_remote, listed, log_line, make_entry, normalize_path,
    RemoteEntry,
};
use kkc_plugins::{dropbox, onedrive};

fn names(entries: &[RemoteEntry]) -> Vec<&str> {
    entries.iter().map(|e| e.name.as_str()).collect()
}

fn message<T>(r: Result<T, String>) -> String {
    match r {
        Ok(_) => panic!("accepted"),
        Err(m) => m,
    }
}

#[test]
fn paths_are_normalized() {
    assert_eq!(normalize_path(""), "/");
    assert_eq!(normalize_path("  "), "/");
    assert_eq!(normalize_path(" / "), "/");
    assert_eq!(normalize_path("///"), "/");
    assert_eq!(normalize_path(" a/b// "), "/a/b");
    assert_eq!(normalize_path(&normalize_path("x/y/")), "/x/y");
    assert_eq!(normalize_path("/a /"), "/a ");
}

#[test]
fn paths_are_joined() {
    assert_eq!(join_remote("", "n"), "/n");
    assert_eq!(join_remote("/", "n"), "/n");
    assert_eq!(join_remote("a/", "n"), "/a/n");
    assert_eq!(join_remote("/a/b", "n m"), "/a/b/n m");
}

#[test]
fn entries_are_sorted_by_name() {
    assert!(comes_before("a", "b"));
    assert!(comes_before("B", "a"));
    assert!(comes_before("a", "aa"));
    assert!(!comes_before("a", "a"));
    assert!(comes_before("z", "\u{e9}"));
    let mut out: Vec<RemoteEntry> = Vec::new();
    for (name, size) in [("b", 1), ("a", 2), ("b", 3), ("B", 4), ("c", 5)] {
        insert_entry(&mut out, make_entry("/", name, false, Some(size), None));
    }
    assert_eq!(names(&out), vec!["B", "a", "b", "b", "c"]);
    let sizes: Vec<u64> = out.iter().map(|e| e.size).collect();
    assert_eq!(sizes, vec![4, 2, 1, 3, 5]);
}

#[test]
fn hidden_entries_are_listed_on_demand() {
    assert!(listed("a", false));
    assert!(!listed(".a", false));
    assert!(listed(".a", true));
    assert!(!listed("", true));
}

#[test]
fn entries_have_modes() {
    let dir = make_entry("/x", "d", true, None, Some(7));
    assert_eq!((dir.path.as_str(), dir.mode, dir.size, dir.modified_unix), ("/x/d", 0o755, 0, 7));
    let file = make_entry("/x", "f", false, Some(3), None);
    assert_eq!((file.mode, file.size, file.modified_unix, file.is_symlink), (0o644, 3, 0, false));
}

#[test]
fn messages_are_worded() {
    assert_eq!(http_status_message("Dropbox", 409, "why"), "Dropbox HTTP 409: why");
    assert_eq!(
        log_line("dropbox", "/a", "n", "/a/n"),
        "dropbox list_dir: cwd=/a, name=n, joined_path=/a/n"
    );
}

fn token(t: &str) -> Result<dropbox::Config, String> {
    Ok(dropbox::Config { access_token: t.to_string() })
}

#[test]
fn dropbox_needs_a_token() {
    assert_eq!(message(dropbox::parse_config(token(" \t"))), "Dropbox access_token is required");
    assert_eq!(message(dropbox::parse_config(Err("bad json".to_string()))), "bad json");
    assert_eq!(dropbox::parse_config(token(" t ")).unwrap().access_token, " t ");
}

#[test]
fn dropbox_bodies() {
    assert_eq!(dropbox::dropbox_path("/"), "");
    assert_eq!(dropbox::dropbox_path("a/b/"), "/a/b");
    assert_eq!(dropbox::path_body("/"), "{\"path\":\"\"}");
    assert_eq!(dropbox::path_body("a\"b"), "{\"path\":\"/a\\\"b\"}");
    assert_eq!(dropbox::make_dir_body("n"), "{\"autorename\":false,\"path\":\"/n\"}");
    assert_eq!(
        dropbox::upload_body("/n"),
        "{\"autorename\":true,\"mode\":\"add\",\"mute\":false,\"path\":\"/n\",\"strict_conflict\":false}"
    );
}

#[test]
fn dropbox_downloads_are_planned() {
    let plan = dropbox::download_plan(false, token("T"), "dir/file.txt/").unwrap();
    assert_eq!(plan.authorization, "Bearer T");
    assert_eq!(plan.name, "file.txt");
    assert_eq!(plan.remote, "/dir/file.txt");
    assert_eq!(plan.argument, "{\"path\":\"/dir/file.txt\"}");
    assert_eq!(
        message(dropbox::download_plan(true, token("T"), "a")),
        "Dropbox directory download is not implemented yet"
    );
    assert_eq!(message(dropbox::download_plan(false, token(""), "a")), "Dropbox access_token is required");
    assert_eq!(message(dropbox::download_plan(false, token("T"), "/")), "remote path has no file name");
    assert_eq!(message(dropbox::download_plan(false, token("T"), "/a/..")), "remote path has no file name");
    assert_eq!(message(dropbox::download_named(false, token("T"), "/a", None)), "remote path has no file name");
}

#[test]
fn dropbox_uploads_are_planned() {
    let plan = dropbox::upload_plan(false, token("T"), "/home/me/f.txt", "/dir").unwrap();
    assert_eq!(plan.name, "f.txt");
    assert_eq!(plan.remote, "/dir/f.txt");
    assert_eq!(plan.argument, dropbox::upload_body("/dir/f.txt"));
    assert_eq!(
        message(dropbox::upload_plan(true, token("T"), "a", "/")),
        "Dropbox directory upload is not implemented yet"
    );
    assert_eq!(message(dropbox::upload_plan(false, token("T"), "..", "/")), "local path has no file name");
    assert_eq!(message(dropbox::upload_named(false, token(" "), "/", None)), "Dropbox access_token is required");
}

#[test]
fn dropbox_listings_are_read() {
    let reply = "{\"entries\":[\
        {\".tag\":\"file\",\"name\":\"b\",\"size\":12,\"server_modified\":\"2020-01-01T00:00:00Z\"},\
        {\".tag\":\"folder\",\"name\":\"a\"},\
        {\"name\":\".h\"},\
        {\"size\":3},\
        {\"name\":\"c\",\"size\":-1,\"server_modified\":\"soon\",\"client_modified\":\"1970-01-01T01:00:10+01:00\"}\
    ]}";
    let entries = dropbox::list_entries(reply, "/dir", false).unwrap();
    assert_eq!(names(&entries), vec!["a", "b", "c"]);
    assert!(entries[0].is_dir);
    assert_eq!(entries[0].mode, 0o755);
    assert_eq!(entries[1].path, "/dir/b");
    assert_eq!(entries[1].size, 12);
    assert_eq!(entries[1].modified_unix, 1_577_836_800);
    assert_eq!(entries[2].size, 0);
    assert_eq!(entries[2].modified_unix, 10);
    assert_eq!(names(&dropbox::list_entries(reply, "/", true).unwrap()), vec![".h", "a", "b", "c"]);
    assert_eq!(
        message(dropbox::list_entries("{\"entries\":{}}", "/", false)),
        "Dropbox list_folder response has no entries"
    );
    assert!(message(dropbox::list_entries("{", "/", false)).starts_with("EOF while parsing"));
    assert_eq!(dropbox::check_reply("null"), Ok(()));
    assert!(dropbox::check_reply("").is_err());
}

fn config(access: Option<&str>, refresh: Option<&str>, app: Option<&str>, client: Option<&str>) -> onedrive::Config {
    onedrive::Config {
        access_token: access.map(|s| s.to_string()),
        refresh_token: refresh.map(|s| s.to_string()),
        app_key: app.map(|s| s.to_string()),
        client_id: client.map(|s| s.to_string()),
        tenant: None,
        scopes: None,
    }
}

#[test]
fn blank_values_count_as_none() {
    assert_eq!(onedrive::optional_value(Some(" x ")), Some("x"));
    assert_eq!(onedrive::optional_value(Some(" ")), None);
    assert_eq!(onedrive::optional_value(None), None);
    assert_eq!(onedrive::onedrive_client_id(&config(None, None, Some(" k "), Some("c"))), Some("k"));
    assert_eq!(onedrive::onedrive_client_id(&config(None, None, Some(" "), Some("c"))), Some("c"));
    assert_eq!(onedrive::onedrive_client_id(&config(None, None, None, None)), Some(onedrive::APP_KEY));
    assert_eq!(onedrive::config_text(" \n"), "{}");
    assert_eq!(onedrive::config_text("{ }"), "{ }");
}

#[test]
fn onedrive_needs_a_token() {
    assert!(onedrive::parse_config(Ok(config(Some("a"), None, None, None))).is_ok());
    assert!(onedrive::parse_config(Ok(config(None, Some("r"), None, None))).is_ok());
    assert_eq!(
        message(onedrive::parse_config(Ok(config(Some(" "), Some(""), Some("k"), None)))),
        "OneDrive refresh_token is required"
    );
    assert_eq!(message(onedrive::parse_config(Err("bad".to_string()))), "bad");
}

#[test]
fn forms_are_escaped() {
    assert_eq!(onedrive::form_urlencoded(&[("a b", "c&d"), ("x", "\u{e9}-1")]), "a%20b=c%26d&x=%C3%A9%2D1");
    assert_eq!(onedrive::form_urlencoded(&[]), "");
}

#[test]
fn escaped_texts_differ() {
    let mut seen: Vec<String> = Vec::new();
    for text in ["a b", "a%20b", "a+b", "ab", "\u{e9}", "%C3%A9", ""] {
        let form = onedrive::form_urlencoded(&[("k", text)]);
        assert!(form.chars().skip(2).all(|c| c == '%' || c.is_ascii_alphanumeric()));
        assert!(!seen.contains(&form));
        seen.push(form);
    }
}

#[test]
fn items_have_addresses() {
    let root = onedrive::GRAPH_ROOT;
    assert_eq!(onedrive::graph_item_url("/", ""), root);
    assert_eq!(onedrive::graph_item_url("", "/children/"), format!("{root}/children"));
    assert_eq!(onedrive::graph_item_url("a b/c", ""), format!("{root}:/a%20b/c:"));
    assert_eq!(onedrive::graph_item_url("/a//c.txt", "content"), format!("{root}:/a/c%2Etxt:/content"));
    assert_eq!(onedrive::encode_graph_path("/"), "");
}

#[test]
fn tokens_are_had_or_asked_for() {
    match onedrive::access_token(&config(Some(" t "), None, None, None)) {
        Ok(onedrive::Access::Ready(t)) => assert_eq!(t, "t"),
        _ => panic!("not ready"),
    }
    let mut cfg = config(None, Some("r&1"), None, Some("me"));
    cfg.tenant = Some(" org ".to_string());
    match onedrive::access_token(&cfg) {
        Ok(onedrive::Access::Refresh(form)) => {
            assert_eq!(form.url, "https://login.microsoftonline.com/org/oauth2/v2.0/token");
            assert_eq!(
                form.body,
                "client%5Fid=me&grant%5Ftype=refresh%5Ftoken&refresh%5Ftoken=r%261\
                 &scope=offline%5Faccess%20Files%2EReadWrite%2EAll"
            );
        }
        _ => panic!("not asked for"),
    }
    assert_eq!(
        message(onedrive::refresh_access_token(&config(None, None, None, None))),
        "OneDrive refresh_token is required"
    );
    assert!(onedrive::access_token(&config(None, Some(" "), None, None)).is_err());
}

#[test]
fn token_replies_are_read() {
    assert_eq!(onedrive::token_from_reply("{\"access_token\":\" t\"}"), Ok(" t".to_string()));
    let missing = Err("OneDrive token response has no access_token".to_string());
    assert_eq!(onedrive::token_from_reply("{\"access_token\":\" \"}"), missing);
    assert_eq!(onedrive::token_from_reply("{}"), missing);
    assert_eq!(onedrive::token_from_reply("[]"), missing);
    assert!(message(onedrive::token_from_reply("?")).starts_with("expected value"));
}

#[test]
fn onedrive_listings_are_read() {
    let reply = "{\"value\":[\
        {\"name\":\"z\",\"size\":1,\"lastModifiedDateTime\":\"2020-01-01T00:00:00.5Z\"},\
        {\"name\":\"dir\",\"folder\":null},\
        {\"name\":\".x\"}]}";
    let entries = onedrive::list_entries(reply, "/p", false).unwrap();
    assert_eq!(names(&entries), vec!["dir", "z"]);
    assert!(entries[0].is_dir);
    assert!(!entries[1].is_dir);
    assert_eq!(entries[1].modified_unix, 1_577_836_800);
    assert_eq!(entries[1].path, "/p/z");
    assert_eq!(
        message(onedrive::list_entries("{}", "/", true)),
        "OneDrive children response has no value array"
    );
    assert!(onedrive::list_entries("{]", "/", true).is_err());
    assert_eq!(onedrive::check_reply("{}"), Ok(()));
    assert!(onedrive::check_reply("{").is_err());
}

#[test]
fn onedrive_transfers_are_planned() {
    let down = onedrive::download_plan("a/b c.txt").unwrap();
    assert_eq!(down.name, "b c.txt");
    assert_eq!(down.remote, "/a/b c.txt");
    assert_eq!(down.url, onedrive::graph_item_url("/a/b c.txt", "content"));
    assert_eq!(message(onedrive::download_plan("/")), "remote path has no file name");
    let up = onedrive::upload_plan("x/y.txt", "/d").unwrap();
    assert_eq!((up.name.as_str(), up.remote.as_str()), ("y.txt", "/d/y.txt"));
    assert_eq!(message(onedrive::upload_plan("/", "/d")), "local path has no file name");
    assert_eq!(message(onedrive::upload_named("/d", None)), "local path has no file name");
    assert_eq!(message(onedrive::download_named("/d", None)), "remote path has no file name");
    assert_eq!(message(onedrive::check_download(true)), "OneDrive directory download is not implemented yet");
    assert_eq!(message(onedrive::check_upload(true)), "OneDrive directory upload is not implemented yet");
    assert!(onedrive::check_download(false).is_ok());
    assert!(onedrive::check_upload(false).is_ok());
}

#[test]
fn onedrive_folders_are_made_in_their_parents() {
    let body = "{\"@microsoft.graph.conflictBehavior\":\"fail\",\"folder\":{},\"name\":\"new\"}";
    let deep = onedrive::make_dir_request("a/b/new").unwrap();
    assert_eq!(deep.url, onedrive::graph_item_url("/a/b", "children"));
    assert_eq!(deep.body, body);
    for (path, dir) in [("/v1./new", "/v1."), ("/a//new", "/a"), ("/a/./new", "/a"), ("/a/new/.", "/a"), ("/a:b/new", "/a:b")] {
        let request = onedrive::make_dir_request(path).unwrap();
        assert_eq!(request.url, onedrive::graph_item_url(dir, "children"));
        assert_eq!(request.body, body);
    }
    for path in ["/./new", "/new/"] {
        let request = onedrive::make_dir_request(path).unwrap();
        assert_eq!(request.url, onedrive::graph_item_url("/", "children"));
    }
    let top = onedrive::make_dir_request("new").unwrap();
    assert_eq!(top.url, onedrive::graph_item_url("/", "children"));
    assert_eq!(message(onedrive::make_dir_request("/")), "remote path has no folder name");
    let named = onedrive::make_dir_named(Some("new".to_string()), None).unwrap();
    assert_eq!(named.url, top.url);
}

#[test]
fn sign_in_goes_round() {
    let mut cfg = config(None, None, Some("key"), None);
    cfg.scopes = Some("s1 s2".to_string());
    let start = onedrive::auth_start(Ok(cfg)).unwrap();
    assert_eq!(start.request.url, "https://login.microsoftonline.com/common/oauth2/v2.0/devicecode");
    assert_eq!(start.request.body, "client%5Fid=key&scope=s1%20s2");
    let session = onedrive::session_from_reply("{\"device_code\":\"D\",\"user_code\":\"U\"}", &start)
        .unwrap()
        .unwrap();
    assert_eq!(
        session,
        "{\"client_id\":\"key\",\"device_code\":\"D\",\"scopes\":\"s1 s2\",\"tenant\":\"common\",\
         \"type\":\"device_code\",\"user_code\":\"U\"}"
    );
    let exchange = onedrive::auth_exchange(&session).unwrap();
    assert_eq!(exchange.client_id, "key");
    assert_eq!(exchange.tenant, "common");
    assert_eq!(exchange.scopes, "s1 s2");
    assert_eq!(exchange.request.url, "https://login.microsoftonline.com/common/oauth2/v2.0/token");
    assert_eq!(
        exchange.request.body,
        "client%5Fid=key&grant%5Ftype=urn%3Aietf%3Aparams%3Aoauth%3Agrant%2Dtype%3Adevice%5Fcode&device%5Fcode=D"
    );
    let stored =
        onedrive::auth_complete(&exchange, "{\"refresh_token\":\"R\",\"access_token\":\"A\"}").unwrap();
    assert_eq!(
        stored,
        "{\"app_key\":\"key\",\"refresh_token\":\"R\",\"scopes\":\"s1 s2\",\"tenant\":\"common\"}"
    );
}

#[test]
fn sign_in_faults_have_their_messages() {
    let start = onedrive::auth_start(Ok(config(None, None, None, None))).unwrap();
    assert_eq!(start.client_id, onedrive::APP_KEY);
    assert_eq!(start.scopes, onedrive::DEFAULT_SCOPES);
    assert_eq!(message(onedrive::auth_start(Err("bad".to_string()))), "bad");
    assert!(onedrive::session_from_reply("{", &start).is_err());
    assert_eq!(onedrive::session_from_reply("[]", &start), Ok(None));
    assert!(onedrive::session_from_reply("null", &start).unwrap().is_some());
    assert_eq!(message(onedrive::auth_exchange("{}")), "OneDrive auth session has no device_code");
    assert!(onedrive::auth_exchange("").is_err());
    let exchange = onedrive::auth_exchange("{\"device_code\":\"D\"}").unwrap();
    assert_eq!(exchange.client_id, onedrive::APP_KEY);
    assert_eq!(exchange.tenant, "common");
    assert_eq!(
        message(onedrive::auth_complete(&exchange, "{\"refresh_token\":1}")),
        "OneDrive token response has no refresh_token"
    );
    assert!(onedrive::auth_complete(&exchange, "").is_err());
}
