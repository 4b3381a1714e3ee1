//! What the plugins tell of themselves.

use crate::onedrive::{APP_KEY, DEFAULT_SCOPES};
use crate::text;
use crate::text::strings;
use vstd::prelude::*;
use vstd::string::*;

verus! {

/// A plugin that plays tunes or shows documents.
pub struct FileMetadata {
    pub id: String,
    pub name: String,
    pub description: String,
    /// The ways in which documents can be shown; none for tunes.
    pub modes: Vec<String>,
    pub mime_types: Vec<String>,
    pub extensions: Vec<String>,
}

impl FileMetadata {
    pub open spec fn tells(
        self,
        id: Seq<char>,
        name: Seq<char>,
        description: Seq<char>,
        modes: Seq<Seq<char>>,
        mime_types: Seq<Seq<char>>,
        extensions: Seq<Seq<char>>,
    ) -> bool {
        &&& self.id@ == id
        &&& self.name@ == name
        &&& self.description@ == description
        &&& text::texts(self.modes@) == modes
        &&& text::texts(self.mime_types@) == mime_types
        &&& text::texts(self.extensions@) == extensions
    }
}

fn file_metadata(
    id: &str,
    name: &str,
    description: &str,
    modes: &[&str],
    mime_types: &[&str],
    extensions: &[&str],
) -> (r: FileMetadata)
    ensures
        r.tells(
            id@,
            name@,
            description@,
            text::views(modes@),
            text::views(mime_types@),
            text::views(extensions@),
        ),
{
    FileMetadata {
        id: id.to_string(),
        name: name.to_string(),
        description: description.to_string(),
        modes: strings(modes),
        mime_types: strings(mime_types),
        extensions: strings(extensions),
    }
}

/// The player of AYT tunes.
pub fn ayt_metadata() -> (r: FileMetadata)
    ensures
        r.tells(
            "ayt"@,
            "AYT Decoder"@,
            "Decodes AYT and streams PCM frames to kkc-rust audio output"@,
            Seq::empty(),
            seq!["audio/x-ayt"@],
            seq!["ayt"@],
        ),
{
    let r = file_metadata(
        "ayt",
        "AYT Decoder",
        "Decodes AYT and streams PCM frames to kkc-rust audio output",
        &[],
        &["audio/x-ayt"],
        &["ayt"],
    );
    assert(text::texts(r.modes@) =~= Seq::empty());
    assert(text::texts(r.mime_types@) =~= seq!["audio/x-ayt"@]);
    assert(text::texts(r.extensions@) =~= seq!["ayt"@]);
    r
}

/// The player of YM tunes.
pub fn ym_metadata() -> (r: FileMetadata)
    ensures
        r.tells(
            "ym"@,
            "YM Decoder"@,
            "Decodes YM5/YM6 and streams PCM frames to kkc-rust audio output"@,
            Seq::empty(),
            seq!["audio/x-ym"@, "audio/x-ym6"@],
            seq!["ym"@],
        ),
{
    let r = file_metadata(
        "ym",
        "YM Decoder",
        "Decodes YM5/YM6 and streams PCM frames to kkc-rust audio output",
        &[],
        &["audio/x-ym", "audio/x-ym6"],
        &["ym"],
    );
    assert(text::texts(r.modes@) =~= Seq::empty());
    assert(text::texts(r.mime_types@) =~= seq!["audio/x-ym"@, "audio/x-ym6"@]);
    assert(text::texts(r.extensions@) =~= seq!["ym"@]);
    r
}

/// The viewer of EPUB books.
pub fn epub_metadata() -> (r: FileMetadata)
    ensures
        r.tells(
            "epub"@,
            "EPUB Viewer"@,
            "EPUB ebook viewer"@,
            seq!["text"@],
            seq!["application/epub+zip"@],
            seq!["epub"@],
        ),
{
    let r = file_metadata(
        "epub",
        "EPUB Viewer",
        "EPUB ebook viewer",
        &["text"],
        &["application/epub+zip"],
        &["epub"],
    );
    assert(text::texts(r.modes@) =~= seq!["text"@]);
    assert(text::texts(r.mime_types@) =~= seq!["application/epub+zip"@]);
    assert(text::texts(r.extensions@) =~= seq!["epub"@]);
    r
}

/// The viewer of PDF documents.
pub fn pdf_metadata() -> (r: FileMetadata)
    ensures
        r.tells(
            "pdf"@,
            "PDF Viewer"@,
            "PDF viewer with MuPDF text extraction"@,
            seq!["text"@, "image"@],
            seq!["application/pdf"@],
            seq!["pdf"@],
        ),
{
    let r = file_metadata(
        "pdf",
        "PDF Viewer",
        "PDF viewer with MuPDF text extraction",
        &["text", "image"],
        &["application/pdf"],
        &["pdf"],
    );
    assert(text::texts(r.modes@) =~= seq!["text"@, "image"@]);
    assert(text::texts(r.mime_types@) =~= seq!["application/pdf"@]);
    assert(text::texts(r.extensions@) =~= seq!["pdf"@]);
    r
}

/// The viewer of spreadsheets.
pub fn xlsx_metadata() -> (r: FileMetadata)
    ensures
        r.tells(
            "xlsx"@,
            "XLSX Viewer"@,
            "XLSX / XLS / ODS spreadsheet viewer"@,
            seq!["text"@],
            seq![
                "application/vnd.openxmlformats-officedocument.spreadsheetml.sheet"@,
                "application/vnd.ms-excel"@,
                "application/vnd.oasis.opendocument.spreadsheet"@,
            ],
            seq!["xlsx"@, "xls"@, "xlsm"@, "ods"@],
        ),
{
    let r = file_metadata(
        "xlsx",
        "XLSX Viewer",
        "XLSX / XLS / ODS spreadsheet viewer",
        &["text"],
        &[
            "application/vnd.openxmlformats-officedocument.spreadsheetml.sheet",
            "application/vnd.ms-excel",
            "application/vnd.oasis.opendocument.spreadsheet",
        ],
        &["xlsx", "xls", "xlsm", "ods"],
    );
    assert(text::texts(r.modes@) =~= seq!["text"@]);
    assert(text::texts(r.mime_types@) =~= seq![
        "application/vnd.openxmlformats-officedocument.spreadsheetml.sheet"@,
        "application/vnd.ms-excel"@,
        "application/vnd.oasis.opendocument.spreadsheet"@,
    ]);
    assert(text::texts(r.extensions@) =~= seq!["xlsx"@, "xls"@, "xlsm"@, "ods"@]);
    r
}

/// A field of an account's configuration.
pub struct ConfigField {
    pub key: String,
    pub label: String,
    pub secret: bool,
    pub required: bool,
    pub default_value: String,
}

/// A field of an account's configuration.
pub struct Field {
    pub key: Seq<char>,
    pub label: Seq<char>,
    pub secret: bool,
    pub required: bool,
    pub default_value: Seq<char>,
}

impl View for ConfigField {
    type V = Field;

    open spec fn view(&self) -> Field {
        Field {
            key: self.key@,
            label: self.label@,
            secret: self.secret,
            required: self.required,
            default_value: self.default_value@,
        }
    }
}

/// The views of some fields.
pub open spec fn fields_view(v: Seq<ConfigField>) -> Seq<Field> {
    v.map_values(|f: ConfigField| f@)
}

fn config_field(key: &str, label: &str, secret: bool, required: bool, default_value: &str) -> (r: ConfigField)
    ensures
        r@ == (Field { key: key@, label: label@, secret, required, default_value: default_value@ }),
{
    ConfigField {
        key: key.to_string(),
        label: label.to_string(),
        secret,
        required,
        default_value: default_value.to_string(),
    }
}

/// A plugin for a remote file system.
pub struct RemoteMetadata {
    pub id: String,
    pub name: String,
    pub version: String,
    pub description: String,
    pub scheme: String,
    pub fields: Vec<ConfigField>,
}

/// The Dropbox file system.
pub fn dropbox_metadata() -> (r: RemoteMetadata)
    ensures
        r.id@ == "dropbox"@,
        r.name@ == "Dropbox"@,
        r.version@ == "0.1.0"@,
        r.description@ == "Dropbox remote filesystem"@,
        r.scheme@ == "dropbox"@,
        fields_view(r.fields@) == seq![
            Field {
                key: "access_token"@,
                label: "Access token"@,
                secret: true,
                required: true,
                default_value: ""@,
            },
        ],
{
    let mut fields: Vec<ConfigField> = Vec::new();
    fields.push(config_field("access_token", "Access token", true, true, ""));
    assert(fields_view(fields@) =~= seq![fields@[0]@]);
    RemoteMetadata {
        id: "dropbox".to_string(),
        name: "Dropbox".to_string(),
        version: "0.1.0".to_string(),
        description: "Dropbox remote filesystem".to_string(),
        scheme: "dropbox".to_string(),
        fields,
    }
}

/// The OneDrive file system.
pub fn onedrive_metadata() -> (r: RemoteMetadata)
    ensures
        r.id@ == "onedrive"@,
        r.name@ == "OneDrive"@,
        r.version@ == "0.1.1"@,
        r.description@ == "OneDrive remote filesystem using Microsoft Graph"@,
        r.scheme@ == "onedrive"@,
        fields_view(r.fields@) == seq![
            Field {
                key: "app_key"@,
                label: "App key"@,
                secret: false,
                required: true,
                default_value: APP_KEY@,
            },
            Field {
                key: "refresh_token"@,
                label: "Refresh token"@,
                secret: true,
                required: true,
                default_value: ""@,
            },
            Field {
                key: "tenant"@,
                label: "Tenant"@,
                secret: false,
                required: false,
                default_value: "common"@,
            },
            Field {
                key: "scopes"@,
                label: "Scopes"@,
                secret: false,
                required: false,
                default_value: DEFAULT_SCOPES@,
            },
            Field {
                key: "access_token"@,
                label: "Access token (legacy)"@,
                secret: true,
                required: false,
                default_value: ""@,
            },
        ],
{
    let mut fields: Vec<ConfigField> = Vec::new();
    fields.push(config_field("app_key", "App key", false, true, APP_KEY));
    fields.push(config_field("refresh_token", "Refresh token", true, true, ""));
    fields.push(config_field("tenant", "Tenant", false, false, "common"));
    fields.push(config_field("scopes", "Scopes", false, false, DEFAULT_SCOPES));
    fields.push(config_field("access_token", "Access token (legacy)", true, false, ""));
    assert(fields_view(fields@) =~= seq![
        fields@[0]@,
        fields@[1]@,
        fields@[2]@,
        fields@[3]@,
        fields@[4]@,
    ]);
    RemoteMetadata {
        id: "onedrive".to_string(),
        name: "OneDrive".to_string(),
        version: "0.1.1".to_string(),
        description: "OneDrive remote filesystem using Microsoft Graph".to_string(),
        scheme: "onedrive".to_string(),
        fields,
    }
}

/// The fields of a configuration are looked at as they are.
pub proof fn law_fields_are_seen_as_they_are(v: Seq<ConfigField>, i: int)
    requires
        0 <= i < v.len(),
    ensures
        fields_view(v).len() == v.len(),
        fields_view(v)[i].key == v[i].key@,
        fields_view(v)[i].label == v[i].label@,
        fields_view(v)[i].secret == v[i].secret,
        fields_view(v)[i].required == v[i].required,
        fields_view(v)[i].default_value == v[i].default_value@,
{
}

} // verus!
