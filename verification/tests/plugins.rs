use kkc_plugins::plugin::{
    ayt_metadata, dropbox_metadata, epub_metadata, onedrive_metadata, pdf_metadata, xlsx_metadata, ym_metadata,
};

#[test]
fn file_plugins_introduce_themselves() {
    let ayt = ayt_metadata();
    assert_eq!((ayt.id.as_str(), ayt.name.as_str()), ("ayt", "AYT Decoder"));
    assert_eq!(ayt.description, "Decodes AYT and streams PCM frames to kkc-rust audio output");
    assert_eq!(ayt.mime_types, vec!["audio/x-ayt"]);
    assert_eq!(ayt.extensions, vec!["ayt"]);
    assert!(ayt.modes.is_empty());
    let ym = ym_metadata();
    assert_eq!(ym.id, "ym");
    assert_eq!(ym.mime_types, vec!["audio/x-ym", "audio/x-ym6"]);
    let epub = epub_metadata();
    assert_eq!(epub.description, "EPUB ebook viewer");
    assert_eq!(epub.modes, vec!["text"]);
    let pdf = pdf_metadata();
    assert_eq!(pdf.modes, vec!["text", "image"]);
    assert_eq!(pdf.mime_types, vec!["application/pdf"]);
    let xlsx = xlsx_metadata();
    assert_eq!(xlsx.extensions, vec!["xlsx", "xls", "xlsm", "ods"]);
    assert_eq!(xlsx.mime_types.len(), 3);
}

#[test]
fn remote_plugins_introduce_themselves() {
    let dropbox = dropbox_metadata();
    assert_eq!(dropbox.version, "0.1.0");
    assert_eq!(dropbox.scheme, "dropbox");
    assert_eq!(dropbox.fields.len(), 1);
    assert_eq!(dropbox.fields[0].key, "access_token");
    assert!(dropbox.fields[0].secret && dropbox.fields[0].required);
    let onedrive = onedrive_metadata();
    assert_eq!(onedrive.version, "0.1.1");
    let keys: Vec<&str> = onedrive.fields.iter().map(|f| f.key.as_str()).collect();
    assert_eq!(keys, vec!["app_key", "refresh_token", "tenant", "scopes", "access_token"]);
    assert_eq!(onedrive.fields[2].default_value, "common");
    assert_eq!(onedrive.fields[3].default_value, "offline_access Files.ReadWrite.All");
    assert!(!onedrive.fields[4].required);
}
