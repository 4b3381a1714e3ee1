//! Viewers, decoders and remote file systems for the kkc file manager.

pub mod ayt;
pub mod columns;
pub mod dropbox;
pub mod epub;
pub mod html;
pub mod json;
pub mod lzh;
pub mod onedrive;
pub mod page_cache;
pub mod paths;
pub mod pdf;
pub mod plugin;
pub mod psg;
pub mod remote;
pub mod state;
pub mod stream;
pub mod text;
pub mod viewer;
pub mod width;
pub mod wrap;
pub mod xlsx;
pub mod ym;
