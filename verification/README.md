# kkc_plugins

The logic of seven plugins for the `kkc-rust` file manager, verified with Verus:

- players for AYT and YM tunes (`ayt`, `ym`, over `psg`, `stream` and `lzh`),
- viewers for EPUB books, spreadsheets and PDF documents (`epub`, `xlsx`, `pdf`, over `html`,
  `wrap`, `width`, `columns`, `page_cache`, `viewer` and `state`),
- remote file systems on Dropbox and OneDrive (`dropbox`, `onedrive`, over `remote`, `paths` and
  `json`),
- what each plugin tells of itself (`plugin`).

Every function states in its contract what it returns or changes, over the spec functions beside
it. The proof functions called `law_...` state what holds across several functions. What comes
from other crates stands behind wrappers whose doc comments say what is taken on trust.

`app/` is ordinary Rust around the library: files, network, MuPDF, floating-point sound, and the
interface to the host in `app/abi`. `tests/` runs the library with the real crates.
