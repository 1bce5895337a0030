//! Completion ranking and language-server session logic for a terminal editor.
//!
//! Candidates sent by a language server are resolved (`items`, `snippet`), ranked against
//! the typed prefix (`fuzzy`, `ranking`) and shown in a menu (`menu`). The session with the
//! server (`session`, `table`, `server_spec`) correlates requests with responses, tracks
//! document versions and drops results computed on superseded text; `framing` frames the
//! messages on the wire. `text` and `editing` hold the column arithmetic on one line.

pub mod editing;
pub mod framing;
pub mod fuzzy;
pub mod items;
pub mod menu;
pub mod ranking;
pub mod server_spec;
pub mod session;
pub mod snippet;
pub mod table;
pub mod text;
