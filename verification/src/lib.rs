//! A title identification engine: it ingests a bulk movie metadata corpus,
//! builds a tag-based inverted index over the surviving records, persists
//! the pair as a compact compressed snapshot, and answers fuzzy
//! `(text, optional year)` queries with deterministic ranking and
//! tie-breaking. Every function is verified against the contracts stated
//! here; the handful of calls into outside code (Unicode lowercasing, edit
//! distance, gzip) sit behind trusted declarations in `outside`.

pub mod codec;
pub mod counter;
pub mod error;
pub mod index;
pub mod ingest;
pub mod lookup;
pub mod outside;
pub mod parse;
pub mod title;
pub mod tokens;
pub mod util;

pub use title::Title;
pub use title::TitleKind;
