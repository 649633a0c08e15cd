//! Streaming multi-pattern byte scanner.
//!
//! The library locates every occurrence of a fixed set of exact byte
//! patterns ("needles") inside large binary images ("haystacks"), either
//! scanned as one whole buffer or as a sequence of fixed-size chunks with
//! boundary-safe carry-forward.  Matches are recorded with their absolute
//! offset in the logical byte stream, deduplicated across chunk boundaries,
//! and rendered into structured records with deterministic file names.

pub mod automaton;
pub mod decimal;
pub mod display_hex;
pub mod hex_parse;
pub mod matcher;
pub mod needle;
pub mod progress;
pub mod record;
pub mod scanner;
pub mod summary;
pub mod text;
