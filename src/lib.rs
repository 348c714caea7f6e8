//! Conversion of ASS/SSA subtitles into SubRip, with a prefix-trie text
//! rewriter for Chinese script conversion and a writer for stored ZIP archives.

pub mod text;
pub mod lines;
pub mod error;
pub mod time;
pub mod dict;
pub mod markup;
pub mod options;
pub mod subtitle;
pub mod archive;
pub mod charset;
pub mod convert;
pub mod walk;
pub mod unpack;
