//! Rati serves single tiles out of a tar archive by byte ranges.

pub mod archive;
pub mod codec;
pub mod date;
pub mod error;
pub mod etag;
pub mod http;
pub mod index;
pub mod open;
pub mod range;
pub mod scan;
pub mod server;
pub mod tar;
pub mod text;
pub mod tile;
