//! Verified core of an HLS (M3U8) segment downloader.

pub mod text;
pub mod hex;
pub mod url;
pub mod key_line;
pub mod validate;
pub mod playlist;
pub mod segment;
pub mod headers;
pub mod resume;
pub mod logs;
