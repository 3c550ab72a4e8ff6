//! The core of an HTTP file downloader that fetches a file in ranges, several at a time, and
//! goes on where an earlier download stopped.
pub mod address;
pub mod chunked;
pub mod config;
pub mod digest;
pub mod error;
pub mod filename;
pub mod headers;
pub mod http;
pub mod number;
pub mod order;
pub mod paths;
pub mod percent;
pub mod ranges;
pub mod status;
pub mod stream;
pub mod text;
pub mod worker;

pub use crate::config::Config;
pub use crate::digest::get_file_md5;
pub use crate::http::HttpDownload;
pub use crate::paths::uzip_file;
