//! The settings of a download and how far it has come.
use crate::address::Address;
use crate::headers::{header_fields, header_new, no_fields};
use reqwest::header::HeaderMap;
use vstd::prelude::*;

verus! {

/// The settings of a download and how far it has come.
pub struct Config {
    /// The directory to save to; the current one where it is empty.
    pub save_dir: String,
    /// The digest that the file is expected to have; none where it is empty.
    pub file_md5: String,
    pub url: Option<Address>,
    /// The headers to send with every request.
    pub headers: HeaderMap,
    /// The length of the file.
    pub content_len: u64,
    /// How much of it has been written.
    pub download_len: u64,
    /// The progress that was reported last, in percent.
    pub progress: u8,
    pub chunk_size: u64,
    /// How many seconds a request may take; no limit where it is zero.
    pub timeout: u64,
    pub num_workers: usize,
    pub max_retries: u8,
    /// Whether to show the headers of the server.
    pub debug: bool,
}

impl Default for Config {
    fn default() -> (r: Self)
        ensures
            r.save_dir@ == Seq::<char>::empty(),
            r.file_md5@ == Seq::<char>::empty(),
            r.url is None,
            header_fields(r.headers) == no_fields(),
            r.content_len == 0,
            r.download_len == 0,
            r.progress == 0,
            r.chunk_size == 2097152,
            r.timeout == 0,
            r.num_workers == 2,
            r.max_retries == 3,
            !r.debug,
    {
        Config {
            save_dir: String::new(),
            file_md5: String::new(),
            url: None,
            headers: header_new(),
            content_len: 0,
            download_len: 0,
            progress: 0,
            chunk_size: 2097152,
            timeout: 0,
            num_workers: 2,
            max_retries: 3,
            debug: false,
        }
    }
}

} // verus!
