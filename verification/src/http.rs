//! A download: its settings, what the server said of the file, and the decisions that do
//! not depend on the course of the transfer.
use crate::address::{address_of, parse_address, parsed_view, Address, AddressError};
use crate::config::Config;
use crate::error::Error;
use crate::filename::{choose_filename, file_name};
use crate::headers::{
    first_value, header_clone, header_fields, header_get, header_insert, header_remove,
    lemma_header_names, no_fields, show_headers, shows, value_bytes, value_text, visible_byte,
    visible_text, HeaderError,
};
use crate::number::{number, parse_number, NumberError};
use crate::order::by_offset;
use crate::paths::{file_path, file_path_is};
use crate::ranges::{
    apart, as_nats, chunk_offsets, chunk_ranges, law_new_block_is_not_requested_again, plan_resume,
    plannable, requested, resume_ranges, ByteRange,
};
use crate::status::{
    ends_with_line, law_recorded_piece_is_read_back, line_records, lines, lines_readable,
    read_status, status_line, total_bytes, Record, StatusError,
};
use crate::text::{ascii_text, ascii_to_text};
use reqwest::header::HeaderMap;
use vstd::prelude::*;
use vstd::utf8::encode_utf8;

verus! {

/// How many seconds asking the server for its headers may take.
pub const PROBE_TIMEOUT: u64 = 10;

/// A download.
pub struct HttpDownload {
    pub conf: Config,
    /// The name under which the file is saved.
    pub filename: String,
    /// How many ranges have been requested again.
    pub retries: u8,
    /// Whether the server serves ranges.
    pub support_chunk: bool,
    /// Whether the file is open for writing.
    pub file_open: bool,
    /// Whether the status file is open for writing.
    pub status_open: bool,
}

/// How a file is transferred.
#[derive(Clone, Copy, Debug, PartialEq, Eq, Structural)]
pub enum Mode {
    /// In ranges, several at a time.
    Chunked,
    /// In one response.
    Whole,
}

/// What is to be done when a download has finished.
#[derive(Clone, Debug, PartialEq, Eq)]
pub struct Finished {
    /// The progress to report, in percent.
    pub percent: u8,
    /// The file to report.
    pub path: String,
    /// The status file, which is to be removed.
    pub status_path: String,
}

/// The text of the first value of a header, empty where it is not visible.
pub open spec fn shown_value(fields: Map<Seq<char>, Seq<Seq<u8>>>, name: Seq<char>) -> Option<
    Seq<char>,
> {
    match first_value(fields, name) {
        None => None,
        Some(value) => match visible_text(value) {
            None => Some(Seq::empty()),
            Some(text) => Some(text),
        },
    }
}

/// The file name for a response with the given headers to a request of the given path.
pub open spec fn response_name(
    fields: Option<Map<Seq<char>, Seq<Seq<u8>>>>,
    path: Seq<char>,
) -> Seq<char> {
    match fields {
        None => file_name(None, path),
        Some(fields) => file_name(shown_value(fields, "content-disposition"@), path),
    }
}

/// A response with the given headers says that the server serves ranges of bytes.
pub open spec fn serves_ranges(fields: Map<Seq<char>, Seq<Seq<u8>>>) -> bool {
    match first_value(fields, "accept-ranges"@) {
        None => false,
        Some(value) => ascii_text(value) == "bytes"@,
    }
}

/// The number that a header value writes; one that is not visible reads as an empty text.
pub open spec fn value_number(value: Seq<u8>, max: nat) -> Result<nat, NumberError> {
    match visible_text(value) {
        None => Err(NumberError::Empty),
        Some(_) => number(value, max),
    }
}

/// The length of the file according to the headers of a response: zero where they do not
/// give one.
pub open spec fn announced_length(fields: Map<Seq<char>, Seq<Seq<u8>>>) -> Result<
    nat,
    NumberError,
> {
    match first_value(fields, "content-length"@) {
        None => Ok(0),
        Some(value) => value_number(value, u64::MAX as nat),
    }
}

/// The progress in percent, `ratio` being the rounded share of the file that is written, in
/// percent. It stays at zero while the length of the file is not known.
pub open spec fn percent(content_len: u64, download_len: u64, ratio: u8) -> u8 {
    if content_len == 0 {
        0
    } else if download_len >= content_len || ratio > 100 {
        100
    } else {
        ratio
    }
}

/// The download with the progress that `ratio` gives.
pub open spec fn progressed(d: HttpDownload, ratio: u8) -> HttpDownload {
    HttpDownload {
        conf: (Config {
            progress: percent(d.conf.content_len, d.conf.download_len, ratio),
            ..d.conf
        }),
        ..d
    }
}

/// The progress to report when `ratio` gives another one than before.
pub open spec fn news(d: HttpDownload, ratio: u8) -> Option<u8> {
    let now = percent(d.conf.content_len, d.conf.download_len, ratio);
    if now != d.conf.progress {
        Some(now)
    } else {
        None
    }
}

/// The download with `download_len` bytes written.
pub open spec fn with_written(d: HttpDownload, download_len: u64) -> HttpDownload {
    HttpDownload { conf: (Config { download_len, ..d.conf }), ..d }
}

/// The content of a status file can be resumed from: it is readable, and the pieces that it
/// records, if no line is wrong, leave ranges that can be requested.
pub open spec fn resumable(content: Seq<u8>, content_len: nat, chunk_size: nat) -> bool {
    &&& lines_readable(lines(content), 0)
    &&& line_records(lines(content)) matches Ok(records) ==> plannable(
        by_offset(records),
        content_len,
        chunk_size,
    )
}

/// What a status file leaves to be requested: the ranges and the number of bytes that are
/// recorded.
pub open spec fn resume_plan(content: Seq<u8>, content_len: nat, chunk_size: nat) -> Result<
    (Seq<(nat, nat)>, nat),
    StatusError,
> {
    match line_records(lines(content)) {
        Err(e) => Err(e),
        Ok(records) => Ok(
            (
                resume_ranges(by_offset(records), content_len, chunk_size),
                total_bytes(records),
            ),
        ),
    }
}

/// `d1` is `d0` with the name of the file and whether the server serves ranges set, and with
/// settings of its own.
pub open spec fn named_for(
    d0: HttpDownload,
    name: Seq<char>,
    fields: Map<Seq<char>, Seq<Seq<u8>>>,
    d1: HttpDownload,
) -> bool {
    &&& d1.filename@ == name
    &&& d1.support_chunk == serves_ranges(fields)
    &&& d1 == HttpDownload {
        conf: d1.conf,
        filename: d1.filename,
        support_chunk: d1.support_chunk,
        ..d0
    }
}

/// How a download to that address is described.
pub open spec fn description(url: Option<Address>) -> Seq<char> {
    "http download url: "@ + (match url {
        Some(url) => url.text@,
        None => Seq::empty(),
    })
}

/// How a file is transferred, given whether the server serves ranges.
pub open spec fn mode_for(support_chunk: bool) -> Mode {
    if support_chunk {
        Mode::Chunked
    } else {
        Mode::Whole
    }
}

/// The headers without a range.
pub open spec fn without_range(fields: Map<Seq<char>, Seq<Seq<u8>>>) -> Map<
    Seq<char>,
    Seq<Seq<u8>>,
> {
    fields.remove("range"@)
}

/// How many seconds a request may take, zero standing for no limit.
pub open spec fn time_limit(timeout: u64) -> Option<u64> {
    if timeout > 0 {
        Some(timeout)
    } else {
        None
    }
}

/// How many ranges are requested at a time.
pub open spec fn worker_count(num_workers: usize) -> usize {
    if num_workers == 0 {
        1
    } else {
        num_workers
    }
}

/// The name of the status file of a file.
pub open spec fn status_name(filename: Seq<char>) -> Seq<char> {
    filename + ".st"@
}

/// `r` reports the plan for resuming from a status file.
pub open spec fn reports_plan(
    r: Result<(Vec<ByteRange>, u64), Error>,
    plan: Result<(Seq<(nat, nat)>, nat), StatusError>,
) -> bool {
    match plan {
        Err(e) => r is Err && r->Err_0 == Error::StatusInvalid(e),
        Ok((ranges, total)) => r is Ok && as_nats(r->Ok_0.0@) == ranges && r->Ok_0.1 == total,
    }
}

/// The file name for the response with the given headers to a request of `url`.
pub fn gen_filename(url: &Address, headers: Option<&HeaderMap>) -> (r: String)
    ensures
        r@ == response_name(
            match headers {
                None => None,
                Some(headers) => Some(header_fields(*headers)),
            },
            url.path@,
        ),
{
    proof {
        lemma_header_names();
    }
    let value = match headers {
        None => None,
        Some(headers) => header_get(headers, "content-disposition"),
    };
    match value {
        None => choose_filename(None, url.path.as_str()),
        Some(value) => {
            let text = match value_text(value.as_slice()) {
                Some(text) => text,
                None => String::new(),
            };
            assert(visible_text(value@) is None ==> text@ =~= Seq::empty());
            choose_filename(Some(text.as_str()), url.path.as_str())
        },
    }
}

/// Whether a response with the given headers says that the server serves ranges of bytes.
pub fn accepts_ranges(headers: &HeaderMap) -> (r: bool)
    ensures
        r == serves_ranges(header_fields(*headers)),
{
    proof {
        lemma_header_names();
    }
    match header_get(headers, "accept-ranges") {
        None => false,
        Some(value) => ascii_to_text(value.as_slice()) == "bytes".to_owned(),
    }
}

/// The number that a header value writes, at most `max`.
pub fn read_value(value: &[u8], max: u64) -> (r: Result<u64, NumberError>)
    ensures
        match r {
            Ok(n) => value_number(value@, max as nat) == Ok::<nat, NumberError>(n as nat),
            Err(e) => value_number(value@, max as nat) == Err::<nat, NumberError>(e),
        },
{
    match value_text(value) {
        None => Err(NumberError::Empty),
        Some(_) => parse_number(value, max),
    }
}

/// The length of the file according to the headers of a response.
pub fn content_length(headers: &HeaderMap) -> (r: Result<u64, NumberError>)
    ensures
        match r {
            Ok(n) => announced_length(header_fields(*headers)) == Ok::<nat, NumberError>(n as nat),
            Err(e) => announced_length(header_fields(*headers)) == Err::<nat, NumberError>(e),
        },
{
    proof {
        lemma_header_names();
    }
    match header_get(headers, "content-length") {
        None => Ok(0),
        Some(value) => read_value(value.as_slice(), u64::MAX),
    }
}

/// What a status file leaves to be requested of a file of `content_len` bytes. `None` for a
/// status file that cannot be resumed from.
pub fn plan_from_status(content: &[u8], content_len: u64, chunk_size: u64) -> (r: Option<
    Result<(Vec<ByteRange>, u64), Error>,
>)
    ensures
        r is Some <==> resumable(content@, content_len as nat, chunk_size as nat),
        r matches Some(plan) ==> reports_plan(
            plan,
            resume_plan(content@, content_len as nat, chunk_size as nat),
        ),
{
    match read_status(content) {
        None => None,
        Some(Err(e)) => Some(Err(Error::StatusInvalid(e))),
        Some(Ok((records, total))) => match plan_resume(
            records.as_slice(),
            content_len,
            chunk_size,
        ) {
            None => None,
            Some(ranges) => Some(Ok((ranges, total))),
        },
    }
}

impl HttpDownload {
    /// A download with the default settings.
    pub fn new() -> (r: Self)
        ensures
            r.conf.save_dir@ == Seq::<char>::empty(),
            r.conf.file_md5@ == Seq::<char>::empty(),
            r.conf.url is None,
            header_fields(r.conf.headers) == no_fields(),
            r.conf.content_len == 0,
            r.conf.download_len == 0,
            r.conf.progress == 0,
            r.conf.chunk_size == 2097152,
            r.conf.timeout == 0,
            r.conf.num_workers == 2,
            r.conf.max_retries == 3,
            !r.conf.debug,
            r.filename@ == Seq::<char>::empty(),
            r.retries == 0,
            !r.support_chunk,
            !r.file_open,
            !r.status_open,
    {
        Self::new_with_config(Config::default())
    }

    /// A download with the given settings.
    pub fn new_with_config(conf: Config) -> (r: Self)
        ensures
            r.conf == conf,
            r.filename@ == Seq::<char>::empty(),
            r.retries == 0,
            !r.support_chunk,
            !r.file_open,
            !r.status_open,
    {
        HttpDownload {
            conf,
            filename: String::new(),
            retries: 0,
            support_chunk: false,
            file_open: false,
            status_open: false,
        }
    }

    /// Sets how many seconds a request may take; zero for no limit.
    pub fn set_timeout(&mut self, timeout: u64) -> (r: &mut Self)
        ensures
            *r == (HttpDownload { conf: (Config { timeout, ..old(self).conf }), ..*old(self) }),
            *final(self) == *final(r),
    {
        self.conf.timeout = timeout;
        self
    }

    /// Sets the headers to send with every request.
    pub fn set_headers(&mut self, headers: HeaderMap) -> (r: &mut Self)
        ensures
            *r == (HttpDownload { conf: (Config { headers, ..old(self).conf }), ..*old(self) }),
            *final(self) == *final(r),
    {
        self.conf.headers = headers;
        self
    }

    /// Sets the directory to save to.
    pub fn set_save_dir(&mut self, save_dir: String) -> (r: &mut Self)
        ensures
            *r == (HttpDownload { conf: (Config { save_dir, ..old(self).conf }), ..*old(self) }),
            *final(self) == *final(r),
    {
        self.conf.save_dir = save_dir;
        self
    }

    /// Sets the digest that the file is expected to have.
    pub fn set_file_md5(&mut self, md5: String) -> (r: &mut Self)
        ensures
            *r == (HttpDownload { conf: (Config { file_md5: md5, ..old(self).conf }), ..*old(
                self,
            ) }),
            *final(self) == *final(r),
    {
        self.conf.file_md5 = md5;
        self
    }

    /// Sets the size of the ranges that the file is cut into.
    pub fn set_chunk_size(&mut self, chunk_size: u64) -> (r: &mut Self)
        ensures
            *r == (HttpDownload { conf: (Config { chunk_size, ..old(self).conf }), ..*old(self) }),
            *final(self) == *final(r),
    {
        self.conf.chunk_size = chunk_size;
        self
    }

    /// Sets how many times a range may be requested again.
    pub fn set_max_retries(&mut self, max_retries: u8) -> (r: &mut Self)
        ensures
            *r == (HttpDownload { conf: (Config { max_retries, ..old(self).conf }), ..*old(self) }),
            *final(self) == *final(r),
    {
        self.conf.max_retries = max_retries;
        self
    }

    /// Sets the `User-Agent` header; a text that cannot be a header value is ignored. The only
    /// error is that the headers, of which there must then be thousands, take no further one.
    pub fn set_user_agent(&mut self, user_agent: &str) -> (r: Result<&mut Self, Error>)
        ensures
            ({
                let fields = header_fields(old(self).conf.headers);
                let value = encode_utf8(user_agent@);
                match r {
                    Ok(d) => {
                        &&& header_fields(d.conf.headers) == (if value_bytes(value) {
                            fields.insert("user-agent"@, seq![value])
                        } else {
                            fields
                        })
                        &&& *d == (HttpDownload {
                            conf: (Config { headers: d.conf.headers, ..old(self).conf }),
                            ..*old(self)
                        })
                        &&& *final(self) == *final(d)
                    },
                    Err(e) => {
                        &&& e is HeadersFull
                        &&& value_bytes(value)
                        &&& fields.dom().len() >= 6554
                        &&& header_fields(final(self).conf.headers) == fields
                        &&& *final(self) == (HttpDownload {
                            conf: (Config { headers: final(self).conf.headers, ..old(self).conf }),
                            ..*old(self)
                        })
                    },
                }
            }),
    {
        proof {
            lemma_header_names();
        }
        match header_insert(&mut self.conf.headers, "user-agent", user_agent) {
            Err(HeaderError::Full) => Err(Error::HeadersFull),
            _ => Ok(self),
        }
    }

    /// Sets how many ranges are requested at a time.
    pub fn set_num_workers(&mut self, num_workers: usize) -> (r: &mut Self)
        ensures
            *r == (HttpDownload { conf: (Config { num_workers, ..old(self).conf }), ..*old(self) }),
            *final(self) == *final(r),
    {
        self.conf.num_workers = num_workers;
        self
    }

    /// Sets whether to show the headers of the server.
    pub fn debug(&mut self, debug: bool) -> (r: &mut Self)
        ensures
            *r == (HttpDownload { conf: (Config { debug, ..old(self).conf }), ..*old(self) }),
            *final(self) == *final(r),
    {
        self.conf.debug = debug;
        self
    }

    /// A description of the download in one line.
    pub fn describe(&self) -> (r: String)
        ensures
            r@ == description(self.conf.url),
    {
        let lead = "http download url: ".to_owned();
        match &self.conf.url {
            Some(url) => lead.concat(url.text.as_str()),
            None => {
                assert(lead@ + Seq::<char>::empty() =~= lead@);
                lead
            },
        }
    }

    /// The lines that show the headers of a response.
    pub fn print_headers(&self, headers: &HeaderMap) -> (r: Vec<String>)
        ensures
            shows(r@.map_values(|line: String| line@), header_fields(*headers)),
    {
        show_headers(headers)
    }

    /// Reads a text as an address; a text without a scheme becomes an `http` address.
    pub fn parse_url(&self, url: &str) -> (r: Result<Address, AddressError>)
        ensures
            parsed_view(r) == address_of(url@),
    {
        parse_address(url)
    }

    /// Reads the text that a download is asked for as an address.
    pub fn target(&self, url: &str) -> (r: Result<Address, Error>)
        ensures
            match r {
                Ok(address) => parsed_view(Ok(address)) == address_of(url@),
                Err(e) => e matches Error::AddressInvalid { text, cause } && text@ == url@
                    && parsed_view(Err(cause)) == address_of(url@),
            },
    {
        match self.parse_url(url) {
            Ok(address) => Ok(address),
            Err(cause) => Err(Error::AddressInvalid { text: url.to_owned(), cause }),
        }
    }

    /// Sets what to download, given the headers that the server sent for the address: the name
    /// of the file, whether the server serves ranges, and the length of the file. A length that
    /// is not a number leaves the settings as they were.
    pub fn set_url(&mut self, url: Address, headers: &HeaderMap) -> (r: Result<&mut Self, Error>)
        ensures
            ({
                let fields = header_fields(*headers);
                let name = response_name(Some(fields), url.path@);
                let length = announced_length(fields);
                match r {
                    Ok(d) => {
                        &&& name.len() > 0
                        &&& length == Ok::<nat, NumberError>(d.conf.content_len as nat)
                        &&& named_for(*old(self), name, fields, *d)
                        &&& d.conf == (Config {
                            content_len: d.conf.content_len,
                            url: Some(url),
                            ..old(self).conf
                        })
                        &&& *final(self) == *final(d)
                    },
                    Err(Error::FilenameEmpty) => name.len() == 0 && *final(self) == *old(self),
                    Err(e) => {
                        &&& name.len() > 0
                        &&& length is Err && e == Error::LengthInvalid(length->Err_0)
                        &&& named_for(*old(self), name, fields, *final(self))
                        &&& final(self).conf == old(self).conf
                    },
                }
            }),
    {
        let name = gen_filename(&url, Some(headers));
        if name.as_str().is_empty() {
            return Err(Error::FilenameEmpty);
        }
        self.filename = name;
        self.support_chunk = accepts_ranges(headers);
        match content_length(headers) {
            Err(e) => Err(Error::LengthInvalid(e)),
            Ok(length) => {
                self.conf.content_len = length;
                self.conf.url = Some(url);
                Ok(self)
            },
        }
    }

    /// Takes note of the progress, `ratio` being the rounded share of the file that is written,
    /// in percent. Gives the progress to report, if it is another one than before.
    pub fn on_progress(&mut self, ratio: u8) -> (r: Option<u8>)
        ensures
            r == news(*old(self), ratio),
            *final(self) == progressed(*old(self), ratio),
    {
        let now: u8 = if self.conf.content_len == 0 {
            0
        } else if self.conf.download_len >= self.conf.content_len || ratio > 100 {
            100
        } else {
            ratio
        };
        if self.conf.progress != now {
            self.conf.progress = now;
            Some(now)
        } else {
            None
        }
    }

    /// What is to be done when the download to `file_path`, recorded in `status_path`, has
    /// finished.
    pub fn on_finish(&self, file_path: String, status_path: String) -> (r: Finished)
        ensures
            r == (Finished { percent: 100, path: file_path, status_path }),
    {
        Finished { percent: 100, path: file_path, status_path }
    }

    /// The path of the file `filename` in the directory to save to.
    pub fn get_file_path(&self, filename: &str) -> (r: String)
        ensures
            file_path_is(self.conf.save_dir@, filename@, r@),
    {
        file_path(self.conf.save_dir.as_str(), filename)
    }

    /// The path of the status file.
    pub fn status_path(&self) -> (r: String)
        ensures
            file_path_is(self.conf.save_dir@, status_name(self.filename@), r@),
    {
        let name = self.filename.as_str().to_owned().concat(".st");
        self.get_file_path(name.as_str())
    }

    /// How the file is to be transferred.
    pub fn start(&self) -> (r: Mode)
        ensures
            r == mode_for(self.support_chunk),
    {
        if self.support_chunk {
            Mode::Chunked
        } else {
            Mode::Whole
        }
    }

    /// The file cut into ranges, none of it being there yet.
    pub fn get_chunk_offsets(&self) -> (r: Vec<ByteRange>)
        requires
            self.conf.chunk_size > 0,
        ensures
            as_nats(r@) == chunk_ranges(self.conf.content_len as nat, self.conf.chunk_size as nat),
    {
        chunk_offsets(self.conf.content_len, self.conf.chunk_size)
    }

    /// The ranges that are still to be requested and the number of bytes that are there, given
    /// the content of the status file.
    pub fn get_resume_chunk_offsets(&self, status: &[u8]) -> (r: Result<
        (Vec<ByteRange>, u64),
        Error,
    >)
        requires
            self.status_open ==> resumable(
                status@,
                self.conf.content_len as nat,
                self.conf.chunk_size as nat,
            ),
        ensures
            if self.status_open {
                reports_plan(
                    r,
                    resume_plan(
                        status@,
                        self.conf.content_len as nat,
                        self.conf.chunk_size as nat,
                    ),
                )
            } else {
                r is Err && r->Err_0 is StatusNotOpen
            },
    {
        if !self.status_open {
            return Err(Error::StatusNotOpen);
        }
        match plan_from_status(status, self.conf.content_len, self.conf.chunk_size) {
            Some(plan) => plan,
            None => {
                assert(false);
                Err(Error::StatusNotOpen)
            },
        }
    }

    /// The headers to send when the whole file is requested.
    pub fn request_headers(&self) -> (r: HeaderMap)
        ensures
            header_fields(r) == header_fields(self.conf.headers),
    {
        header_clone(&self.conf.headers)
    }

    /// The headers to send with every range: a range of the caller's own is left out.
    pub fn chunk_request_headers(&self) -> (r: HeaderMap)
        ensures
            header_fields(r) == without_range(header_fields(self.conf.headers)),
    {
        proof {
            lemma_header_names();
        }
        let mut headers = header_clone(&self.conf.headers);
        header_remove(&mut headers, "range");
        headers
    }

    /// How many seconds a request may take, if there is a limit.
    pub fn request_timeout(&self) -> (r: Option<u64>)
        ensures
            r == time_limit(self.conf.timeout),
    {
        if self.conf.timeout > 0 {
            Some(self.conf.timeout)
        } else {
            None
        }
    }

    /// How many ranges are requested at a time: at least one.
    pub fn workers(&self) -> (r: usize)
        ensures
            r == worker_count(self.conf.num_workers),
    {
        if self.conf.num_workers == 0 {
            1
        } else {
            self.conf.num_workers
        }
    }
}

/// The progress is a percentage, and all of it once the whole file is written.
pub proof fn law_progress_is_a_percentage(content_len: u64, download_len: u64, ratio: u8)
    ensures
        percent(content_len, download_len, ratio) <= 100,
        0 < content_len <= download_len ==> percent(content_len, download_len, ratio) == 100,
        content_len == 0 ==> percent(content_len, download_len, ratio) == 0,
{
}

/// A progress is reported once: the same one is not reported again.
pub proof fn law_same_progress_is_not_reported_again(d: HttpDownload, ratio: u8)
    ensures
        news(d, ratio) matches Some(now) ==> now == progressed(d, ratio).conf.progress
            && now != d.conf.progress,
        news(progressed(d, ratio), ratio) is None,
{
}

/// The progress never falls: of two downloads of the same length, the one that has written no
/// less, and no smaller a share, has no smaller progress.
pub proof fn law_progress_never_falls(
    earlier: HttpDownload,
    ratio: u8,
    later: HttpDownload,
    later_ratio: u8,
)
    requires
        earlier.conf.content_len == later.conf.content_len,
        earlier.conf.download_len <= later.conf.download_len,
        ratio <= later_ratio,
    ensures
        progressed(earlier, ratio).conf.progress <= progressed(later, later_ratio).conf.progress,
{
}

/// A block once written is read back as done: if the status file can be resumed from and a new
/// block, apart from all that it records, is recorded in it, then it can be resumed from again,
/// the bytes of the block are counted, and none of them is requested.
pub proof fn law_written_block_is_read_back_as_done(
    content: Seq<u8>,
    records: Seq<Record>,
    block: Record,
    content_len: u64,
    chunk_size: u64,
)
    requires
        ends_with_line(content),
        resumable(content, content_len as nat, chunk_size as nat),
        line_records(lines(content)) == Ok::<Seq<Record>, StatusError>(records),
        total_bytes(records) + block.0 <= u64::MAX,
        block.0 > 0,
        block.1 + block.0 <= content_len,
        forall|i: int| 0 <= i < records.len() ==> apart(#[trigger] records[i], block),
    ensures
        ({
            let grown = content + status_line(block.0 as nat, block.1 as nat);
            let plan = resume_plan(grown, content_len as nat, chunk_size as nat);
            &&& resumable(grown, content_len as nat, chunk_size as nat)
            &&& plan matches Ok((ranges, total))
            &&& total == total_bytes(records) + block.0
            &&& forall|b: nat|
                block.1 <= b < block.1 + block.0 ==> !#[trigger] requested(ranges, b)
        }),
{
    law_recorded_piece_is_read_back(content, records, block.0, block.1);
    law_new_block_is_not_requested_again(records, block, content_len, chunk_size as nat);
    assert(records.push(block).drop_last() =~= records);
}

/// While the file is not complete, the progress is the measured share; it is full exactly where
/// the file is complete or the share is at least all of it; and a file of unknown length has none.
pub proof fn law_progress_is_the_measured_share(content_len: u64, download_len: u64, ratio: u8)
    ensures
        download_len < content_len && ratio <= 100 ==> percent(content_len, download_len, ratio)
            == ratio,
        percent(content_len, download_len, ratio) == 100 <==> content_len > 0 && (download_len
            >= content_len || ratio >= 100),
        percent(content_len, download_len, ratio) == 0 <==> content_len == 0 || (download_len
            < content_len && ratio == 0),
{
}

/// Taking note of the progress changes the progress and nothing else, and reports it exactly
/// where it is another one.
pub proof fn law_progress_is_noted(d: HttpDownload, ratio: u8)
    ensures
        ({
            let now = progressed(d, ratio);
            &&& now.conf.progress == percent(d.conf.content_len, d.conf.download_len, ratio)
            &&& now == HttpDownload {
                conf: (Config { progress: now.conf.progress, ..d.conf }),
                ..d
            }
            &&& news(d, ratio) == (if now.conf.progress == d.conf.progress {
                None
            } else {
                Some(now.conf.progress)
            })
        }),
{
}

/// A server serves ranges exactly where the first value of its `Accept-Ranges` header is `bytes`.
pub proof fn law_ranges_are_served_in_bytes(fields: Map<Seq<char>, Seq<Seq<u8>>>)
    ensures
        serves_ranges(fields) <==> fields.contains_key("accept-ranges"@)
            && fields["accept-ranges"@][0] == seq![98u8, 121u8, 116u8, 101u8, 115u8],
{
    reveal_strlit("bytes");
    let word = seq![98u8, 121u8, 116u8, 101u8, 115u8];
    if fields.contains_key("accept-ranges"@) {
        let value = fields["accept-ranges"@][0];
        assert(ascii_text(word) =~= "bytes"@);
        if ascii_text(value) == "bytes"@ {
            assert(value.len() == 5);
            assert forall|i: int| 0 <= i < 5 implies value[i] == word[i] by {
                assert(ascii_text(value)[i] == ascii_text(word)[i]);
            }
            assert(value =~= word);
        }
    }
}

/// A number in a header is the one that its bytes write, where they are all visible.
pub proof fn law_visible_value_is_read_as_a_number(value: Seq<u8>, max: nat)
    ensures
        (forall|i: int| 0 <= i < value.len() ==> 32 <= #[trigger] value[i] < 127 || value[i] == 9)
            ==> value_number(value, max) == number(value, max),
        (exists|i: int| 0 <= i < value.len() && !(32 <= #[trigger] value[i] < 127 || value[i] == 9))
            ==> value_number(value, max) == Err::<nat, NumberError>(NumberError::Empty),
{
    if forall|i: int| 0 <= i < value.len() ==> 32 <= #[trigger] value[i] < 127 || value[i] == 9 {
        assert forall|i: int| 0 <= i < value.len() implies visible_byte(#[trigger] value[i]) by {
            assert(32 <= value[i] < 127 || value[i] == 9);
        }
    } else {
        let i = choose|i: int|
            0 <= i < value.len() && !(32 <= #[trigger] value[i] < 127 || value[i] == 9);
        assert(!visible_byte(value[i]));
    }
}

/// The length of the file is the number in the first value of the `Content-Length` header, and
/// zero where there is none.
pub proof fn law_length_is_the_announced_number(fields: Map<Seq<char>, Seq<Seq<u8>>>)
    ensures
        announced_length(fields) == (if fields.contains_key("content-length"@) {
            value_number(fields["content-length"@][0], u64::MAX as nat)
        } else {
            Ok::<nat, NumberError>(0)
        }),
{
}

/// The name of the file comes from the text of the first `Content-Disposition` value and the
/// path; a value that is not visible names nothing.
pub proof fn law_response_names_the_file(
    fields: Map<Seq<char>, Seq<Seq<u8>>>,
    path: Seq<char>,
    text: Seq<char>,
)
    ensures
        response_name(None, path) == file_name(None, path),
        !fields.contains_key("content-disposition"@) ==> response_name(Some(fields), path)
            == file_name(None, path),
        fields.contains_key("content-disposition"@) && visible_text(
            fields["content-disposition"@][0],
        ) == Some(text) ==> response_name(Some(fields), path) == file_name(Some(text), path),
        fields.contains_key("content-disposition"@) && visible_text(
            fields["content-disposition"@][0],
        ) is None ==> response_name(Some(fields), path) == file_name(Some(Seq::empty()), path),
{
}

/// What a status file leaves to be requested rests on the pieces that its lines stand for: the
/// ranges between them and behind them, and the sum of their bytes.
pub proof fn law_plan_rests_on_the_recorded_pieces(
    content: Seq<u8>,
    content_len: nat,
    chunk_size: nat,
)
    ensures
        resume_plan(content, content_len, chunk_size) == (match line_records(lines(content)) {
            Err(e) => Err::<(Seq<(nat, nat)>, nat), StatusError>(e),
            Ok(records) => Ok(
                (
                    resume_ranges(by_offset(records), content_len, chunk_size),
                    total_bytes(records),
                ),
            ),
        }),
        resumable(content, content_len, chunk_size) <==> lines_readable(lines(content), 0) && (
        line_records(lines(content)) matches Ok(records) ==> plannable(
            by_offset(records),
            content_len,
            chunk_size,
        )),
{
}

/// A plan is reported whole: each range with its bounds, and the number of bytes.
pub proof fn law_plan_is_reported_whole(
    r: Result<(Vec<ByteRange>, u64), Error>,
    plan: Result<(Seq<(nat, nat)>, nat), StatusError>,
)
    requires
        reports_plan(r, plan),
    ensures
        plan matches Err(e) ==> r is Err && r->Err_0 == Error::StatusInvalid(e),
        plan matches Ok((ranges, total)) ==> {
            &&& r is Ok
            &&& r->Ok_0.1 == total
            &&& r->Ok_0.0@.len() == ranges.len()
            &&& forall|i: int|
                0 <= i < ranges.len() ==> (#[trigger] ranges[i]).0 == r->Ok_0.0@[i].0 && ranges[i].1
                    == r->Ok_0.0@[i].1
        },
{
}

/// A download is named for the file that the server sends, takes note whether the server serves
/// ranges, and else changes only in its settings.
pub proof fn law_download_is_named_for_the_file(
    d0: HttpDownload,
    name: Seq<char>,
    fields: Map<Seq<char>, Seq<Seq<u8>>>,
    d1: HttpDownload,
)
    requires
        named_for(d0, name, fields, d1),
    ensures
        d1.filename@ == name,
        d1.support_chunk == serves_ranges(fields),
        d1.retries == d0.retries,
        d1.file_open == d0.file_open,
        d1.status_open == d0.status_open,
{
}

/// Noting a length written changes that and nothing else.
pub proof fn law_written_length_is_noted(d: HttpDownload, download_len: u64)
    ensures
        with_written(d, download_len).conf.download_len == download_len,
        with_written(d, download_len) == (HttpDownload {
            conf: (Config { download_len, ..d.conf }),
            ..d
        }),
{
}

/// A download is described by the whole of its address.
pub proof fn law_description_ends_with_the_address(address: Address)
    ensures
        description(Some(address)) == "http download url: "@ + address.text@,
        description(None) == "http download url: "@,
{
    assert(description(None) =~= "http download url: "@);
}

/// A file is transferred in ranges exactly where the server serves them.
pub proof fn law_ranges_are_used_where_served(support_chunk: bool)
    ensures
        mode_for(support_chunk) is Chunked <==> support_chunk,
        mode_for(support_chunk) is Whole <==> !support_chunk,
{
}

/// The headers sent with a range hold no range of the caller's own, and all else.
pub proof fn law_range_of_the_caller_is_left_out(
    fields: Map<Seq<char>, Seq<Seq<u8>>>,
    name: Seq<char>,
)
    ensures
        !without_range(fields).contains_key("range"@),
        name != "range"@ ==> without_range(fields).contains_key(name) == fields.contains_key(name),
        name != "range"@ && fields.contains_key(name) ==> without_range(fields)[name]
            == fields[name],
{
}

/// A request is limited to the time that was set, whatever it is, and not at all where it is zero.
pub proof fn law_time_limit_is_the_one_set(timeout: u64)
    ensures
        time_limit(timeout) is None <==> timeout == 0,
        time_limit(timeout) matches Some(seconds) ==> seconds == timeout,
{
}

/// As many ranges are requested at a time as was set, and never none.
pub proof fn law_workers_are_as_many_as_set(num_workers: usize)
    ensures
        worker_count(num_workers) >= 1,
        num_workers >= 1 ==> worker_count(num_workers) == num_workers,
        worker_count(0) == 1,
{
}

/// Each file has a status file of its own, named after it.
pub proof fn law_status_file_is_named_after_the_file(a: Seq<char>, b: Seq<char>)
    ensures
        a.is_prefix_of(status_name(a)),
        status_name(a).skip(a.len() as int) == seq!['.', 's', 't'],
        status_name(a) == status_name(b) ==> a == b,
{
    reveal_strlit(".st");
    assert(a =~= status_name(a).subrange(0, a.len() as int));
    assert(status_name(a).skip(a.len() as int) =~= seq!['.', 's', 't']);
    if status_name(a) == status_name(b) {
        assert(a.len() == b.len());
        assert(b =~= status_name(b).subrange(0, b.len() as int));
    }
}

} // verus!
