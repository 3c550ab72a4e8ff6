use http_downloader::address::Address;
use http_downloader::chunked::{ChunkAction, ChunkEvent, ChunkStage, ChunkStep, ChunkTransfer};
use http_downloader::digest::FileRead;
use http_downloader::error::Error;
use http_downloader::http::plan_from_status;
use http_downloader::number::NumberError;
use http_downloader::status::{read_status, StatusError};
use http_downloader::stream::{
    StreamAction, StreamEvent, StreamStage, StreamStep, StreamTransfer,
};
use http_downloader::worker::ChunkWorker;
use http_downloader::HttpDownload;
use reqwest::header::{self, HeaderMap, HeaderValue};

const MD5: &str = "5c71dbb287630d65ca93764c34d9aa0d";

fn matching() -> FileRead {
    FileRead::Bytes(b"example data".to_vec())
}

fn download(content_len: u64) -> HttpDownload {
    let mut d = HttpDownload::new();
    d.filename = "f".to_string();
    d.support_chunk = true;
    d.conf.content_len = content_len;
    d.conf.url = Some(Address { text: "http://h/f".to_string(), path: "/f".to_string() });
    d
}

fn chunk(d: &mut HttpDownload, t: &mut ChunkTransfer, event: ChunkEvent) -> ChunkStep {
    assert!(d.chunk_ready(t, &event));
    d.chunk_step(t, event)
}

fn quiet(action: ChunkAction) -> ChunkStep {
    ChunkStep { notify: None, action }
}

/// Brings a transfer to the point where it waits for its first piece.
fn receiving(d: &mut HttpDownload, status: &[u8]) -> ChunkTransfer {
    let (mut t, action) = d.chunk_download();
    assert_eq!(action, ChunkAction::OpenStatus);
    assert_eq!(chunk(d, &mut t, ChunkEvent::Opened).action, ChunkAction::ReadStatus);
    let mut step = chunk(d, &mut t, ChunkEvent::StatusRead(status.to_vec()));
    if let ChunkAction::Measure { done, total } = step.action {
        let share = (done * 100).div_ceil(total) as u8;
        step = chunk(d, &mut t, ChunkEvent::Measured(share));
    }
    let append = t.count > 0;
    assert_eq!(step.action, ChunkAction::OpenFile { append });
    assert_eq!(chunk(d, &mut t, ChunkEvent::Opened), quiet(ChunkAction::Start));
    assert_eq!(chunk(d, &mut t, ChunkEvent::Started), quiet(ChunkAction::Receive));
    t
}

/// Takes a transfer through a piece, up to the question whether a worker failed.
fn piece(d: &mut HttpDownload, t: &mut ChunkTransfer, byte_count: u64, at: u64) -> Vec<u8> {
    let step = chunk(d, t, ChunkEvent::Data { byte_count, offset: at });
    assert_eq!(step, quiet(ChunkAction::Write { offset: at }));
    let before = d.conf.download_len;
    let ChunkAction::Record { line } = chunk(d, t, ChunkEvent::Written).action else {
        panic!("a written piece is recorded")
    };
    assert_eq!(d.conf.download_len, before);
    let step = chunk(d, t, ChunkEvent::Recorded);
    let ChunkAction::Measure { done, total } = step.action else { panic!("a share is asked for") };
    let share = (done * 100).div_ceil(total) as u8;
    assert_eq!(chunk(d, t, ChunkEvent::Measured(share)).action, ChunkAction::Poll);
    line
}

#[test]
fn a_file_is_transferred_in_ranges() {
    let mut d = download(10);
    d.set_chunk_size(4).set_file_md5(MD5.to_uppercase());
    let (mut t, action) = d.chunk_download();
    assert_eq!((t.stage, action), (ChunkStage::CheckingFile, ChunkAction::ReadFile));
    assert_eq!((t.path.as_str(), t.status_path.as_str()), ("f", "f.st"));
    let step = chunk(&mut d, &mut t, ChunkEvent::FileRead(FileRead::Missing));
    assert_eq!(step, quiet(ChunkAction::OpenStatus));
    assert_eq!(chunk(&mut d, &mut t, ChunkEvent::Opened), quiet(ChunkAction::ReadStatus));
    let step = chunk(&mut d, &mut t, ChunkEvent::StatusRead(vec![]));
    assert_eq!(step, quiet(ChunkAction::OpenFile { append: false }));
    assert_eq!(t.ranges, [(0, 3), (4, 7), (8, 10)]);
    assert_eq!(chunk(&mut d, &mut t, ChunkEvent::Opened), quiet(ChunkAction::Start));
    assert_eq!(chunk(&mut d, &mut t, ChunkEvent::Started), quiet(ChunkAction::Receive));
    let step = chunk(&mut d, &mut t, ChunkEvent::Data { byte_count: 4, offset: 4 });
    assert_eq!(step, quiet(ChunkAction::Write { offset: 4 }));
    assert!(!d.chunk_ready(&t, &ChunkEvent::Recorded));
    let step = chunk(&mut d, &mut t, ChunkEvent::Written);
    assert_eq!(step, quiet(ChunkAction::Record { line: b"4:4\n".to_vec() }));
    let step = chunk(&mut d, &mut t, ChunkEvent::Recorded);
    assert_eq!(step, quiet(ChunkAction::Measure { done: 4, total: 10 }));
    let step = chunk(&mut d, &mut t, ChunkEvent::Measured(40));
    assert_eq!(step, ChunkStep { notify: Some(40), action: ChunkAction::Poll });
    assert_eq!(chunk(&mut d, &mut t, ChunkEvent::NoneFailed), quiet(ChunkAction::Receive));
    piece(&mut d, &mut t, 6, 0);
    assert_eq!(chunk(&mut d, &mut t, ChunkEvent::NoneFailed), quiet(ChunkAction::Join));
    assert_eq!((t.count, d.conf.download_len, d.conf.progress), (10, 10, 100));
    assert_eq!(chunk(&mut d, &mut t, ChunkEvent::Joined), quiet(ChunkAction::ReadFile));
    let step = chunk(&mut d, &mut t, ChunkEvent::FileRead(matching()));
    assert_eq!(step, quiet(ChunkAction::Finish));
    assert_eq!(t.stage, ChunkStage::Done);
    assert!(!d.chunk_ready(&t, &ChunkEvent::Joined));
}

#[test]
fn a_file_that_is_there_is_not_transferred_again() {
    let mut d = download(10);
    d.support_chunk = false;
    d.set_file_md5(MD5.to_string());
    let (mut t, _) = d.chunk_download();
    let step = chunk(&mut d, &mut t, ChunkEvent::FileRead(matching()));
    assert_eq!(step, quiet(ChunkAction::Finish));
    let (mut t, _) = d.chunk_download();
    let step = chunk(&mut d, &mut t, ChunkEvent::FileRead(FileRead::Bytes(vec![])));
    assert_eq!(step, quiet(ChunkAction::Fail(Error::ChunksUnsupported)));
    d.set_file_md5(String::new());
    let (t, action) = d.chunk_download();
    assert_eq!(t.stage, ChunkStage::Done);
    assert_eq!(action, ChunkAction::Fail(Error::ChunksUnsupported));
}

#[test]
fn a_transfer_goes_on_where_it_stopped() {
    let mut d = download(100);
    d.set_chunk_size(30);
    let mut t = receiving(&mut d, b"10:20\n20:0\n");
    assert_eq!(t.ranges, [(30, 59), (60, 89), (90, 100)]);
    assert_eq!((t.count, d.conf.download_len, d.conf.progress), (30, 30, 30));
    piece(&mut d, &mut t, 70, 30);
    assert_eq!(chunk(&mut d, &mut t, ChunkEvent::NoneFailed), quiet(ChunkAction::Join));
    assert_eq!(chunk(&mut d, &mut t, ChunkEvent::Joined), quiet(ChunkAction::Finish));
}

#[test]
fn the_status_file_records_what_arrived() {
    let mut d = download(100);
    d.set_chunk_size(25);
    let mut status = b"5:0\n".to_vec();
    let mut t = receiving(&mut d, &status);
    for (byte_count, offset) in [(7, 25), (20, 5), (3, 99 - 2)] {
        status.extend(piece(&mut d, &mut t, byte_count, offset));
        assert_eq!(chunk(&mut d, &mut t, ChunkEvent::NoneFailed), quiet(ChunkAction::Receive));
    }
    assert_eq!(
        read_status(&status),
        Some(Ok((vec![(5, 0), (7, 25), (20, 5), (3, 97)], t.count)))
    );
    assert_eq!(d.conf.download_len, 35);
    assert_eq!(
        plan_from_status(&status, 100, 25),
        Some(Ok((vec![(32, 96), (100, 100)], 35)))
    );
}

#[test]
fn a_complete_status_file_leaves_nothing_to_receive() {
    let mut d = download(10);
    let (mut t, _) = d.chunk_download();
    chunk(&mut d, &mut t, ChunkEvent::Opened);
    let step = chunk(&mut d, &mut t, ChunkEvent::StatusRead(b"10:0\n".to_vec()));
    assert_eq!(step, quiet(ChunkAction::Measure { done: 10, total: 10 }));
    let step = chunk(&mut d, &mut t, ChunkEvent::Measured(100));
    assert_eq!(
        step,
        ChunkStep { notify: Some(100), action: ChunkAction::OpenFile { append: true } }
    );
    chunk(&mut d, &mut t, ChunkEvent::Opened);
    assert_eq!(chunk(&mut d, &mut t, ChunkEvent::Started), quiet(ChunkAction::Join));
}

#[test]
fn a_wrong_status_file_ends_the_transfer() {
    let mut d = download(10);
    let (mut t, _) = d.chunk_download();
    chunk(&mut d, &mut t, ChunkEvent::Opened);
    let step = chunk(&mut d, &mut t, ChunkEvent::StatusRead(b"x:0\n".to_vec()));
    let e = Error::StatusInvalid(StatusError::Number(NumberError::InvalidDigit));
    assert_eq!(step, quiet(ChunkAction::Fail(e)));
    let (mut t, _) = d.chunk_download();
    chunk(&mut d, &mut t, ChunkEvent::Opened);
    assert!(!d.chunk_ready(&t, &ChunkEvent::StatusRead(b"11:0\n".to_vec())));
    d.status_open = false;
    let step = chunk(&mut d, &mut t, ChunkEvent::StatusRead(b"11:0\n".to_vec()));
    assert_eq!(step, quiet(ChunkAction::Fail(Error::StatusNotOpen)));
}

#[test]
fn a_transfer_needs_an_address_and_an_open_file() {
    let mut d = download(10);
    d.conf.url = None;
    let (mut t, _) = d.chunk_download();
    chunk(&mut d, &mut t, ChunkEvent::Opened);
    chunk(&mut d, &mut t, ChunkEvent::StatusRead(vec![]));
    let step = chunk(&mut d, &mut t, ChunkEvent::Opened);
    assert_eq!(step, quiet(ChunkAction::Fail(Error::AddressMissing)));
    let mut d = download(10);
    let mut t = receiving(&mut d, b"");
    d.file_open = false;
    let step = chunk(&mut d, &mut t, ChunkEvent::Data { byte_count: 1, offset: 0 });
    assert_eq!(step, quiet(ChunkAction::Fail(Error::FileNotOpen)));
    let mut d = download(10);
    let mut t = receiving(&mut d, b"");
    d.status_open = false;
    let step = chunk(&mut d, &mut t, ChunkEvent::Data { byte_count: 1, offset: 5 });
    assert_eq!(step, quiet(ChunkAction::Write { offset: 5 }));
    let step = chunk(&mut d, &mut t, ChunkEvent::Written);
    assert_eq!(step, quiet(ChunkAction::Measure { done: 1, total: 10 }));
}

#[test]
fn failed_ranges_are_requested_again_up_to_a_limit() {
    let mut d = download(100);
    d.set_max_retries(1);
    let mut t = receiving(&mut d, b"");
    for retries in 1..=2 {
        piece(&mut d, &mut t, 1, retries as u64);
        let step = chunk(&mut d, &mut t, ChunkEvent::Failed((10, 19)));
        assert_eq!(step, quiet(ChunkAction::Restart { range: (10, 19) }));
        assert_eq!(d.retries, retries);
        assert_eq!(chunk(&mut d, &mut t, ChunkEvent::Started), quiet(ChunkAction::Receive));
    }
    piece(&mut d, &mut t, 1, 3);
    let step = chunk(&mut d, &mut t, ChunkEvent::Failed((10, 19)));
    assert_eq!(step, quiet(ChunkAction::GiveUp(Error::MaxRetries)));
    assert_eq!(d.retries, 2);
    d.set_max_retries(255);
    d.retries = 255;
    t.stage = ChunkStage::Polling;
    assert!(!d.chunk_ready(&t, &ChunkEvent::Failed((0, 1))));
}

#[test]
fn a_transferred_file_must_have_its_digest() {
    let mut d = download(10);
    let mut t = receiving(&mut d, b"");
    d.set_file_md5(MD5.to_string());
    piece(&mut d, &mut t, 10, 0);
    chunk(&mut d, &mut t, ChunkEvent::NoneFailed);
    assert_eq!(chunk(&mut d, &mut t, ChunkEvent::Joined), quiet(ChunkAction::ReadFile));
    let step = chunk(&mut d, &mut t, ChunkEvent::FileRead(FileRead::Bytes(vec![1])));
    assert_eq!(step, quiet(ChunkAction::Fail(Error::DigestMismatch)));
}

#[test]
fn numbers_that_grow_too_large_are_not_accepted() {
    let mut d = download(10);
    let mut t = receiving(&mut d, b"1:0\n");
    let most = ChunkEvent::Data { byte_count: u64::MAX, offset: 0 };
    assert!(!d.chunk_ready(&t, &most));
    assert!(!d.chunk_ready(&t, &ChunkEvent::Written));
    chunk(&mut d, &mut t, ChunkEvent::Data { byte_count: 1, offset: 1 });
    d.conf.download_len = u64::MAX;
    chunk(&mut d, &mut t, ChunkEvent::Written);
    assert!(!d.chunk_ready(&t, &ChunkEvent::Recorded));
    t.stage = ChunkStage::Writing;
    d.status_open = false;
    assert!(!d.chunk_ready(&t, &ChunkEvent::Written));
}

fn stream(d: &mut HttpDownload, t: &mut StreamTransfer, event: StreamEvent) -> StreamStep {
    assert!(d.stream_ready(t, &event));
    d.stream_step(t, event)
}

fn quiet_stream(action: StreamAction) -> StreamStep {
    StreamStep { notify: None, action }
}

fn length(value: &'static str) -> HeaderMap {
    let mut headers = HeaderMap::new();
    headers.insert(header::CONTENT_LENGTH, HeaderValue::from_static(value));
    headers
}

fn streaming(d: &mut HttpDownload, headers: HeaderMap) -> StreamTransfer {
    let (mut t, action) = d.gener_download();
    assert_eq!(action, StreamAction::OpenFile);
    assert_eq!(stream(d, &mut t, StreamEvent::Opened), quiet_stream(StreamAction::Request));
    let step = stream(d, &mut t, StreamEvent::Response(headers));
    assert_eq!(step, quiet_stream(StreamAction::Next));
    t
}

#[test]
fn a_file_is_transferred_in_one_response() {
    let mut d = download(10);
    d.set_file_md5(MD5.to_string());
    let (mut t, action) = d.gener_download();
    assert_eq!((t.stage, action), (StreamStage::CheckingFile, StreamAction::ReadFile));
    assert_eq!((t.path.as_str(), t.status_path.as_str()), ("f", "f.st"));
    let step = stream(&mut d, &mut t, StreamEvent::FileRead(FileRead::Missing));
    assert_eq!(step, quiet_stream(StreamAction::OpenFile));
    assert_eq!(
        stream(&mut d, &mut t, StreamEvent::Opened),
        quiet_stream(StreamAction::Request)
    );
    let step = stream(&mut d, &mut t, StreamEvent::Response(length("10")));
    assert_eq!(step, quiet_stream(StreamAction::Next));
    assert_eq!(t.expected, Some(10));
    let step = stream(&mut d, &mut t, StreamEvent::Portion(4));
    assert_eq!(step, quiet_stream(StreamAction::Write));
    let step = stream(&mut d, &mut t, StreamEvent::Written);
    assert_eq!(step, quiet_stream(StreamAction::Measure { done: 4, total: 10 }));
    let step = stream(&mut d, &mut t, StreamEvent::Measured(40));
    assert_eq!(step, StreamStep { notify: Some(40), action: StreamAction::Next });
    let step = stream(&mut d, &mut t, StreamEvent::Portion(0));
    assert_eq!(step, quiet_stream(StreamAction::Next));
    stream(&mut d, &mut t, StreamEvent::Portion(6));
    stream(&mut d, &mut t, StreamEvent::Written);
    let step = stream(&mut d, &mut t, StreamEvent::Measured(100));
    assert_eq!(step, StreamStep { notify: Some(100), action: StreamAction::Flush });
    let step = stream(&mut d, &mut t, StreamEvent::Flushed);
    assert_eq!(step, quiet_stream(StreamAction::ReadFile));
    assert_eq!((t.total_read, d.conf.download_len), (10, 10));
    let step = stream(&mut d, &mut t, StreamEvent::FileRead(matching()));
    assert_eq!(step, quiet_stream(StreamAction::Finish));
    assert!(!d.stream_ready(&t, &StreamEvent::Ended));
}

#[test]
fn a_file_that_is_there_is_not_requested() {
    let mut d = download(10);
    d.set_file_md5(MD5.to_string());
    let (mut t, _) = d.gener_download();
    let step = stream(&mut d, &mut t, StreamEvent::FileRead(matching()));
    assert_eq!(step, quiet_stream(StreamAction::Finish));
}

#[test]
fn a_response_without_a_length_is_read_to_its_end() {
    let mut d = download(0);
    let mut t = streaming(&mut d, HeaderMap::new());
    stream(&mut d, &mut t, StreamEvent::Portion(5));
    stream(&mut d, &mut t, StreamEvent::Written);
    let step = stream(&mut d, &mut t, StreamEvent::Measured(0));
    assert_eq!(step, quiet_stream(StreamAction::Next));
    let step = stream(&mut d, &mut t, StreamEvent::Ended);
    assert_eq!(step, quiet_stream(StreamAction::Flush));
    let step = stream(&mut d, &mut t, StreamEvent::Flushed);
    assert_eq!(step, quiet_stream(StreamAction::Finish));
    assert_eq!(d.conf.download_len, 5);
    let mut t = streaming(&mut d, HeaderMap::new());
    let step = stream(&mut d, &mut t, StreamEvent::Portion(0));
    assert_eq!(step, quiet_stream(StreamAction::Flush));
    let mut t = streaming(&mut d, length("0"));
    let step = stream(&mut d, &mut t, StreamEvent::Portion(0));
    assert_eq!(step, quiet_stream(StreamAction::Flush));
}

#[test]
fn a_response_with_a_wrong_length_is_refused() {
    let mut d = download(10);
    let (mut t, _) = d.gener_download();
    stream(&mut d, &mut t, StreamEvent::Opened);
    let step = stream(&mut d, &mut t, StreamEvent::Response(length("1.5")));
    let e = Error::LengthInvalid(NumberError::InvalidDigit);
    assert_eq!(step, quiet_stream(StreamAction::Fail(e)));
    let (mut t, _) = d.gener_download();
    stream(&mut d, &mut t, StreamEvent::Opened);
    let mut headers = HeaderMap::new();
    headers.insert(header::CONTENT_LENGTH, HeaderValue::from_bytes(&[0x80]).unwrap());
    let step = stream(&mut d, &mut t, StreamEvent::Response(headers));
    assert_eq!(step, quiet_stream(StreamAction::Fail(Error::HeaderNotText)));
}

#[test]
fn a_response_needs_an_address_and_an_open_file() {
    let mut d = download(10);
    d.conf.url = None;
    let (mut t, _) = d.gener_download();
    let step = stream(&mut d, &mut t, StreamEvent::Opened);
    assert_eq!(step, quiet_stream(StreamAction::Fail(Error::AddressMissing)));
    let mut d = download(10);
    let mut t = streaming(&mut d, HeaderMap::new());
    d.file_open = false;
    let step = stream(&mut d, &mut t, StreamEvent::Portion(1));
    assert_eq!(step, quiet_stream(StreamAction::Fail(Error::FileNotOpen)));
}

#[test]
fn a_streamed_file_must_have_its_digest() {
    let mut d = download(10);
    let mut t = streaming(&mut d, length("1"));
    d.set_file_md5(MD5.to_string());
    let step = stream(&mut d, &mut t, StreamEvent::Ended);
    assert_eq!(step, quiet_stream(StreamAction::Flush));
    let step = stream(&mut d, &mut t, StreamEvent::Flushed);
    assert_eq!(step, quiet_stream(StreamAction::ReadFile));
    let step = stream(&mut d, &mut t, StreamEvent::FileRead(FileRead::Missing));
    assert_eq!(step, quiet_stream(StreamAction::Fail(Error::DigestMismatch)));
}

#[test]
fn stream_lengths_that_grow_too_large_are_not_accepted() {
    let mut d = download(10);
    let mut t = streaming(&mut d, HeaderMap::new());
    stream(&mut d, &mut t, StreamEvent::Portion(2));
    d.conf.download_len = u64::MAX - 1;
    assert!(!d.stream_ready(&t, &StreamEvent::Written));
    t.stage = StreamStage::Streaming;
    assert!(!d.stream_ready(&t, &StreamEvent::Portion(usize::MAX)));
    assert!(d.stream_ready(&t, &StreamEvent::Portion(usize::MAX - 2)));
}

#[test]
fn workers_do_not_get_in_each_others_way() {
    let mut d = download(40);
    d.set_chunk_size(10);
    let mut status = b"3:0\n0:3\n5:12\n".to_vec();
    let mut t = receiving(&mut d, &status);
    assert_eq!(t.ranges, [(3, 11), (17, 26), (27, 36), (37, 40)]);
    let mut workers: Vec<ChunkWorker> = t.ranges.iter().map(|r| ChunkWorker::new(*r)).collect();
    let portions = [(2, 4), (0, 0), (3, 3), (1, 10), (0, 9), (2, 0), (2, 6)];
    for (worker, byte_count) in portions {
        if worker == 2 {
            workers[2] = ChunkWorker::new(workers[2].unfinished());
        }
        let ((byte_count, offset), _) = workers[worker].receive(byte_count);
        status.extend(piece(&mut d, &mut t, byte_count, offset));
        let done = t.count == 40;
        let next = if done { ChunkAction::Join } else { ChunkAction::Receive };
        assert_eq!(chunk(&mut d, &mut t, ChunkEvent::NoneFailed), quiet(next));
        let Some(Ok((records, total))) = read_status(&status) else { panic!("it is readable") };
        let Some(Ok((ranges, again))) = plan_from_status(&status, 40, 10) else {
            panic!("it can be resumed from")
        };
        assert_eq!((total, again), (t.count, t.count));
        for b in 0..40 {
            let recorded = records.iter().filter(|r| r.1 <= b && b < r.1 + r.0).count();
            let requested = ranges.iter().filter(|r| r.0 <= b && b <= r.1).count();
            assert_eq!(recorded + requested, 1);
        }
    }
    assert_eq!(t.stage, ChunkStage::Joining);
}

#[test]
fn a_download_can_be_used_again() {
    let mut d = download(20);
    d.set_chunk_size(5);
    d.conf.download_len = 5;
    d.conf.progress = 25;
    let mut status = Vec::new();
    let mut t = receiving(&mut d, &status);
    assert_eq!((t.count, d.conf.download_len), (0, 5));
    for offset in [0, 5, 10, 15] {
        status.extend(piece(&mut d, &mut t, 5, offset));
        let done = t.count == 20;
        let next = if done { ChunkAction::Join } else { ChunkAction::Receive };
        assert_eq!(chunk(&mut d, &mut t, ChunkEvent::NoneFailed), quiet(next));
        assert_eq!(d.conf.download_len, t.count + 5);
    }
    assert_eq!(plan_from_status(&status, 20, 5), Some(Ok((vec![(20, 20)], 20))));
    assert_eq!(d.conf.progress, 100);
    assert_eq!(chunk(&mut d, &mut t, ChunkEvent::Joined), quiet(ChunkAction::Finish));
    let mut t = streaming(&mut d, length("3"));
    stream(&mut d, &mut t, StreamEvent::Portion(3));
    stream(&mut d, &mut t, StreamEvent::Written);
    assert_eq!(d.conf.download_len, 28);
}
