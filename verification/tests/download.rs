use http_downloader::address::{Address, AddressError};
use http_downloader::digest::{compari_file_md5, digests_match, FileRead};
use http_downloader::error::Error;
use http_downloader::http::{Finished, Mode, PROBE_TIMEOUT};
use http_downloader::number::NumberError;
use http_downloader::paths::{
    check_zip, file_path, get_file_extension, get_file_handle, must_create_dir, OpenMode,
};
use http_downloader::status::StatusError;
use http_downloader::worker::ChunkWorker;
use http_downloader::{get_file_md5, uzip_file, Config, HttpDownload};
use reqwest::header::{self, HeaderMap, HeaderValue};

fn address(text: &str, path: &str) -> Address {
    Address { text: text.to_string(), path: path.to_string() }
}

#[test]
fn a_new_download_has_the_default_settings() {
    let conf = Config::default();
    assert_eq!(conf.save_dir, "");
    assert_eq!(conf.file_md5, "");
    assert!(conf.url.is_none());
    assert!(conf.headers.is_empty());
    assert_eq!((conf.content_len, conf.download_len, conf.progress), (0, 0, 0));
    assert_eq!((conf.chunk_size, conf.timeout), (2097152, 0));
    assert_eq!((conf.num_workers, conf.max_retries, conf.debug), (2, 3, false));
    let download = HttpDownload::new();
    assert_eq!(download.conf.chunk_size, 2097152);
    assert_eq!(download.filename, "");
    assert_eq!(download.retries, 0);
    assert!(!download.support_chunk && !download.file_open && !download.status_open);
    assert_eq!(download.describe(), "http download url: ");
    assert_eq!(PROBE_TIMEOUT, 10);
}

#[test]
fn settings_are_set_one_after_the_other() {
    let mut headers = HeaderMap::new();
    headers.insert(header::RANGE, HeaderValue::from_static("bytes=0-1"));
    headers.insert(header::COOKIE, HeaderValue::from_static("c"));
    let mut download = HttpDownload::new_with_config(Config::default());
    download
        .set_timeout(7)
        .set_headers(headers)
        .set_save_dir("./temp/".to_string())
        .set_file_md5("4f319a7a8cd6d322c6d938f7b8c2adb9".to_string())
        .set_chunk_size(10485760)
        .set_max_retries(9)
        .set_num_workers(0)
        .debug(true);
    assert_eq!(download.request_timeout(), Some(7));
    assert_eq!(download.conf.save_dir, "./temp/");
    assert_eq!(download.conf.file_md5, "4f319a7a8cd6d322c6d938f7b8c2adb9");
    assert_eq!(download.conf.chunk_size, 10485760);
    assert_eq!(download.conf.max_retries, 9);
    assert_eq!(download.workers(), 1);
    assert!(download.conf.debug);
    assert_eq!(download.request_headers(), download.conf.headers);
    let sent = download.chunk_request_headers();
    assert_eq!(sent.len(), 1);
    assert_eq!(sent[header::COOKIE], "c");
    download.set_timeout(0).set_num_workers(5);
    assert_eq!(download.request_timeout(), None);
    assert_eq!(download.workers(), 5);
}

#[test]
fn an_address_is_set_with_what_the_server_said() {
    let mut headers = HeaderMap::new();
    headers.insert(header::ACCEPT_RANGES, HeaderValue::from_static("bytes"));
    headers.insert(header::CONTENT_LENGTH, HeaderValue::from_static("100"));
    let mut download = HttpDownload::new();
    let url = address("http://h/a/b%20c.zip", "/a/b%20c.zip");
    download.set_url(url.clone(), &headers).unwrap().set_timeout(1);
    assert_eq!(download.conf.url, Some(url));
    assert_eq!(download.filename, "b c.zip");
    assert!(download.support_chunk);
    assert_eq!(download.conf.content_len, 100);
    assert_eq!(download.conf.timeout, 1);
    assert_eq!(download.start(), Mode::Chunked);
    assert_eq!(download.describe(), "http download url: http://h/a/b%20c.zip");
    download.set_url(address("http://h/", "/"), &HeaderMap::new()).unwrap();
    assert_eq!(download.filename, "index.html");
    assert_eq!(download.conf.content_len, 0);
    assert_eq!(download.start(), Mode::Whole);
}

#[test]
fn an_address_without_a_name_or_a_length_is_refused() {
    let mut headers = HeaderMap::new();
    headers.insert(header::CONTENT_DISPOSITION, HeaderValue::from_static("filename=\" \""));
    headers.insert(header::ACCEPT_RANGES, HeaderValue::from_static("bytes"));
    let mut download = HttpDownload::new();
    let r = download.set_url(address("http://h/x", "/x"), &headers);
    assert_eq!(r.err(), Some(Error::FilenameEmpty));
    assert!(!download.support_chunk);
    headers.remove(header::CONTENT_DISPOSITION);
    headers.insert(header::CONTENT_LENGTH, HeaderValue::from_static("-1"));
    let r = download.set_url(address("http://h/x", "/x"), &headers);
    assert_eq!(r.err(), Some(Error::LengthInvalid(NumberError::InvalidDigit)));
    assert_eq!(download.filename, "x");
    assert!(download.support_chunk);
    assert!(download.conf.url.is_none());
}

#[test]
fn progress_is_reported_when_it_changes() {
    let mut download = HttpDownload::new();
    download.conf.content_len = 200;
    assert_eq!(download.on_progress(0), None);
    download.conf.download_len = 1;
    assert_eq!(download.on_progress(1), Some(1));
    assert_eq!(download.on_progress(1), None);
    assert_eq!(download.on_progress(255), Some(100));
    download.conf.download_len = 200;
    assert_eq!(download.on_progress(7), None);
    download.conf.content_len = 0;
    assert_eq!(download.on_progress(50), Some(0));
    assert_eq!(download.conf.progress, 0);
}

#[test]
fn progress_does_not_fall() {
    let mut download = HttpDownload::new();
    download.conf.content_len = 1000;
    let mut before = 0;
    for written in (0..1200).step_by(7) {
        download.conf.download_len = written;
        download.on_progress(((written as f64 / 1000.0) * 100.0).ceil() as u8);
        assert!(before <= download.conf.progress);
        before = download.conf.progress;
    }
    assert_eq!(before, 100);
}

#[test]
fn files_go_to_the_directory_to_save_to() {
    let mut download = HttpDownload::new();
    download.filename = "a.zip".to_string();
    assert_eq!(download.get_file_path("a.zip"), "a.zip");
    assert_eq!(download.status_path(), "a.zip.st");
    download.set_save_dir("./temp/".to_string());
    assert_eq!(download.get_file_path("a.zip"), "./temp/a.zip");
    assert_eq!(
        download.on_finish("./temp/a.zip".to_string(), download.status_path()),
        Finished {
            percent: 100,
            path: "./temp/a.zip".to_string(),
            status_path: "./temp/a.zip.st".to_string(),
        }
    );
    assert_eq!(file_path("temp", "a"), format!("temp{}a", std::path::MAIN_SEPARATOR));
    assert_eq!(file_path("temp", "/a"), "/a");
    assert_eq!(file_path("D:/dl/", "a.zip"), "D:/dl/a.zip");
    assert_eq!(file_path("//host/share", "a"), format!("//host/share{}a", std::path::MAIN_SEPARATOR));
    assert!(file_path("C:\\dl", "a.zip").starts_with("C:\\dl"));
    assert!(file_path("C:\\dl", "a.zip").ends_with("a.zip"));
    assert_eq!(file_path("C:\\dl", "a.zip").len(), 11);
}

#[test]
fn files_are_opened_as_they_must_be() {
    assert_eq!(get_file_handle(true, true), OpenMode::Append);
    assert_eq!(get_file_handle(true, false), OpenMode::Overwrite);
    assert_eq!(get_file_handle(false, true), OpenMode::Create);
    assert_eq!(get_file_handle(false, false), OpenMode::Create);
    assert!(must_create_dir("temp", false));
    assert!(!must_create_dir("temp", true));
    assert!(!must_create_dir("", false));
}

#[test]
fn extensions_are_found() {
    assert_eq!(get_file_extension("a/b.tar.gz"), Some("gz"));
    assert_eq!(get_file_extension("a.zip/"), Some("zip"));
    assert_eq!(get_file_extension("a.zip/."), Some("zip"));
    assert_eq!(get_file_extension("a."), Some(""));
    assert_eq!(get_file_extension(".zip"), None);
    assert_eq!(get_file_extension("a/.."), None);
    assert_eq!(get_file_extension("a.b/c"), None);
    assert_eq!(get_file_extension(""), None);
    assert_eq!(get_file_extension("C:\\dl\\a.tar.zip"), Some("zip"));
    assert_eq!(get_file_extension("C:a.zip"), Some("zip"));
    assert_eq!(get_file_extension("C:\\dl\\a"), None);
    assert_eq!(get_file_extension("C:/a.b/c"), None);
}

#[test]
fn only_zip_files_are_extracted() {
    assert_eq!(uzip_file("a.zip", true), Ok(()));
    assert_eq!(uzip_file("a.ZiP", true), Ok(()));
    assert_eq!(uzip_file("C:\\dl\\a.zip", true), Ok(()));
    assert_eq!(uzip_file("a.zip", false), Err(Error::FileMissing));
    assert_eq!(uzip_file("a.gz", true), Err(Error::NotZip));
    assert_eq!(uzip_file("zip", true), Err(Error::NoExtension));
    assert_eq!(uzip_file("C:/a.zip/c", true), Err(Error::NoExtension));
    assert_eq!(check_zip(true, Some("zipx")), Err(Error::NotZip));
}

#[test]
fn digests_are_those_of_the_bytes() {
    let data = FileRead::Bytes(b"example data".to_vec());
    assert_eq!(get_file_md5("x", data).unwrap(), "5c71dbb287630d65ca93764c34d9aa0d");
    let empty = FileRead::Bytes(vec![]);
    assert_eq!(get_file_md5("x", empty).unwrap(), "d41d8cd98f00b204e9800998ecf8427e");
}

#[test]
fn a_file_that_was_not_read_has_no_digest() {
    let bytes = || FileRead::Bytes(vec![]);
    assert_eq!(get_file_md5("", bytes()), Err(Error::PathEmpty));
    assert_eq!(get_file_md5("x", FileRead::Missing), Err(Error::FileMissing));
    assert_eq!(
        get_file_md5("x", FileRead::NotOpened("why".to_string())),
        Err(Error::Io("why".to_string()))
    );
    let e = get_file_md5("x", FileRead::NotRead("why".to_string())).unwrap_err();
    assert_eq!(e, Error::DigestFailed("why".to_string()));
    assert_eq!(e.message(), "get_file_md5 chksum failed:why");
}

#[test]
fn digests_are_compared_without_case() {
    let data = || FileRead::Bytes(b"example data".to_vec());
    assert!(compari_file_md5("x", data(), "5C71DBB287630D65CA93764C34D9AA0D"));
    assert!(compari_file_md5("x", data(), "5c71dbb287630d65ca93764c34d9aa0d"));
    assert!(!compari_file_md5("x", data(), "5c71dbb287630d65ca93764c34d9aa0e"));
    assert!(!compari_file_md5("x", data(), ""));
    assert!(!compari_file_md5("x", FileRead::Missing, "5c71dbb287630d65ca93764c34d9aa0d"));
    assert!(digests_match("ÄB", "äb"));
    assert!(!digests_match("a", "b"));
}

#[test]
fn a_worker_tells_where_its_pieces_belong() {
    let mut worker = ChunkWorker::new((100, 109));
    assert_eq!(worker.receive(4), ((4, 100), false));
    assert_eq!(worker.unfinished(), (104, 109));
    assert_eq!(worker.receive(0), ((0, 104), false));
    assert_eq!(worker.receive(5), ((5, 104), false));
    assert_eq!(worker.receive(1), ((1, 109), true));
    let mut worker = ChunkWorker::new((7, 7));
    assert_eq!(worker.receive(3), ((3, 7), true));
}

#[test]
fn errors_say_what_went_wrong() {
    let cause = AddressError { relative: false, reason: "empty host".to_string() };
    let texts = [
        (Error::AddressInvalid { text: "x".to_string(), cause }, "url不合法: x err:empty host"),
        (Error::FilenameEmpty, "filename is empty"),
        (Error::LengthInvalid(NumberError::Empty), "cannot parse integer from empty string"),
        (Error::HeaderNotText, "failed to convert header to a str"),
        (Error::HeadersFull, "size overflows MAX_SIZE"),
        (Error::FileNotOpen, "file handler is none"),
        (Error::StatusNotOpen, "st_file is none"),
        (Error::StatusInvalid(StatusError::NotText), "stream did not contain valid UTF-8"),
        (
            Error::StatusInvalid(StatusError::Number(NumberError::Overflow)),
            "number too large to fit in target type",
        ),
        (Error::ChunksUnsupported, "chunk download not support"),
        (Error::AddressMissing, "url is empty"),
        (Error::DigestMismatch, "download ok but, file md5 not match"),
        (Error::MaxRetries, "max retries"),
        (Error::PathEmpty, "file_path is empty"),
        (Error::FileMissing, "file does not exist"),
        (Error::DigestFailed("r".to_string()), "get_file_md5 chksum failed:r"),
        (Error::NoExtension, "file is not extension"),
        (Error::NotZip, "file is not zip"),
        (Error::Io("r".to_string()), "r"),
    ];
    for (error, text) in texts {
        assert_eq!(error.message(), text);
    }
}
