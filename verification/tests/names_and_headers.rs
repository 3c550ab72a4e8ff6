use http_downloader::address::{next_attempt, Address, AddressError};
use http_downloader::error::Error;
use http_downloader::filename::{choose_filename, name_from_disposition, name_from_path};
use http_downloader::headers::{show_header, show_headers, value_text, HeaderError};
use http_downloader::http::{accepts_ranges, content_length, gen_filename, read_value};
use http_downloader::number::NumberError;
use http_downloader::percent::{decode_percent_encoded_data, DecodeError};
use http_downloader::stream::announced_response_length;
use http_downloader::worker::{format_range, set_range_headers};
use http_downloader::HttpDownload;
use reqwest::header::{self, HeaderMap, HeaderName, HeaderValue};

fn address(text: &str, path: &str) -> Address {
    Address { text: text.to_string(), path: path.to_string() }
}

fn one_header(name: HeaderName, value: &[u8]) -> HeaderMap {
    let mut headers = HeaderMap::new();
    headers.insert(name, HeaderValue::from_bytes(value).unwrap());
    headers
}

#[test]
fn percent_escapes_are_decoded() {
    assert_eq!(decode_percent_encoded_data("a%20b").unwrap(), "a b");
    assert_eq!(decode_percent_encoded_data("%E6%96%87.zip").unwrap(), "文.zip");
    assert_eq!(decode_percent_encoded_data("%e6%96%87").unwrap(), "文");
    assert_eq!(decode_percent_encoded_data("文").unwrap(), "文");
    assert_eq!(decode_percent_encoded_data("").unwrap(), "");
    assert_eq!(decode_percent_encoded_data("%+5").unwrap(), "\u{5}");
    assert_eq!(decode_percent_encoded_data("a+b").unwrap(), "a+b");
}

#[test]
fn wrong_escapes_are_refused() {
    assert_eq!(decode_percent_encoded_data("%"), Err(DecodeError::EscapeNotHex));
    assert_eq!(decode_percent_encoded_data("%4"), Err(DecodeError::EscapeNotHex));
    assert_eq!(decode_percent_encoded_data("%zz"), Err(DecodeError::EscapeNotHex));
    assert_eq!(decode_percent_encoded_data("%4+"), Err(DecodeError::EscapeNotHex));
    assert_eq!(decode_percent_encoded_data("%文"), Err(DecodeError::EscapeNotText));
    assert_eq!(decode_percent_encoded_data("%é"), Err(DecodeError::EscapeNotHex));
    assert_eq!(decode_percent_encoded_data("%ff"), Err(DecodeError::NotUtf8));
}

#[test]
fn an_encoded_text_decodes_back() {
    for text in ["plain", "a b%c", "日本語 テキスト", "%%%", "\u{10ffff}\0"] {
        let encoded: String = text.bytes().map(|b| format!("%{:02X}", b)).collect();
        assert_eq!(decode_percent_encoded_data(&encoded).unwrap(), text);
        let partly: String = text
            .chars()
            .enumerate()
            .map(|(i, c)| match c {
                c if c == '%' || i % 2 == 0 => {
                    c.to_string().bytes().map(|b| format!("%{:02x}", b)).collect()
                }
                c => c.to_string(),
            })
            .collect();
        assert_eq!(decode_percent_encoded_data(&partly).unwrap(), text);
        assert_eq!(
            decode_percent_encoded_data(&format!("{}{}", encoded, partly)).unwrap(),
            format!("{}{}", text, text)
        );
    }
}

#[test]
fn the_disposition_names_the_file() {
    let value = "inline; filename=\"4f319a7a8cd6d322c6d938f7b8c2adb9.zip\"; filename*=utf-8''4f319a7a8cd6d322c6d938f7b8c2adb9.zip";
    assert_eq!(
        name_from_disposition(value),
        Some("4f319a7a8cd6d322c6d938f7b8c2adb9.zip".to_string())
    );
    assert_eq!(choose_filename(Some(value), "/x/y.bin"), "4f319a7a8cd6d322c6d938f7b8c2adb9.zip");
    assert_eq!(
        gen_filename(
            &address("http://h/x/y.bin", "/x/y.bin"),
            Some(&one_header(header::CONTENT_DISPOSITION, value.as_bytes()))
        ),
        "4f319a7a8cd6d322c6d938f7b8c2adb9.zip"
    );
}

#[test]
fn the_last_name_in_the_disposition_counts() {
    assert_eq!(name_from_disposition("filename=a; filename=b"), Some("b".to_string()));
    assert_eq!(name_from_disposition("attachment;filename=a=b"), Some("a".to_string()));
    assert_eq!(name_from_disposition("attachment; filename=\"\"\"x\"\""), Some("x".to_string()));
    assert_eq!(name_from_disposition("attachment; filename="), None);
    assert_eq!(name_from_disposition("filename=a; filename="), None);
    assert_eq!(name_from_disposition("attachment; name=x"), None);
    assert_eq!(name_from_disposition("attachment; xfilename=x"), None);
    assert_eq!(name_from_disposition("attachment;\u{3000}filename=x\u{a0}"), Some("x".to_string()));
}

#[test]
fn the_path_names_the_file_otherwise() {
    assert_eq!(name_from_path("/a/b.zip"), "b.zip");
    assert_eq!(name_from_path("/a/b%20c.zip"), "b c.zip");
    assert_eq!(name_from_path("/a/b%zz.zip"), "b%zz.zip");
    assert_eq!(name_from_path("/a/"), "index.html");
    assert_eq!(name_from_path(""), "index.html");
    assert_eq!(choose_filename(None, "/a/%20b%09"), "b");
    assert_eq!(choose_filename(Some("attachment"), "/a/b"), "b");
    assert_eq!(choose_filename(Some("filename=\" \""), "/a/b"), "");
    assert_eq!(gen_filename(&address("http://h/a/b", "/a/b"), None), "b");
    assert_eq!(
        gen_filename(
            &address("http://h/a/b", "/a/b"),
            Some(&one_header(header::CONTENT_DISPOSITION, b"filename=\xff"))
        ),
        "b"
    );
}

#[test]
fn header_values_are_shown() {
    assert_eq!(value_text(b"a\tb"), Some("a\tb".to_string()));
    assert_eq!(value_text(b""), Some(String::new()));
    assert_eq!(value_text(&[0xe9]), None);
    assert_eq!(value_text(&[127]), None);
    assert_eq!(show_header("etag", b"\"x\""), "etag: \"x\"");
    assert_eq!(show_header("etag", &[200]), "etag: <..>");
}

#[test]
fn headers_are_shown_one_line_for_each_value() {
    let mut headers = HeaderMap::new();
    assert!(show_headers(&headers).is_empty());
    headers.append(header::VIA, HeaderValue::from_static("one"));
    headers.append(header::SERVER, HeaderValue::from_static("s"));
    headers.append(header::VIA, HeaderValue::from_bytes(&[0xff]).unwrap());
    let mut shown = HttpDownload::new().print_headers(&headers);
    assert_eq!(shown, show_headers(&headers));
    assert!(
        shown.iter().position(|l| l == "via: one") < shown.iter().position(|l| l == "via: <..>")
    );
    shown.sort();
    assert_eq!(shown, ["server: s", "via: <..>", "via: one"]);
}

#[test]
fn a_server_says_whether_it_serves_ranges() {
    assert!(accepts_ranges(&one_header(header::ACCEPT_RANGES, b"bytes")));
    assert!(!accepts_ranges(&one_header(header::ACCEPT_RANGES, b"none")));
    assert!(!accepts_ranges(&one_header(header::ACCEPT_RANGES, b"Bytes")));
    assert!(!accepts_ranges(&HeaderMap::new()));
}

#[test]
fn a_server_says_how_long_the_file_is() {
    assert_eq!(content_length(&one_header(header::CONTENT_LENGTH, b"1048576")), Ok(1048576));
    assert_eq!(content_length(&HeaderMap::new()), Ok(0));
    assert_eq!(
        content_length(&one_header(header::CONTENT_LENGTH, b"1k")),
        Err(NumberError::InvalidDigit)
    );
    assert_eq!(
        content_length(&one_header(header::CONTENT_LENGTH, b"1\xff")),
        Err(NumberError::Empty)
    );
    assert_eq!(read_value(b"300", 255), Err(NumberError::Overflow));
}

#[test]
fn a_response_says_how_long_it_is() {
    assert_eq!(announced_response_length(&HeaderMap::new()), Ok(None));
    assert_eq!(
        announced_response_length(&one_header(header::CONTENT_LENGTH, b"12")),
        Ok(Some(12))
    );
    assert_eq!(
        announced_response_length(&one_header(header::CONTENT_LENGTH, b"1\xff")),
        Err(Error::HeaderNotText)
    );
    assert_eq!(
        announced_response_length(&one_header(header::CONTENT_LENGTH, b"")),
        Err(Error::LengthInvalid(NumberError::Empty))
    );
}

#[test]
fn a_range_is_requested_with_its_headers() {
    assert_eq!(format_range((0, 10485759)), "bytes=0-10485759");
    let mut headers = one_header(header::RANGE, b"bytes=1-2");
    headers.append(header::RANGE, HeaderValue::from_static("bytes=3-4"));
    headers.insert(header::HOST, HeaderValue::from_static("h"));
    assert_eq!(set_range_headers(&mut headers, (10, 19)), Ok(()));
    assert_eq!(headers.len(), 4);
    assert_eq!(headers.get_all(header::RANGE).iter().count(), 1);
    assert_eq!(headers[header::RANGE], "bytes=10-19");
    assert_eq!(headers[header::ACCEPT], "*/*");
    assert_eq!(headers[header::CONNECTION], "keep-alive");
    assert_eq!(headers[header::HOST], "h");
}

#[test]
fn a_full_header_map_takes_no_further_header() {
    let mut headers = HeaderMap::new();
    let mut n = 0u32;
    loop {
        let name = HeaderName::from_bytes(format!("x-{}", n).as_bytes()).unwrap();
        if headers.try_insert(name, HeaderValue::from_static("v")).is_err() {
            break;
        }
        n += 1;
    }
    let before = headers.len();
    assert!(before >= 6554);
    assert_eq!(set_range_headers(&mut headers, (0, 1)), Err(HeaderError::Full));
    assert_eq!(headers.len(), before);
    let mut download = HttpDownload::new();
    download.set_headers(headers);
    assert_eq!(download.set_user_agent("agent").err(), Some(Error::HeadersFull));
}

#[test]
fn the_user_agent_is_set_where_it_can_be() {
    let mut download = HttpDownload::new();
    download.set_user_agent("first").unwrap();
    download.set_user_agent("agent/1.0").unwrap().set_timeout(3);
    assert_eq!(download.conf.headers[header::USER_AGENT], "agent/1.0");
    assert_eq!(download.conf.headers.len(), 1);
    assert_eq!(download.conf.timeout, 3);
    download.set_user_agent("a\nb").unwrap();
    assert_eq!(download.conf.headers[header::USER_AGENT], "agent/1.0");
}

#[test]
fn texts_are_read_as_addresses() {
    let download = HttpDownload::new();
    let parsed = download.parse_url("https://example.com/a/b%20c.zip?x=1#f").unwrap();
    assert_eq!(parsed, address("https://example.com/a/b%20c.zip?x=1#f", "/a/b%20c.zip"));
    let parsed = download.parse_url("HTTP://Example.com").unwrap();
    assert_eq!(parsed, address("http://example.com/", "/"));
    let parsed = download.parse_url("example.com/d/e").unwrap();
    assert_eq!(parsed, address("http://example.com/d/e", "/d/e"));
}

#[test]
fn texts_that_are_no_addresses_are_refused() {
    let download = HttpDownload::new();
    let e = download.parse_url("http://").unwrap_err();
    assert_eq!(e, AddressError { relative: false, reason: "empty host".to_string() });
    let e = download.parse_url("").unwrap_err();
    assert_eq!(e, AddressError { relative: false, reason: "empty host".to_string() });
    let e = download.target("http://a:b/").unwrap_err();
    assert_eq!(e.message(), "url不合法: http://a:b/ err:invalid port number");
    assert_eq!(download.target("h/x").unwrap(), address("http://h/x", "/x"));
}

#[test]
fn a_text_without_a_scheme_is_tried_again() {
    let relative = Err(AddressError { relative: true, reason: String::new() });
    assert_eq!(next_attempt("h/x", &relative), Some("http://h/x".to_string()));
    let other = Err(AddressError { relative: false, reason: String::new() });
    assert_eq!(next_attempt("h/x", &other), None);
    assert_eq!(next_attempt("h/x", &Ok(address("a", "b"))), None);
}
