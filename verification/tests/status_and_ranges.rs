use http_downloader::error::Error;
use http_downloader::http::plan_from_status;
use http_downloader::number::{format_number, parse_number, NumberError};
use http_downloader::order::sort_by_offset;
use http_downloader::ranges::{chunk_offsets, plan_resume};
use http_downloader::status::{format_status_line, parse_status_line, read_status, StatusError};
use http_downloader::HttpDownload;

#[test]
fn numbers_are_read() {
    assert_eq!(parse_number(b"0", u64::MAX), Ok(0));
    assert_eq!(parse_number(b"2097152", u64::MAX), Ok(2097152));
    assert_eq!(parse_number(b"+42", u64::MAX), Ok(42));
    assert_eq!(parse_number(b"0007", u64::MAX), Ok(7));
    assert_eq!(parse_number(b"18446744073709551615", u64::MAX), Ok(u64::MAX));
}

#[test]
fn texts_that_are_no_numbers_are_refused() {
    assert_eq!(parse_number(b"", u64::MAX), Err(NumberError::Empty));
    assert_eq!(parse_number(b"+", u64::MAX), Err(NumberError::InvalidDigit));
    assert_eq!(parse_number(b"-1", u64::MAX), Err(NumberError::InvalidDigit));
    assert_eq!(parse_number(b"12a", u64::MAX), Err(NumberError::InvalidDigit));
    assert_eq!(parse_number(b" 1", u64::MAX), Err(NumberError::InvalidDigit));
    assert_eq!(parse_number(b"18446744073709551616", u64::MAX), Err(NumberError::Overflow));
    assert_eq!(parse_number(b"256", 255), Err(NumberError::Overflow));
    assert_eq!(parse_number(b"255", 255), Ok(255));
}

#[test]
fn reading_numbers_agrees_with_std() {
    let texts = [
        "", "+", "-", "0", "+0", "00", "9", "10", "+18446744073709551615", "18446744073709551616",
        "99999999999999999999x", "1844674407370955161x", "1 ", "++1", "٣", "123456789",
    ];
    for text in texts {
        assert_eq!(parse_number(text.as_bytes(), u64::MAX).ok(), text.parse::<u64>().ok());
        if let (Err(e), Err(std)) = (parse_number(text.as_bytes(), u64::MAX), text.parse::<u64>()) {
            assert_eq!(e.message(), std.to_string());
        }
    }
}

#[test]
fn written_numbers_are_read_back() {
    for n in [0, 7, 10, 99, 100, 2097152, u64::MAX - 1, u64::MAX] {
        let written = format_number(n);
        assert_eq!(written, n.to_string().into_bytes());
        assert_eq!(parse_number(&written, u64::MAX), Ok(n));
    }
}

#[test]
fn a_status_line_holds_count_and_offset() {
    assert_eq!(format_status_line(16384, 2097152), b"16384:2097152\n".to_vec());
    assert_eq!(format_status_line(0, 0), b"0:0\n".to_vec());
    assert_eq!(parse_status_line(b"16384:2097152"), Some(Ok((16384, 2097152))));
    assert_eq!(parse_status_line(b"1:2:ignored"), Some(Ok((1, 2))));
}

#[test]
fn a_status_line_can_be_wrong() {
    assert_eq!(parse_status_line(b"12"), None);
    assert_eq!(
        parse_status_line(b"x:1"),
        Some(Err(StatusError::Number(NumberError::InvalidDigit)))
    );
    assert_eq!(parse_status_line(b":1"), Some(Err(StatusError::Number(NumberError::Empty))));
    assert_eq!(parse_status_line(b"1:"), Some(Err(StatusError::Number(NumberError::Empty))));
    assert_eq!(parse_status_line(b""), Some(Err(StatusError::Number(NumberError::Empty))));
    assert_eq!(
        parse_status_line(b"1:99999999999999999999"),
        Some(Err(StatusError::Number(NumberError::Overflow)))
    );
    assert_eq!(parse_status_line(&[0xff, b':', b'1']), Some(Err(StatusError::NotText)));
}

#[test]
fn a_status_file_is_read_line_by_line() {
    assert_eq!(read_status(b""), Some(Ok((vec![], 0))));
    assert_eq!(
        read_status(b"10:20\n5:0\n"),
        Some(Ok((vec![(10, 20), (5, 0)], 15)))
    );
    assert_eq!(read_status(b"10:20\r\n5:0"), Some(Ok((vec![(10, 20), (5, 0)], 15))));
    assert_eq!(
        read_status(b"10:20\n\n5:0\n"),
        Some(Err(StatusError::Number(NumberError::Empty)))
    );
    assert_eq!(read_status(b"x:1\n7\n"), Some(Err(StatusError::Number(NumberError::InvalidDigit))));
    assert_eq!(read_status(b"7\nx:1\n"), None);
    assert_eq!(read_status(b"18446744073709551615:0\n1:0\n"), None);
}

#[test]
fn what_is_written_to_the_status_file_is_read_back() {
    let records = vec![(3u64, 9u64), (1, 0), (8, 1), (u64::MAX - 100, 12)];
    let mut content: Vec<u8> = Vec::new();
    for (count, offset) in &records {
        content.extend(format_status_line(*count, *offset));
    }
    let total = records.iter().map(|r| r.0).sum();
    assert_eq!(read_status(&content), Some(Ok((records, total))));
}

#[test]
fn records_are_sorted_by_offset_and_stay_in_order_otherwise() {
    assert_eq!(sort_by_offset(&[]), vec![]);
    assert_eq!(
        sort_by_offset(&[(1, 9), (2, 3), (3, 9), (4, 0), (5, 3)]),
        vec![(4, 0), (2, 3), (5, 3), (1, 9), (3, 9)]
    );
    let mut many: Vec<(u64, u64)> = (0..200u64).map(|i| (i, (i * 37) % 50)).collect();
    let sorted = sort_by_offset(&many);
    many.sort_by_key(|r| r.1);
    assert_eq!(sorted, many);
}

#[test]
fn a_file_is_cut_into_ranges() {
    assert_eq!(chunk_offsets(10, 4), vec![(0, 3), (4, 10)]);
    assert_eq!(chunk_offsets(12, 4), vec![(0, 3), (4, 7), (8, 12)]);
    assert_eq!(chunk_offsets(3, 4), vec![(0, 3)]);
    assert_eq!(chunk_offsets(0, 4), vec![(0, 0)]);
    let mut download = HttpDownload::new();
    download.set_chunk_size(5).conf.content_len = 15;
    assert_eq!(download.get_chunk_offsets(), vec![(0, 4), (5, 9), (10, 15)]);
}

#[test]
fn what_is_missing_is_requested() {
    assert_eq!(plan_resume(&[], 10, 4), Some(vec![(0, 3), (4, 7), (8, 10)]));
    assert_eq!(plan_resume(&[], 8, 4), Some(vec![(0, 3), (4, 8)]));
    assert_eq!(plan_resume(&[(2, 4), (1, 0)], 10, 4), Some(vec![(1, 3), (6, 10)]));
    assert_eq!(plan_resume(&[(10, 0)], 10, 4), Some(vec![(10, 10)]));
    assert_eq!(plan_resume(&[(3, 0), (3, 3), (1, 8)], 20, 5), Some(vec![(6, 7), (9, 13), (14, 18), (19, 20)]));
}

#[test]
fn records_beyond_the_file_cannot_be_resumed_from() {
    assert_eq!(plan_resume(&[(11, 0)], 10, 4), None);
    assert_eq!(plan_resume(&[(u64::MAX, 1)], u64::MAX, 4), None);
    assert_eq!(plan_resume(&[(1, 0), (1, 0)], 10, 4), None);
    assert_eq!(plan_resume(&[], 10, 0), None);
    assert_eq!(plan_resume(&[(10, 0)], 10, 0), Some(vec![(10, 10)]));
}

#[test]
fn every_byte_is_either_recorded_or_requested() {
    let records = [(3u64, 7u64), (2, 0), (4, 13), (1, 2)];
    let length = 30u64;
    for chunk_size in 1..40 {
        let ranges = plan_resume(&records, length, chunk_size).unwrap();
        for b in 0..length {
            let recorded = records.iter().any(|r| r.1 <= b && b < r.1 + r.0);
            let requested = ranges.iter().filter(|r| r.0 <= b && b <= r.1).count();
            assert_eq!(requested, if recorded { 0 } else { 1 });
        }
    }
}

#[test]
fn a_chunking_covers_the_file() {
    for length in 0..40u64 {
        for chunk_size in 1..10 {
            let ranges = chunk_offsets(length, chunk_size);
            for b in 0..length {
                assert_eq!(ranges.iter().filter(|r| r.0 <= b && b <= r.1).count(), 1);
            }
            assert_eq!(ranges.last().unwrap().1, length);
        }
    }
}

#[test]
fn a_download_is_resumed_from_its_status_file() {
    let mut download = HttpDownload::new();
    download.set_chunk_size(4).conf.content_len = 10;
    assert_eq!(download.get_resume_chunk_offsets(b""), Err(Error::StatusNotOpen));
    download.status_open = true;
    assert_eq!(
        download.get_resume_chunk_offsets(b"2:4\n1:0\n"),
        Ok((vec![(1, 3), (6, 10)], 3))
    );
    assert_eq!(
        download.get_resume_chunk_offsets(b"?:4\n"),
        Err(Error::StatusInvalid(StatusError::Number(NumberError::InvalidDigit)))
    );
    assert_eq!(plan_from_status(b"11:0\n", 10, 4), None);
    assert_eq!(plan_from_status(b"1\n", 10, 4), None);
    assert_eq!(plan_from_status(b"", 3, 4), Some(Ok((vec![(0, 3)], 0))));
}

#[test]
fn a_piece_of_a_requested_range_can_be_recorded_next() {
    let mut records = vec![(2u64, 4u64), (1, 0)];
    assert_eq!(plan_resume(&records, 10, 4), Some(vec![(1, 3), (6, 10)]));
    records.push((2, 1));
    assert_eq!(plan_resume(&records, 10, 4), Some(vec![(3, 3), (6, 10)]));
    records.push((1, 3));
    records.push((4, 6));
    let total: u64 = records.iter().map(|r| r.0).sum();
    assert_eq!(total, 10);
    assert_eq!(plan_resume(&records, 10, 4), Some(vec![(10, 10)]));
    for b in 0..10 {
        assert_eq!(records.iter().filter(|r| r.1 <= b && b < r.1 + r.0).count(), 1);
    }
}

#[test]
fn a_new_block_is_not_requested_again_though_records_overlap() {
    let mut status = b"6:10\n8:12\n4:30\n0:24\n".to_vec();
    let (_, before) = plan_from_status(&status, 50, 7).unwrap().unwrap();
    assert_eq!(before, 18);
    status.extend(format_status_line(6, 24));
    let (ranges, total) = plan_from_status(&status, 50, 7).unwrap().unwrap();
    assert_eq!(total, 24);
    for b in 24..30 {
        assert!(!ranges.iter().any(|r| r.0 <= b && b <= r.1));
    }
    assert!(ranges.iter().any(|r| r.0 <= 23 && 23 <= r.1));
}

#[test]
fn the_order_of_the_records_does_not_matter() {
    let ranges = plan_resume(&[(3, 7), (2, 0), (4, 13), (1, 2)], 30, 6).unwrap();
    assert_eq!(ranges, plan_resume(&[(1, 2), (4, 13), (3, 7), (2, 0)], 30, 6).unwrap());
    assert_eq!(ranges, plan_resume(&[(2, 0), (1, 2), (3, 7), (4, 13)], 30, 6).unwrap());
    assert_eq!(ranges[0], (3, 6));
}
