//! The transfer of a file in one response, as a sequence of decisions: the library is told
//! what happened and says what to do next.
use crate::config::Config;
use crate::digest::{compari_file_md5, has_digest, FileRead};
use crate::error::Error;
use crate::headers::{
    first_value, header_fields, header_get, lemma_header_names, value_text, visible_text,
};
use crate::http::{news, percent, progressed, status_name, with_written, HttpDownload};
use crate::number::{number, parse_number};
use crate::paths::file_path_is;
use reqwest::header::HeaderMap;
use vstd::prelude::*;

verus! {

/// What a transfer in one response waits for.
#[derive(Clone, Copy, Debug, PartialEq, Eq, Structural)]
pub enum StreamStage {
    /// For the file that may be there already.
    CheckingFile,
    OpeningFile,
    /// For the headers of the response.
    Requesting,
    /// For the next portion of the response.
    Streaming,
    /// For a portion to be written.
    Writing,
    /// For the share of the file that is written.
    Measuring,
    /// For the written portions to be put to disk.
    Flushing,
    /// For the finished file.
    Verifying,
    /// For nothing: the transfer is over.
    Done,
}

/// What happened.
pub enum StreamEvent {
    /// Reading the file gave this.
    FileRead(FileRead),
    /// The file was opened.
    Opened,
    /// The response began, with these headers.
    Response(HeaderMap),
    /// A portion of that many bytes arrived.
    Portion(usize),
    /// The portion was written.
    Written,
    /// This is the share of the file that is written, in percent, rounded up.
    Measured(u8),
    /// The response ended.
    Ended,
    /// Everything written is on disk.
    Flushed,
}

/// What to do next.
#[derive(Debug, PartialEq, Eq)]
pub enum StreamAction {
    /// Read the file, with all that was put to disk.
    ReadFile,
    /// Open the file from its beginning.
    OpenFile,
    /// Request the file.
    Request,
    /// Wait for a portion.
    Next,
    /// Write the portion.
    Write,
    /// Compute which share of `total` is `done`.
    Measure { done: u64, total: u64 },
    /// Put everything written to disk, so that a read of the file gives it.
    Flush,
    /// Finish.
    Finish,
    /// Fail.
    Fail(Error),
}

/// What to report, if anything, and what to do next.
#[derive(Debug, PartialEq, Eq)]
pub struct StreamStep {
    /// The progress to report, in percent.
    pub notify: Option<u8>,
    pub action: StreamAction,
}

/// A transfer in one response: how far it has come.
#[derive(Debug, PartialEq, Eq)]
pub struct StreamTransfer {
    pub stage: StreamStage,
    /// The file.
    pub path: String,
    /// The status file that a transfer in ranges may have left.
    pub status_path: String,
    /// The length of the response, where the server gave it.
    pub expected: Option<usize>,
    /// How many bytes have arrived.
    pub total_read: usize,
    /// How many bytes are in the portion that arrived last.
    pub last: usize,
}

/// The length of a response with the given headers, where they give one.
pub open spec fn response_length(fields: Map<Seq<char>, Seq<Seq<u8>>>) -> Result<
    Option<nat>,
    Error,
> {
    match first_value(fields, "content-length"@) {
        None => Ok(None),
        Some(value) => if visible_text(value) is None {
            Err(Error::HeaderNotText)
        } else {
            match number(value, usize::MAX as nat) {
                Ok(length) => Ok(Some(length)),
                Err(e) => Err(Error::LengthInvalid(e)),
            }
        },
    }
}

/// A response has been read as far as is needed: up to the length that the server gave, or,
/// where it gave none, up to an empty portion.
pub open spec fn read_enough(t: StreamTransfer) -> bool {
    match t.expected {
        Some(length) => t.total_read >= length,
        None => t.last == 0,
    }
}

/// What follows when the portions are on disk: the digest is checked where one is expected.
pub open spec fn after_flush(d: HttpDownload) -> (StreamStage, StreamAction) {
    if d.conf.file_md5@.len() == 0 {
        (StreamStage::Done, StreamAction::Finish)
    } else {
        (StreamStage::Verifying, StreamAction::ReadFile)
    }
}

/// What follows when nothing is left to be done for the last portion.
pub open spec fn after_portion(t: StreamTransfer) -> (StreamStage, StreamAction) {
    if read_enough(t) {
        (StreamStage::Flushing, StreamAction::Flush)
    } else {
        (StreamStage::Streaming, StreamAction::Next)
    }
}

/// The transfer only moves to another stage, and that action is called for.
pub open spec fn stream_moves(
    t0: StreamTransfer,
    t1: StreamTransfer,
    step: StreamStep,
    next: (StreamStage, StreamAction),
) -> bool {
    &&& t1 == StreamTransfer { stage: next.0, ..t0 }
    &&& step.action == next.1
}

/// The event can happen in this stage, and the numbers that it leads to stay in bounds.
pub open spec fn stream_accepts(d: HttpDownload, t: StreamTransfer, event: StreamEvent) -> bool {
    match (t.stage, event) {
        (StreamStage::CheckingFile, StreamEvent::FileRead(_)) => true,
        (StreamStage::OpeningFile, StreamEvent::Opened) => true,
        (StreamStage::Requesting, StreamEvent::Response(_)) => true,
        (StreamStage::Streaming, StreamEvent::Portion(length)) => t.total_read + length
            <= usize::MAX,
        (StreamStage::Streaming, StreamEvent::Ended) => true,
        (StreamStage::Writing, StreamEvent::Written) => d.conf.download_len + t.last <= u64::MAX,
        (StreamStage::Measuring, StreamEvent::Measured(_)) => true,
        (StreamStage::Flushing, StreamEvent::Flushed) => true,
        (StreamStage::Verifying, StreamEvent::FileRead(_)) => true,
        _ => false,
    }
}

/// What a step of the transfer does: from the download `d0` and the transfer `t0`, the event
/// leads to `d1`, `t1` and `step`.
pub open spec fn stream_stepped(
    d0: HttpDownload,
    t0: StreamTransfer,
    event: StreamEvent,
    d1: HttpDownload,
    t1: StreamTransfer,
    step: StreamStep,
) -> bool {
    match (t0.stage, event) {
        (StreamStage::CheckingFile, StreamEvent::FileRead(file)) => {
            &&& d1 == d0
            &&& step.notify is None
            &&& stream_moves(
                t0,
                t1,
                step,
                if has_digest(t0.path@, file, d0.conf.file_md5@) {
                    (StreamStage::Done, StreamAction::Finish)
                } else {
                    (StreamStage::OpeningFile, StreamAction::OpenFile)
                },
            )
        },
        (StreamStage::OpeningFile, StreamEvent::Opened) => {
            &&& d1 == HttpDownload { file_open: true, ..d0 }
            &&& step.notify is None
            &&& stream_moves(
                t0,
                t1,
                step,
                if d0.conf.url is None {
                    (StreamStage::Done, StreamAction::Fail(Error::AddressMissing))
                } else {
                    (StreamStage::Requesting, StreamAction::Request)
                },
            )
        },
        (StreamStage::Requesting, StreamEvent::Response(headers)) => {
            &&& d1 == d0
            &&& step.notify is None
            &&& match response_length(header_fields(headers)) {
                Err(e) => stream_moves(
                    t0,
                    t1,
                    step,
                    (StreamStage::Done, StreamAction::Fail(e)),
                ),
                Ok(length) => {
                    &&& match length {
                        None => t1.expected is None,
                        Some(length) => t1.expected matches Some(n) && n == length,
                    }
                    &&& t1 == StreamTransfer {
                        stage: StreamStage::Streaming,
                        expected: t1.expected,
                        ..t0
                    }
                    &&& step.action == StreamAction::Next
                },
            }
        },
        (StreamStage::Streaming, StreamEvent::Portion(length)) => {
            let read = StreamTransfer {
                total_read: (t0.total_read + length) as usize,
                last: length,
                ..t0
            };
            &&& d1 == d0
            &&& step.notify is None
            &&& stream_moves(
                read,
                t1,
                step,
                if length == 0 {
                    after_portion(read)
                } else if d0.file_open {
                    (StreamStage::Writing, StreamAction::Write)
                } else {
                    (StreamStage::Done, StreamAction::Fail(Error::FileNotOpen))
                },
            )
        },
        (StreamStage::Streaming, StreamEvent::Ended) => {
            &&& d1 == d0
            &&& step.notify is None
            &&& stream_moves(t0, t1, step, (StreamStage::Flushing, StreamAction::Flush))
        },
        (StreamStage::Flushing, StreamEvent::Flushed) => {
            &&& d1 == d0
            &&& step.notify is None
            &&& stream_moves(t0, t1, step, after_flush(d0))
        },
        (StreamStage::Writing, StreamEvent::Written) => {
            let written = (d0.conf.download_len + t0.last) as u64;
            &&& d1 == with_written(d0, written)
            &&& step.notify is None
            &&& stream_moves(
                t0,
                t1,
                step,
                (
                    StreamStage::Measuring,
                    StreamAction::Measure { done: written, total: d0.conf.content_len },
                ),
            )
        },
        (StreamStage::Measuring, StreamEvent::Measured(ratio)) => {
            &&& d1 == progressed(d0, ratio)
            &&& step.notify == news(d0, ratio)
            &&& stream_moves(t0, t1, step, after_portion(t0))
        },
        (StreamStage::Verifying, StreamEvent::FileRead(file)) => {
            &&& d1 == d0
            &&& step.notify is None
            &&& stream_moves(
                t0,
                t1,
                step,
                if has_digest(t0.path@, file, d0.conf.file_md5@) {
                    (StreamStage::Done, StreamAction::Finish)
                } else {
                    (StreamStage::Done, StreamAction::Fail(Error::DigestMismatch))
                },
            )
        },
        _ => false,
    }
}

/// The length of a response with the given headers, where they give one.
pub fn announced_response_length(headers: &HeaderMap) -> (r: Result<Option<usize>, Error>)
    ensures
        match response_length(header_fields(*headers)) {
            Err(e) => r is Err && r->Err_0 == e,
            Ok(None) => r is Ok && r->Ok_0 is None,
            Ok(Some(length)) => r is Ok && r->Ok_0 is Some && r->Ok_0->Some_0 == length,
        },
{
    proof {
        lemma_header_names();
    }
    match header_get(headers, "content-length") {
        None => Ok(None),
        Some(value) => match value_text(value.as_slice()) {
            None => Err(Error::HeaderNotText),
            Some(_) => match parse_number(value.as_slice(), usize::MAX as u64) {
                Ok(length) => Ok(Some(length as usize)),
                Err(e) => Err(Error::LengthInvalid(e)),
            },
        },
    }
}

fn decide_after_portion(transfer: &StreamTransfer) -> (r: (StreamStage, StreamAction))
    ensures
        r == after_portion(*transfer),
{
    let enough = match transfer.expected {
        Some(length) => transfer.total_read >= length,
        None => transfer.last == 0,
    };
    if enough {
        (StreamStage::Flushing, StreamAction::Flush)
    } else {
        (StreamStage::Streaming, StreamAction::Next)
    }
}

impl HttpDownload {
    /// Begins a transfer in one response.
    pub fn gener_download(&self) -> (r: (StreamTransfer, StreamAction))
        ensures
            file_path_is(self.conf.save_dir@, self.filename@, r.0.path@),
            file_path_is(self.conf.save_dir@, status_name(self.filename@), r.0.status_path@),
            r.0.expected is None,
            r.0.total_read == 0,
            r.0.last == 0,
            (r.0.stage, r.1) == (if self.conf.file_md5@.len() > 0 {
                (StreamStage::CheckingFile, StreamAction::ReadFile)
            } else {
                (StreamStage::OpeningFile, StreamAction::OpenFile)
            }),
            stream_in_order(*self, r.0, self.conf.download_len as nat),
    {
        let path = self.get_file_path(self.filename.as_str());
        let status_path = self.status_path();
        let (stage, action) = if !self.conf.file_md5.as_str().is_empty() {
            (StreamStage::CheckingFile, StreamAction::ReadFile)
        } else {
            (StreamStage::OpeningFile, StreamAction::OpenFile)
        };
        (
            StreamTransfer { stage, path, status_path, expected: None, total_read: 0, last: 0 },
            action,
        )
    }

    fn decide_after_flush(&self) -> (r: (StreamStage, StreamAction))
        ensures
            r == after_flush(*self),
    {
        if self.conf.file_md5.as_str().is_empty() {
            (StreamStage::Done, StreamAction::Finish)
        } else {
            (StreamStage::Verifying, StreamAction::ReadFile)
        }
    }

    /// Whether a step of the transfer can be taken on this event.
    pub fn stream_ready(&self, transfer: &StreamTransfer, event: &StreamEvent) -> (r: bool)
        ensures
            r == stream_accepts(*self, *transfer, *event),
    {
        match (transfer.stage, event) {
            (StreamStage::CheckingFile, StreamEvent::FileRead(_)) => true,
            (StreamStage::OpeningFile, StreamEvent::Opened) => true,
            (StreamStage::Requesting, StreamEvent::Response(_)) => true,
            (StreamStage::Streaming, StreamEvent::Portion(length)) => *length <= usize::MAX
                - transfer.total_read,
            (StreamStage::Streaming, StreamEvent::Ended) => true,
            (StreamStage::Writing, StreamEvent::Written) => transfer.last as u64 <= u64::MAX
                - self.conf.download_len,
            (StreamStage::Measuring, StreamEvent::Measured(_)) => true,
            (StreamStage::Flushing, StreamEvent::Flushed) => true,
            (StreamStage::Verifying, StreamEvent::FileRead(_)) => true,
            _ => false,
        }
    }

    /// Takes one step of a transfer in one response: what to do after what happened.
    pub fn stream_step(&mut self, transfer: &mut StreamTransfer, event: StreamEvent) -> (r:
        StreamStep)
        requires
            stream_accepts(*old(self), *old(transfer), event),
        ensures
            stream_stepped(*old(self), *old(transfer), event, *final(self), *final(transfer), r),
    {
        let mut notify: Option<u8> = None;
        let (stage, action) = match (transfer.stage, event) {
            (StreamStage::CheckingFile, StreamEvent::FileRead(file)) => {
                if compari_file_md5(transfer.path.as_str(), file, self.conf.file_md5.as_str()) {
                    (StreamStage::Done, StreamAction::Finish)
                } else {
                    (StreamStage::OpeningFile, StreamAction::OpenFile)
                }
            },
            (StreamStage::OpeningFile, StreamEvent::Opened) => {
                self.file_open = true;
                if self.conf.url.is_none() {
                    (StreamStage::Done, StreamAction::Fail(Error::AddressMissing))
                } else {
                    (StreamStage::Requesting, StreamAction::Request)
                }
            },
            (StreamStage::Requesting, StreamEvent::Response(headers)) => {
                match announced_response_length(&headers) {
                    Err(e) => (StreamStage::Done, StreamAction::Fail(e)),
                    Ok(length) => {
                        transfer.expected = length;
                        (StreamStage::Streaming, StreamAction::Next)
                    },
                }
            },
            (StreamStage::Streaming, StreamEvent::Portion(length)) => {
                transfer.total_read = transfer.total_read + length;
                transfer.last = length;
                if length == 0 {
                    decide_after_portion(transfer)
                } else if self.file_open {
                    (StreamStage::Writing, StreamAction::Write)
                } else {
                    (StreamStage::Done, StreamAction::Fail(Error::FileNotOpen))
                }
            },
            (StreamStage::Streaming, StreamEvent::Ended) => {
                (StreamStage::Flushing, StreamAction::Flush)
            },
            (StreamStage::Flushing, StreamEvent::Flushed) => self.decide_after_flush(),
            (StreamStage::Writing, StreamEvent::Written) => {
                self.conf.download_len = self.conf.download_len + transfer.last as u64;
                (
                    StreamStage::Measuring,
                    StreamAction::Measure {
                        done: self.conf.download_len,
                        total: self.conf.content_len,
                    },
                )
            },
            (StreamStage::Measuring, StreamEvent::Measured(ratio)) => {
                notify = self.on_progress(ratio);
                decide_after_portion(transfer)
            },
            (StreamStage::Verifying, StreamEvent::FileRead(file)) => {
                if compari_file_md5(transfer.path.as_str(), file, self.conf.file_md5.as_str()) {
                    (StreamStage::Done, StreamAction::Finish)
                } else {
                    (StreamStage::Done, StreamAction::Fail(Error::DigestMismatch))
                }
            },
            _ => {
                assert(false);
                (StreamStage::Done, StreamAction::Finish)
            },
        };
        transfer.stage = stage;
        StreamStep { notify, action }
    }
}

/// How many bytes have arrived that are not written yet.
pub open spec fn unwritten_portion(t: StreamTransfer) -> nat {
    if t.stage is Writing {
        t.last as nat
    } else {
        0
    }
}

/// What holds in every stage of a download that had written `start` bytes, and a transfer of it:
/// the length written has grown by what has arrived, apart from a portion that is still to be
/// written; the file is open when it is needed; and a portion is waited for only while the
/// response is not known to be complete.
pub open spec fn stream_in_order(d: HttpDownload, t: StreamTransfer, start: nat) -> bool {
    &&& d.conf.download_len + unwritten_portion(t) == start + t.total_read
    &&& match t.stage {
        StreamStage::CheckingFile | StreamStage::OpeningFile => t.total_read == 0,
        StreamStage::Requesting => t.total_read == 0 && d.file_open,
        StreamStage::Streaming => {
            &&& d.file_open
            &&& t.expected matches Some(length) ==> t.total_read < length || t.total_read == 0
        },
        StreamStage::Writing | StreamStage::Measuring => d.file_open && t.last > 0,
        _ => true,
    }
}

/// A transfer that goes from the states at one place of `ds` and `ts` to those at the next
/// by the event and the step at that place.
pub open spec fn stream_run(
    ds: Seq<HttpDownload>,
    ts: Seq<StreamTransfer>,
    events: Seq<StreamEvent>,
    steps: Seq<StreamStep>,
) -> bool {
    &&& ds.len() == events.len() + 1
    &&& ts.len() == events.len() + 1
    &&& steps.len() == events.len()
    &&& forall|i: int|
        0 <= i < events.len() ==> {
            &&& stream_accepts(ds[i], ts[i], #[trigger] events[i])
            &&& stream_stepped(ds[i], ts[i], events[i], ds[i + 1], ts[i + 1], steps[i])
        }
}

proof fn lemma_stream_front(
    ds: Seq<HttpDownload>,
    ts: Seq<StreamTransfer>,
    events: Seq<StreamEvent>,
    steps: Seq<StreamStep>,
)
    requires
        stream_run(ds, ts, events, steps),
        events.len() > 0,
    ensures
        stream_run(ds.drop_last(), ts.drop_last(), events.drop_last(), steps.drop_last()),
        ({
            let n = events.len() - 1;
            &&& stream_accepts(ds[n], ts[n], events.last())
            &&& stream_stepped(ds[n], ts[n], events.last(), ds.last(), ts.last(), steps.last())
        }),
{
    let n = events.len() - 1;
    assert(events[n] == events.last());
    let front = events.drop_last();
    assert forall|i: int| 0 <= i < front.len() implies {
        &&& stream_accepts(ds.drop_last()[i], ts.drop_last()[i], #[trigger] front[i])
        &&& stream_stepped(
            ds.drop_last()[i],
            ts.drop_last()[i],
            front[i],
            ds.drop_last()[i + 1],
            ts.drop_last()[i + 1],
            steps.drop_last()[i],
        )
    } by {
        assert(front[i] == events[i]);
    }
}

/// The number of bytes in all the portions that arrived.
pub open spec fn portions_total(events: Seq<StreamEvent>) -> nat
    decreases events.len(),
{
    if events.len() == 0 {
        0
    } else {
        portions_total(events.drop_last()) + (match events.last() {
            StreamEvent::Portion(length) => length as nat,
            _ => 0,
        })
    }
}

/// A transfer that begins in order stays in order, whatever happens, and it counts every byte
/// that arrives. The progress stays a percentage.
pub proof fn law_stream_stays_in_order(
    ds: Seq<HttpDownload>,
    ts: Seq<StreamTransfer>,
    events: Seq<StreamEvent>,
    steps: Seq<StreamStep>,
    start: nat,
)
    requires
        stream_run(ds, ts, events, steps),
        stream_in_order(ds[0], ts[0], start),
    ensures
        stream_in_order(ds.last(), ts.last(), start),
        ts.last().total_read == ts[0].total_read + portions_total(events),
        ds[0].conf.progress <= 100 ==> ds.last().conf.progress <= 100,
    decreases events.len(),
{
    if events.len() > 0 {
        lemma_stream_front(ds, ts, events, steps);
        law_stream_stays_in_order(
            ds.drop_last(),
            ts.drop_last(),
            events.drop_last(),
            steps.drop_last(),
            start,
        );
        assert(ds.drop_last().last() == ds[events.len() - 1]);
        assert(ts.drop_last().last() == ts[events.len() - 1]);
    }
}

/// From its beginning on, a transfer adds to the length written every byte that arrives, but
/// for a portion that is still to be written.
pub proof fn law_stream_writes_what_arrives(
    ds: Seq<HttpDownload>,
    ts: Seq<StreamTransfer>,
    events: Seq<StreamEvent>,
    steps: Seq<StreamStep>,
)
    requires
        stream_run(ds, ts, events, steps),
        ts[0].stage is CheckingFile || ts[0].stage is OpeningFile,
        ts[0].total_read == 0,
    ensures
        ds.last().conf.download_len + unwritten_portion(ts.last()) == ds[0].conf.download_len
            + portions_total(events),
{
    law_stream_stays_in_order(ds, ts, events, steps, ds[0].conf.download_len as nat);
}

/// The response has ended or was read as far as is needed.
pub open spec fn response_read(events: Seq<StreamEvent>, t: StreamTransfer) -> bool {
    read_enough(t) || exists|i: int| 0 <= i < events.len() && #[trigger] events[i] is Ended
}

/// What was written is put to disk only after the response has been read.
proof fn lemma_flushed_response_is_read(
    ds: Seq<HttpDownload>,
    ts: Seq<StreamTransfer>,
    events: Seq<StreamEvent>,
    steps: Seq<StreamStep>,
)
    requires
        stream_run(ds, ts, events, steps),
        ts[0].stage is CheckingFile || ts[0].stage is OpeningFile,
        ts.last().stage is Flushing,
    ensures
        response_read(events, ts.last()),
{
    if events.len() > 0 {
        lemma_stream_front(ds, ts, events, steps);
        if events.last() is Ended {
            assert(events[events.len() - 1] is Ended);
        }
    }
}

/// A transfer finishes only with a file that is as expected: one that was read and has the
/// expected digest, or, where no digest is expected, one of which every byte that arrived has
/// been written and put to disk, after the response ended or was read as far as is needed.
pub proof fn law_finished_stream_is_as_expected(
    ds: Seq<HttpDownload>,
    ts: Seq<StreamTransfer>,
    events: Seq<StreamEvent>,
    steps: Seq<StreamStep>,
)
    requires
        stream_run(ds, ts, events, steps),
        ts[0].stage is CheckingFile || ts[0].stage is OpeningFile,
        ts[0].total_read == 0,
        events.len() > 0,
        steps.last().action is Finish,
    ensures
        ({
            let conf = ds.last().conf;
            ||| events.last() matches StreamEvent::FileRead(file) && has_digest(
                ts.last().path@,
                file,
                conf.file_md5@,
            )
            ||| {
                &&& conf.file_md5@.len() == 0
                &&& conf.download_len == ds[0].conf.download_len + portions_total(events)
                &&& events.last() is Flushed
                &&& response_read(events, ts.last())
            }
        }),
{
    let n = events.len() - 1;
    lemma_stream_front(ds, ts, events, steps);
    law_stream_writes_what_arrives(ds, ts, events, steps);
    assert(ds.drop_last().last() == ds[n]);
    assert(ts.drop_last().last() == ts[n]);
    if events.last() is Flushed {
        lemma_flushed_response_is_read(
            ds.drop_last(),
            ts.drop_last(),
            events.drop_last(),
            steps.drop_last(),
        );
        if !read_enough(ts[n]) {
            let i = choose|i: int|
                0 <= i < events.drop_last().len() && #[trigger] events.drop_last()[i] is Ended;
            assert(events[i] is Ended);
        }
    }
}

/// A transfer keeps its file and its status file.
pub proof fn law_stream_keeps_its_files(
    ds: Seq<HttpDownload>,
    ts: Seq<StreamTransfer>,
    events: Seq<StreamEvent>,
    steps: Seq<StreamStep>,
)
    requires
        stream_run(ds, ts, events, steps),
    ensures
        ts.last().path == ts[0].path,
        ts.last().status_path == ts[0].status_path,
    decreases events.len(),
{
    if events.len() > 0 {
        lemma_stream_front(ds, ts, events, steps);
        law_stream_keeps_its_files(
            ds.drop_last(),
            ts.drop_last(),
            events.drop_last(),
            steps.drop_last(),
        );
        assert(ts.drop_last().last() == ts[events.len() - 1]);
    }
}

/// A response is read on exactly as long as bytes are missing: a transfer stops reading only when
/// the response has ended or as many bytes have arrived as it announced, or, where it announced no
/// length, with an empty portion; and it goes on only while neither holds.
pub proof fn law_response_is_read_out(
    ds: Seq<HttpDownload>,
    ts: Seq<StreamTransfer>,
    events: Seq<StreamEvent>,
    steps: Seq<StreamStep>,
)
    requires
        stream_run(ds, ts, events, steps),
        ts[0].stage is CheckingFile || ts[0].stage is OpeningFile,
        ts[0].total_read == 0,
        events.len() > 0,
    ensures
        steps.last().action is Flush && events.last() !is Ended ==> match ts.last().expected {
            Some(length) => portions_total(events) >= length,
            None => events.last() == StreamEvent::Portion(0),
        },
        steps.last().action is Next && events.last() !is Response ==> match ts.last().expected {
            Some(length) => portions_total(events) < length,
            None => ts.last().last > 0,
        },
        events.last() is Ended ==> steps.last().action is Flush,
{
    lemma_stream_front(ds, ts, events, steps);
    let n = events.len() - 1;
    law_stream_stays_in_order(ds, ts, events, steps, ds[0].conf.download_len as nat);
    law_stream_stays_in_order(
        ds.drop_last(),
        ts.drop_last(),
        events.drop_last(),
        steps.drop_last(),
        ds[0].conf.download_len as nat,
    );
    assert(ds.drop_last().last() == ds[n]);
    assert(ts.drop_last().last() == ts[n]);
}

/// What is put to disk after a response that announced its length, and did not end early, is at
/// least that many bytes.
proof fn lemma_flushed_length(
    ds: Seq<HttpDownload>,
    ts: Seq<StreamTransfer>,
    events: Seq<StreamEvent>,
    steps: Seq<StreamStep>,
)
    requires
        stream_run(ds, ts, events, steps),
        ts[0].stage is CheckingFile || ts[0].stage is OpeningFile,
        ts[0].total_read == 0,
        ts.last().stage is Flushing || ts.last().stage is Verifying,
        forall|i: int| 0 <= i < events.len() ==> #[trigger] events[i] !is Ended,
    ensures
        ts.last().expected matches Some(length) ==> portions_total(events) >= length,
    decreases events.len(),
{
    if events.len() > 0 {
        let n = events.len() - 1;
        lemma_stream_front(ds, ts, events, steps);
        assert(events[n] !is Ended);
        assert(ts.drop_last().last() == ts[n]);
        if ts.last().stage is Flushing {
            law_response_is_read_out(ds, ts, events, steps);
        } else {
            let front = events.drop_last();
            assert forall|i: int| 0 <= i < front.len() implies #[trigger] front[i] !is Ended by {
                assert(front[i] == events[i]);
            }
            lemma_flushed_length(ds.drop_last(), ts.drop_last(), front, steps.drop_last());
        }
    }
}

/// A transfer whose response announced a length and did not end early finishes, unless it finds the
/// file there already, only after at least that many bytes have arrived.
pub proof fn law_finished_stream_has_the_announced_length(
    ds: Seq<HttpDownload>,
    ts: Seq<StreamTransfer>,
    events: Seq<StreamEvent>,
    steps: Seq<StreamStep>,
)
    requires
        stream_run(ds, ts, events, steps),
        ts[0].stage is CheckingFile || ts[0].stage is OpeningFile,
        ts[0].total_read == 0,
        events.len() > 0,
        steps.last().action is Finish,
        ts[events.len() - 1].stage !is CheckingFile,
        forall|i: int| 0 <= i < events.len() ==> #[trigger] events[i] !is Ended,
    ensures
        ts.last().expected matches Some(length) ==> portions_total(events) >= length,
{
    let n = events.len() - 1;
    let front = events.drop_last();
    lemma_stream_front(ds, ts, events, steps);
    assert(ts.drop_last().last() == ts[n]);
    assert forall|i: int| 0 <= i < front.len() implies #[trigger] front[i] !is Ended by {
        assert(front[i] == events[i]);
    }
    lemma_flushed_length(ds.drop_last(), ts.drop_last(), front, steps.drop_last());
}

/// The length that a response announces is the number in the first value of its `Content-Length`
/// header, which must be visible; a response without that header announces none.
pub proof fn law_announced_length_is_the_number(fields: Map<Seq<char>, Seq<Seq<u8>>>)
    ensures
        !fields.contains_key("content-length"@) ==> response_length(fields) == Ok::<
            Option<nat>,
            Error,
        >(None),
        fields.contains_key("content-length"@) ==> ({
            let value = fields["content-length"@][0];
            response_length(fields) == (if visible_text(value) is None {
                Err::<Option<nat>, Error>(Error::HeaderNotText)
            } else {
                match number(value, usize::MAX as nat) {
                    Ok(length) => Ok(Some(length)),
                    Err(e) => Err(Error::LengthInvalid(e)),
                }
            })
        }),
{
}

/// A portion is added to what has been read and, unless it is empty, written, where the file is
/// open; an empty one is not.
pub proof fn law_portion_is_written(
    d0: HttpDownload,
    t0: StreamTransfer,
    event: StreamEvent,
    d1: HttpDownload,
    t1: StreamTransfer,
    step: StreamStep,
)
    requires
        stream_accepts(d0, t0, event),
        stream_stepped(d0, t0, event, d1, t1, step),
    ensures
        event matches StreamEvent::Portion(length) ==> {
            &&& t1.total_read == t0.total_read + length
            &&& t1.last == length
            &&& length > 0 && d0.file_open ==> t1.stage is Writing && step.action is Write
            &&& length > 0 && !d0.file_open ==> t1.stage is Done && step.action
                == StreamAction::Fail(Error::FileNotOpen)
            &&& length == 0 ==> step.action is Next || step.action is Flush
        },
        event !is Portion ==> t1.total_read == t0.total_read && t1.last == t0.last,
        step.action is Write ==> event is Portion,
        event is Written ==> d1.conf.download_len == d0.conf.download_len + t0.last
            && t1.stage is Measuring,
        event !is Written ==> d1.conf.download_len == d0.conf.download_len,
{
}

/// After each portion a transfer reads on exactly while less has been read than was announced, or,
/// where nothing was announced, while the portion was not empty.
pub proof fn law_reading_goes_on_while_bytes_are_missing(
    d0: HttpDownload,
    t0: StreamTransfer,
    event: StreamEvent,
    d1: HttpDownload,
    t1: StreamTransfer,
    step: StreamStep,
)
    requires
        stream_accepts(d0, t0, event),
        stream_stepped(d0, t0, event, d1, t1, step),
    ensures
        event is Measured || event == StreamEvent::Portion(0) ==> ({
            let missing = match t1.expected {
                Some(length) => t1.total_read < length,
                None => t1.last > 0,
            };
            &&& missing ==> t1.stage is Streaming && step.action is Next
            &&& !missing ==> t1.stage is Flushing && step.action is Flush
        }),
        event is Ended ==> t1.stage is Flushing && step.action is Flush,
        step.action is Flush <==> t1.stage is Flushing,
{
}

/// A file that already has the expected digest is not requested; another one is, where there is an
/// address. A file for which a digest is expected is read back once it is on disk, and must have
/// it.
pub proof fn law_digest_decides_over_the_stream(
    d0: HttpDownload,
    t0: StreamTransfer,
    event: StreamEvent,
    d1: HttpDownload,
    t1: StreamTransfer,
    step: StreamStep,
)
    requires
        stream_accepts(d0, t0, event),
        stream_stepped(d0, t0, event, d1, t1, step),
    ensures
        t0.stage is CheckingFile ==> (event matches StreamEvent::FileRead(file) && {
            let there = has_digest(t0.path@, file, d0.conf.file_md5@);
            &&& there ==> t1.stage is Done && step.action is Finish
            &&& !there ==> t1.stage is OpeningFile && step.action is OpenFile
        }),
        t0.stage is OpeningFile ==> event is Opened && d1.file_open && {
            &&& d0.conf.url is Some ==> t1.stage is Requesting && step.action is Request
            &&& d0.conf.url is None ==> t1.stage is Done && step.action == StreamAction::Fail(
                Error::AddressMissing,
            )
        },
        t0.stage is Flushing ==> event is Flushed && {
            &&& d0.conf.file_md5@.len() == 0 ==> t1.stage is Done && step.action is Finish
            &&& d0.conf.file_md5@.len() > 0 ==> t1.stage is Verifying && step.action is ReadFile
        },
        t0.stage is Verifying ==> (event matches StreamEvent::FileRead(file) && {
            let right = has_digest(t0.path@, file, d0.conf.file_md5@);
            &&& t1.stage is Done
            &&& right ==> step.action is Finish
            &&& !right ==> step.action == StreamAction::Fail(Error::DigestMismatch)
        }),
        step.action is Finish ==> t0.stage is CheckingFile || t0.stage is Flushing
            || t0.stage is Verifying,
{
}

/// A response is read from where its length is known, or not at all where its length is wrong.
pub proof fn law_response_begins_with_its_length(
    d0: HttpDownload,
    t0: StreamTransfer,
    event: StreamEvent,
    d1: HttpDownload,
    t1: StreamTransfer,
    step: StreamStep,
)
    requires
        stream_accepts(d0, t0, event),
        stream_stepped(d0, t0, event, d1, t1, step),
    ensures
        event matches StreamEvent::Response(headers) ==> match response_length(
            header_fields(headers),
        ) {
            Err(e) => t1.stage is Done && step.action == StreamAction::Fail(e),
            Ok(None) => t1.stage is Streaming && step.action is Next && t1.expected is None,
            Ok(Some(length)) => t1.stage is Streaming && step.action is Next && t1.expected is Some
                && t1.expected->Some_0 == length,
        },
        event !is Response ==> t1.expected == t0.expected,
{
}

/// The progress changes only when the share of what is written has been measured, and is reported
/// exactly where it changes; and a step changes nothing of the download but that, the length
/// written and that its file is open.
pub proof fn law_stream_progress_follows_the_length(
    d0: HttpDownload,
    t0: StreamTransfer,
    event: StreamEvent,
    d1: HttpDownload,
    t1: StreamTransfer,
    step: StreamStep,
)
    requires
        stream_accepts(d0, t0, event),
        stream_stepped(d0, t0, event, d1, t1, step),
    ensures
        event matches StreamEvent::Measured(ratio) ==> d1.conf.progress == percent(
            d0.conf.content_len,
            d0.conf.download_len,
            ratio,
        ),
        event !is Measured ==> d1.conf.progress == d0.conf.progress,
        step.notify == (if d1.conf.progress == d0.conf.progress {
            None
        } else {
            Some(d1.conf.progress)
        }),
        step.action matches StreamAction::Measure { done, total } ==> done == d1.conf.download_len
            && total == d1.conf.content_len,
        t1.stage is Measuring <==> step.action is Measure,
        d1 == (HttpDownload {
            conf: (Config {
                download_len: d1.conf.download_len,
                progress: d1.conf.progress,
                ..d0.conf
            }),
            file_open: d1.file_open,
            ..d0
        }),
        d1.file_open == (d0.file_open || t0.stage is OpeningFile),
        t1.path == t0.path,
        t1.status_path == t0.status_path,
        t1.stage is Done <==> step.action is Finish || step.action is Fail,
{
}

/// In every stage the event that it waits for is accepted, as long as the numbers stay within their
/// bounds, and no other is.
pub proof fn law_awaited_stream_event_is_accepted(
    d: HttpDownload,
    t: StreamTransfer,
    file: FileRead,
    headers: HeaderMap,
    length: usize,
    ratio: u8,
)
    ensures
        stream_accepts(d, t, StreamEvent::FileRead(file)) <==> t.stage is CheckingFile
            || t.stage is Verifying,
        stream_accepts(d, t, StreamEvent::Opened) <==> t.stage is OpeningFile,
        stream_accepts(d, t, StreamEvent::Response(headers)) <==> t.stage is Requesting,
        stream_accepts(d, t, StreamEvent::Portion(length)) <==> t.stage is Streaming && t.total_read
            + length <= usize::MAX,
        stream_accepts(d, t, StreamEvent::Ended) <==> t.stage is Streaming,
        stream_accepts(d, t, StreamEvent::Written) <==> t.stage is Writing && d.conf.download_len
            + t.last <= u64::MAX,
        stream_accepts(d, t, StreamEvent::Measured(ratio)) <==> t.stage is Measuring,
        stream_accepts(d, t, StreamEvent::Flushed) <==> t.stage is Flushing,
{
}

} // verus!
