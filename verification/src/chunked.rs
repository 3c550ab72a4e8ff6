//! The transfer of a file in ranges, as a sequence of decisions: the library is told what
//! happened and says what to do next.
use crate::config::Config;
use crate::digest::{compari_file_md5, has_digest, FileRead};
use crate::error::Error;
use crate::http::{
    news, percent, plan_from_status, progressed, resumable, resume_plan, status_name,
    with_written, HttpDownload,
};
use crate::order::by_offset;
use crate::paths::file_path_is;
use crate::ranges::{
    as_nats, law_pieces_of_full_length_cover_the_file, law_resume_requests_what_is_missing,
    lemma_pieces_front, pieces_of, recorded, requested, resume_ranges, separate, ByteRange,
};
use crate::status::{
    ends_with_line, format_status_line, law_recorded_piece_is_read_back, line_records, lines,
    lines_readable, status_line, total_bytes, Record, StatusError,
};
use crate::worker::{
    fresh_on, handed_out, law_workers_hand_out_pieces_of_the_file, within_ranges, ChunkWorker,
    Delivery,
};
use vstd::prelude::*;

verus! {

/// What a transfer in ranges waits for.
#[derive(Clone, Copy, Debug, PartialEq, Eq, Structural)]
pub enum ChunkStage {
    /// For the file that may be there already.
    CheckingFile,
    OpeningStatus,
    ReadingStatus,
    /// For the share of the file that was there already.
    MeasuringResume,
    OpeningFile,
    /// For the workers to be started.
    Starting,
    /// For the next piece.
    Receiving,
    /// For a piece to be written.
    Writing,
    /// For a written piece to be recorded.
    Recording,
    /// For the share of the file that is written.
    Measuring,
    /// For word of a worker that failed.
    Polling,
    /// For a worker to end.
    Joining,
    /// For the finished file.
    Verifying,
    /// For nothing: the transfer is over.
    Done,
}

/// What happened.
#[derive(Debug, PartialEq, Eq)]
pub enum ChunkEvent {
    /// Reading the file gave this.
    FileRead(FileRead),
    /// The file was opened.
    Opened,
    /// The status file holds these bytes.
    StatusRead(Vec<u8>),
    /// This is the share of the file that is written, in percent, rounded up.
    Measured(u8),
    /// The workers were started.
    Started,
    /// A piece of that many bytes, which belongs at that offset, arrived.
    Data { byte_count: u64, offset: u64 },
    /// The piece was written and put to disk.
    Written,
    /// The line was written to the status file and put to disk.
    Recorded,
    /// A worker failed and left this range.
    Failed(ByteRange),
    /// No worker failed.
    NoneFailed,
    /// A worker has ended, or none was left.
    Joined,
}

/// What to do next.
#[derive(Debug, PartialEq, Eq)]
pub enum ChunkAction {
    /// Read the file, with all that was written to it.
    ReadFile,
    /// Open the status file, keeping what it holds.
    OpenStatus,
    /// Read the status file.
    ReadStatus,
    /// Compute which share of `total` is `done`.
    Measure { done: u64, total: u64 },
    /// Open the file, for appending or not. What it holds is kept.
    OpenFile { append: bool },
    /// Start a worker for each of the ranges.
    Start,
    /// Wait for a piece.
    Receive,
    /// Seek to that offset in the file, write the piece and put it to disk.
    Write { offset: u64 },
    /// Write the line to the status file and put it to disk.
    Record { line: Vec<u8> },
    /// Ask whether a worker failed.
    Poll,
    /// Start a worker for this range.
    Restart { range: ByteRange },
    /// Put everything written to disk and fail.
    GiveUp(Error),
    /// Wait for one worker to end.
    Join,
    /// Finish.
    Finish,
    /// Fail.
    Fail(Error),
}

/// What to report, if anything, and what to do next.
#[derive(Debug, PartialEq, Eq)]
pub struct ChunkStep {
    /// The progress to report, in percent.
    pub notify: Option<u8>,
    pub action: ChunkAction,
}

/// A transfer in ranges: how far it has come.
#[derive(Debug, PartialEq, Eq)]
pub struct ChunkTransfer {
    pub stage: ChunkStage,
    /// The file.
    pub path: String,
    /// The status file.
    pub status_path: String,
    /// The ranges to request.
    pub ranges: Vec<ByteRange>,
    /// How many bytes have arrived, those that were there already included.
    pub count: u64,
    /// How many bytes are in the piece that arrived last.
    pub piece: u64,
    /// Where that piece belongs.
    pub offset: u64,
}

/// What follows when the file is not there yet.
pub open spec fn after_check(d: HttpDownload) -> (ChunkStage, ChunkAction) {
    if d.support_chunk {
        (ChunkStage::OpeningStatus, ChunkAction::OpenStatus)
    } else {
        (ChunkStage::Done, ChunkAction::Fail(Error::ChunksUnsupported))
    }
}

/// What follows when nothing is left to be done for the last piece: the transfer is complete
/// when as many bytes have arrived as the file has.
pub open spec fn after_piece(d: HttpDownload, count: u64) -> (ChunkStage, ChunkAction) {
    if count == d.conf.content_len {
        (ChunkStage::Joining, ChunkAction::Join)
    } else {
        (ChunkStage::Receiving, ChunkAction::Receive)
    }
}

/// What follows when the transfer is complete: the digest is checked where one is expected.
pub open spec fn after_join(d: HttpDownload) -> (ChunkStage, ChunkAction) {
    if d.conf.file_md5@.len() == 0 {
        (ChunkStage::Done, ChunkAction::Finish)
    } else {
        (ChunkStage::Verifying, ChunkAction::ReadFile)
    }
}

/// The transfer only moves to another stage, and that action is called for.
pub open spec fn moves(
    t0: ChunkTransfer,
    t1: ChunkTransfer,
    step: ChunkStep,
    next: (ChunkStage, ChunkAction),
) -> bool {
    &&& t1 == ChunkTransfer { stage: next.0, ..t0 }
    &&& step.action == next.1
}

/// The event can happen in this stage, and the numbers that it leads to stay in bounds.
pub open spec fn chunk_accepts(d: HttpDownload, t: ChunkTransfer, event: ChunkEvent) -> bool {
    match (t.stage, event) {
        (ChunkStage::CheckingFile, ChunkEvent::FileRead(_)) => true,
        (ChunkStage::OpeningStatus, ChunkEvent::Opened) => true,
        (ChunkStage::ReadingStatus, ChunkEvent::StatusRead(content)) => d.status_open
            ==> resumable(content@, d.conf.content_len as nat, d.conf.chunk_size as nat),
        (ChunkStage::MeasuringResume, ChunkEvent::Measured(_)) => true,
        (ChunkStage::OpeningFile, ChunkEvent::Opened) => true,
        (ChunkStage::Starting, ChunkEvent::Started) => true,
        (ChunkStage::Receiving, ChunkEvent::Data { byte_count, offset }) => t.count + byte_count
            <= u64::MAX,
        (ChunkStage::Writing, ChunkEvent::Written) => d.status_open || d.conf.download_len
            + t.piece <= u64::MAX,
        (ChunkStage::Recording, ChunkEvent::Recorded) => d.conf.download_len + t.piece <= u64::MAX,
        (ChunkStage::Measuring, ChunkEvent::Measured(_)) => true,
        (ChunkStage::Polling, ChunkEvent::NoneFailed) => true,
        (ChunkStage::Polling, ChunkEvent::Failed(_)) => d.retries <= d.conf.max_retries
            ==> d.retries < u8::MAX,
        (ChunkStage::Joining, ChunkEvent::Joined) => true,
        (ChunkStage::Verifying, ChunkEvent::FileRead(_)) => true,
        _ => false,
    }
}

/// What a step of the transfer does: from the download `d0` and the transfer `t0`, the event
/// leads to `d1`, `t1` and `step`.
pub open spec fn chunk_stepped(
    d0: HttpDownload,
    t0: ChunkTransfer,
    event: ChunkEvent,
    d1: HttpDownload,
    t1: ChunkTransfer,
    step: ChunkStep,
) -> bool {
    match (t0.stage, event) {
        (ChunkStage::CheckingFile, ChunkEvent::FileRead(file)) => {
            &&& d1 == d0
            &&& step.notify is None
            &&& moves(
                t0,
                t1,
                step,
                if has_digest(t0.path@, file, d0.conf.file_md5@) {
                    (ChunkStage::Done, ChunkAction::Finish)
                } else {
                    after_check(d0)
                },
            )
        },
        (ChunkStage::OpeningStatus, ChunkEvent::Opened) => {
            &&& d1 == HttpDownload { status_open: true, ..d0 }
            &&& step.notify is None
            &&& moves(t0, t1, step, (ChunkStage::ReadingStatus, ChunkAction::ReadStatus))
        },
        (ChunkStage::ReadingStatus, ChunkEvent::StatusRead(content)) => {
            &&& step.notify is None
            &&& status_stepped(
                d0,
                t0,
                resume_plan(content@, d0.conf.content_len as nat, d0.conf.chunk_size as nat),
                d1,
                t1,
                step,
            )
        },
        (ChunkStage::MeasuringResume, ChunkEvent::Measured(ratio)) => {
            &&& d1 == progressed(d0, ratio)
            &&& step.notify == news(d0, ratio)
            &&& moves(
                t0,
                t1,
                step,
                (ChunkStage::OpeningFile, ChunkAction::OpenFile { append: true }),
            )
        },
        (ChunkStage::OpeningFile, ChunkEvent::Opened) => {
            &&& d1 == HttpDownload { file_open: true, ..d0 }
            &&& step.notify is None
            &&& moves(
                t0,
                t1,
                step,
                if d0.conf.url is None {
                    (ChunkStage::Done, ChunkAction::Fail(Error::AddressMissing))
                } else {
                    (ChunkStage::Starting, ChunkAction::Start)
                },
            )
        },
        (ChunkStage::Starting, ChunkEvent::Started) => {
            &&& d1 == d0
            &&& step.notify is None
            &&& moves(t0, t1, step, after_piece(d0, t0.count))
        },
        (ChunkStage::Receiving, ChunkEvent::Data { byte_count, offset }) => {
            &&& d1 == d0
            &&& step.notify is None
            &&& t1 == ChunkTransfer {
                stage: if d0.file_open {
                    ChunkStage::Writing
                } else {
                    ChunkStage::Done
                },
                count: (t0.count + byte_count) as u64,
                piece: byte_count,
                offset,
                ..t0
            }
            &&& if d0.file_open {
                step.action == ChunkAction::Write { offset }
            } else {
                step.action == ChunkAction::Fail(Error::FileNotOpen)
            }
        },
        (ChunkStage::Writing, ChunkEvent::Written) => if d0.status_open {
            &&& d1 == d0
            &&& step.notify is None
            &&& t1 == ChunkTransfer { stage: ChunkStage::Recording, ..t0 }
            &&& step.action matches ChunkAction::Record { line } && line@ == status_line(
                t0.piece as nat,
                t0.offset as nat,
            )
        } else {
            counted(d0, t0, d1, t1, step)
        },
        (ChunkStage::Recording, ChunkEvent::Recorded) => counted(d0, t0, d1, t1, step),
        (ChunkStage::Measuring, ChunkEvent::Measured(ratio)) => {
            &&& d1 == progressed(d0, ratio)
            &&& step.notify == news(d0, ratio)
            &&& moves(t0, t1, step, (ChunkStage::Polling, ChunkAction::Poll))
        },
        (ChunkStage::Polling, ChunkEvent::NoneFailed) => {
            &&& d1 == d0
            &&& step.notify is None
            &&& moves(t0, t1, step, after_piece(d0, t0.count))
        },
        (ChunkStage::Polling, ChunkEvent::Failed(range)) => {
            &&& step.notify is None
            &&& if d0.retries > d0.conf.max_retries {
                &&& d1 == d0
                &&& moves(
                    t0,
                    t1,
                    step,
                    (ChunkStage::Done, ChunkAction::GiveUp(Error::MaxRetries)),
                )
            } else {
                &&& d1 == HttpDownload { retries: (d0.retries + 1) as u8, ..d0 }
                &&& moves(t0, t1, step, (ChunkStage::Starting, ChunkAction::Restart { range }))
            }
        },
        (ChunkStage::Joining, ChunkEvent::Joined) => {
            &&& d1 == d0
            &&& step.notify is None
            &&& moves(t0, t1, step, after_join(d0))
        },
        (ChunkStage::Verifying, ChunkEvent::FileRead(file)) => {
            &&& d1 == d0
            &&& step.notify is None
            &&& moves(
                t0,
                t1,
                step,
                if has_digest(t0.path@, file, d0.conf.file_md5@) {
                    (ChunkStage::Done, ChunkAction::Finish)
                } else {
                    (ChunkStage::Done, ChunkAction::Fail(Error::DigestMismatch))
                },
            )
        },
        _ => false,
    }
}

/// What the step does that counts the piece as written.
pub open spec fn counted(
    d0: HttpDownload,
    t0: ChunkTransfer,
    d1: HttpDownload,
    t1: ChunkTransfer,
    step: ChunkStep,
) -> bool {
    let written = (d0.conf.download_len + t0.piece) as u64;
    &&& d1 == with_written(d0, written)
    &&& step.notify is None
    &&& moves(
        t0,
        t1,
        step,
        (
            ChunkStage::Measuring,
            ChunkAction::Measure { done: written, total: d0.conf.content_len },
        ),
    )
}

/// What the step does that is told what the status file holds: the transfer goes on from
/// what is recorded there.
pub open spec fn status_stepped(
    d0: HttpDownload,
    t0: ChunkTransfer,
    plan: Result<(Seq<(nat, nat)>, nat), StatusError>,
    d1: HttpDownload,
    t1: ChunkTransfer,
    step: ChunkStep,
) -> bool {
    if !d0.status_open {
        &&& d1 == d0
        &&& moves(t0, t1, step, (ChunkStage::Done, ChunkAction::Fail(Error::StatusNotOpen)))
    } else {
        match plan {
            Err(e) => {
                &&& d1 == d0
                &&& moves(
                    t0,
                    t1,
                    step,
                    (ChunkStage::Done, ChunkAction::Fail(Error::StatusInvalid(e))),
                )
            },
            Ok((ranges, already)) => {
                &&& as_nats(t1.ranges@) == ranges
                &&& t1.count == already
                &&& t1 == ChunkTransfer {
                    stage: if already > 0 {
                        ChunkStage::MeasuringResume
                    } else {
                        ChunkStage::OpeningFile
                    },
                    ranges: t1.ranges,
                    count: t1.count,
                    ..t0
                }
                &&& if already > 0 {
                    &&& d1 == with_written(d0, t1.count)
                    &&& step.action == ChunkAction::Measure {
                        done: t1.count,
                        total: d0.conf.content_len,
                    }
                } else {
                    &&& d1 == d0
                    &&& step.action == ChunkAction::OpenFile { append: false }
                }
            },
        }
    }
}

impl HttpDownload {
    /// Begins a transfer in ranges.
    pub fn chunk_download(&self) -> (r: (ChunkTransfer, ChunkAction))
        ensures
            file_path_is(self.conf.save_dir@, self.filename@, r.0.path@),
            file_path_is(self.conf.save_dir@, status_name(self.filename@), r.0.status_path@),
            r.0.ranges@ == Seq::<ByteRange>::empty(),
            r.0.count == 0,
            r.0.piece == 0,
            r.0.offset == 0,
            (r.0.stage, r.1) == (if self.conf.file_md5@.len() > 0 {
                (ChunkStage::CheckingFile, ChunkAction::ReadFile)
            } else {
                after_check(*self)
            }),
            ready(*self, r.0),
            on_course(*self, r.0),
            self.conf.download_len == 0 && self.retries <= self.conf.max_retries + 1
                && self.conf.progress <= 100 ==> in_order(*self, r.0),
    {
        let path = self.get_file_path(self.filename.as_str());
        let status_path = self.status_path();
        let (stage, action) = if !self.conf.file_md5.as_str().is_empty() {
            (ChunkStage::CheckingFile, ChunkAction::ReadFile)
        } else {
            self.decide_after_check()
        };
        (
            ChunkTransfer {
                stage,
                path,
                status_path,
                ranges: Vec::new(),
                count: 0,
                piece: 0,
                offset: 0,
            },
            action,
        )
    }

    fn decide_after_check(&self) -> (r: (ChunkStage, ChunkAction))
        ensures
            r == after_check(*self),
    {
        if self.support_chunk {
            (ChunkStage::OpeningStatus, ChunkAction::OpenStatus)
        } else {
            (ChunkStage::Done, ChunkAction::Fail(Error::ChunksUnsupported))
        }
    }

    fn decide_after_piece(&self, count: u64) -> (r: (ChunkStage, ChunkAction))
        ensures
            r == after_piece(*self, count),
    {
        if count == self.conf.content_len {
            (ChunkStage::Joining, ChunkAction::Join)
        } else {
            (ChunkStage::Receiving, ChunkAction::Receive)
        }
    }

    fn decide_after_join(&self) -> (r: (ChunkStage, ChunkAction))
        ensures
            r == after_join(*self),
    {
        if self.conf.file_md5.as_str().is_empty() {
            (ChunkStage::Done, ChunkAction::Finish)
        } else {
            (ChunkStage::Verifying, ChunkAction::ReadFile)
        }
    }

    fn count_piece(&mut self, piece: u64) -> (r: (ChunkStage, ChunkAction))
        requires
            old(self).conf.download_len + piece <= u64::MAX,
        ensures
            *final(self) == with_written(
                *old(self),
                (old(self).conf.download_len + piece) as u64,
            ),
            r == (
                ChunkStage::Measuring,
                ChunkAction::Measure {
                    done: final(self).conf.download_len,
                    total: old(self).conf.content_len,
                },
            ),
    {
        self.conf.download_len = self.conf.download_len + piece;
        (
            ChunkStage::Measuring,
            ChunkAction::Measure {
                done: self.conf.download_len,
                total: self.conf.content_len,
            },
        )
    }

    /// Whether a step of the transfer can be taken on this event.
    pub fn chunk_ready(&self, transfer: &ChunkTransfer, event: &ChunkEvent) -> (r: bool)
        ensures
            r == chunk_accepts(*self, *transfer, *event),
    {
        match (transfer.stage, event) {
            (ChunkStage::CheckingFile, ChunkEvent::FileRead(_)) => true,
            (ChunkStage::OpeningStatus, ChunkEvent::Opened) => true,
            (ChunkStage::ReadingStatus, ChunkEvent::StatusRead(content)) => !self.status_open
                || plan_from_status(
                content.as_slice(),
                self.conf.content_len,
                self.conf.chunk_size,
            ).is_some(),
            (ChunkStage::MeasuringResume, ChunkEvent::Measured(_)) => true,
            (ChunkStage::OpeningFile, ChunkEvent::Opened) => true,
            (ChunkStage::Starting, ChunkEvent::Started) => true,
            (ChunkStage::Receiving, ChunkEvent::Data { byte_count, offset: _ }) => *byte_count
                <= u64::MAX - transfer.count,
            (ChunkStage::Writing, ChunkEvent::Written) => self.status_open || transfer.piece
                <= u64::MAX - self.conf.download_len,
            (ChunkStage::Recording, ChunkEvent::Recorded) => transfer.piece <= u64::MAX
                - self.conf.download_len,
            (ChunkStage::Measuring, ChunkEvent::Measured(_)) => true,
            (ChunkStage::Polling, ChunkEvent::NoneFailed) => true,
            (ChunkStage::Polling, ChunkEvent::Failed(_)) => self.retries > self.conf.max_retries
                || self.retries < u8::MAX,
            (ChunkStage::Joining, ChunkEvent::Joined) => true,
            (ChunkStage::Verifying, ChunkEvent::FileRead(_)) => true,
            _ => false,
        }
    }

    /// Takes one step of a transfer in ranges: what to do after what happened.
    pub fn chunk_step(&mut self, transfer: &mut ChunkTransfer, event: ChunkEvent) -> (r: ChunkStep)
        requires
            chunk_accepts(*old(self), *old(transfer), event),
        ensures
            chunk_stepped(*old(self), *old(transfer), event, *final(self), *final(transfer), r),
    {
        let mut notify: Option<u8> = None;
        let (stage, action) = match (transfer.stage, event) {
            (ChunkStage::CheckingFile, ChunkEvent::FileRead(file)) => {
                if compari_file_md5(transfer.path.as_str(), file, self.conf.file_md5.as_str()) {
                    (ChunkStage::Done, ChunkAction::Finish)
                } else {
                    self.decide_after_check()
                }
            },
            (ChunkStage::OpeningStatus, ChunkEvent::Opened) => {
                self.status_open = true;
                (ChunkStage::ReadingStatus, ChunkAction::ReadStatus)
            },
            (ChunkStage::ReadingStatus, ChunkEvent::StatusRead(content)) => {
                match self.get_resume_chunk_offsets(content.as_slice()) {
                    Err(e) => (ChunkStage::Done, ChunkAction::Fail(e)),
                    Ok((ranges, already)) => {
                        transfer.ranges = ranges;
                        transfer.count = already;
                        if already > 0 {
                            self.conf.download_len = already;
                            (
                                ChunkStage::MeasuringResume,
                                ChunkAction::Measure {
                                    done: already,
                                    total: self.conf.content_len,
                                },
                            )
                        } else {
                            (ChunkStage::OpeningFile, ChunkAction::OpenFile { append: false })
                        }
                    },
                }
            },
            (ChunkStage::MeasuringResume, ChunkEvent::Measured(ratio)) => {
                notify = self.on_progress(ratio);
                (ChunkStage::OpeningFile, ChunkAction::OpenFile { append: true })
            },
            (ChunkStage::OpeningFile, ChunkEvent::Opened) => {
                self.file_open = true;
                if self.conf.url.is_none() {
                    (ChunkStage::Done, ChunkAction::Fail(Error::AddressMissing))
                } else {
                    (ChunkStage::Starting, ChunkAction::Start)
                }
            },
            (ChunkStage::Starting, ChunkEvent::Started) => self.decide_after_piece(transfer.count),
            (ChunkStage::Receiving, ChunkEvent::Data { byte_count, offset }) => {
                transfer.count = transfer.count + byte_count;
                transfer.piece = byte_count;
                transfer.offset = offset;
                if !self.file_open {
                    (ChunkStage::Done, ChunkAction::Fail(Error::FileNotOpen))
                } else {
                    (ChunkStage::Writing, ChunkAction::Write { offset })
                }
            },
            (ChunkStage::Writing, ChunkEvent::Written) => {
                if self.status_open {
                    let line = format_status_line(transfer.piece, transfer.offset);
                    (ChunkStage::Recording, ChunkAction::Record { line })
                } else {
                    self.count_piece(transfer.piece)
                }
            },
            (ChunkStage::Recording, ChunkEvent::Recorded) => self.count_piece(transfer.piece),
            (ChunkStage::Measuring, ChunkEvent::Measured(ratio)) => {
                notify = self.on_progress(ratio);
                (ChunkStage::Polling, ChunkAction::Poll)
            },
            (ChunkStage::Polling, ChunkEvent::NoneFailed) => self.decide_after_piece(
                transfer.count,
            ),
            (ChunkStage::Polling, ChunkEvent::Failed(range)) => {
                if self.retries > self.conf.max_retries {
                    (ChunkStage::Done, ChunkAction::GiveUp(Error::MaxRetries))
                } else {
                    self.retries = self.retries + 1;
                    (ChunkStage::Starting, ChunkAction::Restart { range })
                }
            },
            (ChunkStage::Joining, ChunkEvent::Joined) => self.decide_after_join(),
            (ChunkStage::Verifying, ChunkEvent::FileRead(file)) => {
                if compari_file_md5(transfer.path.as_str(), file, self.conf.file_md5.as_str()) {
                    (ChunkStage::Done, ChunkAction::Finish)
                } else {
                    (ChunkStage::Done, ChunkAction::Fail(Error::DigestMismatch))
                }
            },
            _ => {
                assert(false);
                (ChunkStage::Done, ChunkAction::GiveUp(Error::MaxRetries))
            },
        };
        transfer.stage = stage;
        ChunkStep { notify, action }
    }
}

/// How many bytes have arrived that are not counted as written yet.
pub open spec fn uncounted(t: ChunkTransfer) -> nat {
    if t.stage is Writing || t.stage is Recording {
        t.piece as nat
    } else {
        0
    }
}

/// How many bytes have arrived whose piece is not written yet.
pub open spec fn unwritten(t: ChunkTransfer) -> nat {
    if t.stage is Writing {
        t.piece as nat
    } else {
        0
    }
}

/// The files are open when they are needed, and all bytes have arrived when a worker is waited
/// for and after.
pub open spec fn ready(d: HttpDownload, t: ChunkTransfer) -> bool {
    match t.stage {
        ChunkStage::CheckingFile | ChunkStage::OpeningStatus | ChunkStage::Done => true,
        ChunkStage::ReadingStatus | ChunkStage::MeasuringResume | ChunkStage::OpeningFile =>
        d.status_open,
        ChunkStage::Joining | ChunkStage::Verifying => t.count == d.conf.content_len,
        _ => d.status_open && d.file_open,
    }
}

/// What holds of a download that begins with nothing written, and a transfer of it, in every
/// stage: it is ready; the length written is what has arrived and is counted; no more than one
/// range over the limit has been requested again; and the progress is a percentage.
pub open spec fn in_order(d: HttpDownload, t: ChunkTransfer) -> bool {
    &&& ready(d, t)
    &&& match t.stage {
        ChunkStage::CheckingFile
        | ChunkStage::OpeningStatus
        | ChunkStage::ReadingStatus => d.conf.download_len == 0,
        ChunkStage::Done => true,
        _ => d.conf.download_len + uncounted(t) == t.count,
    }
    &&& d.retries <= d.conf.max_retries + 1
    &&& d.conf.progress <= 100
}

/// The status file has been read.
pub open spec fn past_status(stage: ChunkStage) -> bool {
    !(stage is CheckingFile || stage is OpeningStatus || stage is ReadingStatus)
}

/// Once the status file has been read, no less is written than has arrived and is counted, and
/// the progress is full when all bytes have arrived, unless it is still to be measured.
pub open spec fn on_course(d: HttpDownload, t: ChunkTransfer) -> bool {
    past_status(t.stage) && t.stage !is Done ==> {
        &&& d.conf.download_len + uncounted(t) >= t.count
        &&& {
            ||| t.stage is MeasuringResume
            ||| t.stage is Writing
            ||| t.stage is Recording
            ||| t.stage is Measuring
            ||| 0 < d.conf.content_len == t.count ==> d.conf.progress == 100
        }
    }
}

/// A transfer that goes from the states at one place of `ds` and `ts` to those at the next
/// by the event and the step at that place.
pub open spec fn chunk_run(
    ds: Seq<HttpDownload>,
    ts: Seq<ChunkTransfer>,
    events: Seq<ChunkEvent>,
    steps: Seq<ChunkStep>,
) -> bool {
    &&& ds.len() == events.len() + 1
    &&& ts.len() == events.len() + 1
    &&& steps.len() == events.len()
    &&& forall|i: int|
        0 <= i < events.len() ==> {
            &&& chunk_accepts(ds[i], ts[i], #[trigger] events[i])
            &&& chunk_stepped(ds[i], ts[i], events[i], ds[i + 1], ts[i + 1], steps[i])
        }
}

proof fn lemma_run_front(
    ds: Seq<HttpDownload>,
    ts: Seq<ChunkTransfer>,
    events: Seq<ChunkEvent>,
    steps: Seq<ChunkStep>,
)
    requires
        chunk_run(ds, ts, events, steps),
        events.len() > 0,
    ensures
        chunk_run(ds.drop_last(), ts.drop_last(), events.drop_last(), steps.drop_last()),
        ds.drop_last().last() == ds[events.len() - 1],
        ts.drop_last().last() == ts[events.len() - 1],
        ds.drop_last()[0] == ds[0],
        ts.drop_last()[0] == ts[0],
        ({
            let n = events.len() - 1;
            &&& chunk_accepts(ds[n], ts[n], events.last())
            &&& chunk_stepped(ds[n], ts[n], events.last(), ds.last(), ts.last(), steps.last())
        }),
{
    let n = events.len() - 1;
    assert(events[n] == events.last());
    let front = events.drop_last();
    assert forall|i: int| 0 <= i < front.len() implies {
        &&& chunk_accepts(ds.drop_last()[i], ts.drop_last()[i], #[trigger] front[i])
        &&& chunk_stepped(
            ds.drop_last()[i],
            ts.drop_last()[i],
            front[i],
            ds.drop_last()[i + 1],
            ts.drop_last()[i + 1],
            steps.drop_last()[i],
        )
    } by {
        assert(front[i] == events[i]);
    }
}

/// Every step of a transfer keeps it ready, in order and on course.
pub proof fn law_step_keeps_order(
    d0: HttpDownload,
    t0: ChunkTransfer,
    event: ChunkEvent,
    d1: HttpDownload,
    t1: ChunkTransfer,
    step: ChunkStep,
)
    requires
        chunk_accepts(d0, t0, event),
        chunk_stepped(d0, t0, event, d1, t1, step),
    ensures
        ready(d0, t0) ==> ready(d1, t1),
        in_order(d0, t0) ==> in_order(d1, t1),
        on_course(d0, t0) ==> on_course(d1, t1),
{
}

/// A transfer that begins ready, in order or on course stays so, whatever happens.
pub proof fn law_transfer_stays_in_order(
    ds: Seq<HttpDownload>,
    ts: Seq<ChunkTransfer>,
    events: Seq<ChunkEvent>,
    steps: Seq<ChunkStep>,
)
    requires
        chunk_run(ds, ts, events, steps),
    ensures
        ready(ds[0], ts[0]) ==> ready(ds.last(), ts.last()),
        in_order(ds[0], ts[0]) ==> in_order(ds.last(), ts.last()),
        on_course(ds[0], ts[0]) ==> on_course(ds.last(), ts.last()),
    decreases events.len(),
{
    if events.len() > 0 {
        lemma_run_front(ds, ts, events, steps);
        let n = events.len() - 1;
        law_transfer_stays_in_order(
            ds.drop_last(),
            ts.drop_last(),
            events.drop_last(),
            steps.drop_last(),
        );
        law_step_keeps_order(ds[n], ts[n], events.last(), ds.last(), ts.last(), steps.last());
    }
}

/// Once the status file has been read, the length written grows by exactly what arrives and is
/// counted, whatever it was before.
pub proof fn law_length_grows_with_what_arrives(
    ds: Seq<HttpDownload>,
    ts: Seq<ChunkTransfer>,
    events: Seq<ChunkEvent>,
    steps: Seq<ChunkStep>,
)
    requires
        chunk_run(ds, ts, events, steps),
        ready(ds[0], ts[0]),
        past_status(ts[0].stage),
    ensures
        past_status(ts.last().stage),
        (ds.last().conf.download_len + uncounted(ts.last())) - (ds[0].conf.download_len
            + uncounted(ts[0])) == ts.last().count - ts[0].count,
    decreases events.len(),
{
    if events.len() > 0 {
        lemma_run_front(ds, ts, events, steps);
        law_transfer_stays_in_order(
            ds.drop_last(),
            ts.drop_last(),
            events.drop_last(),
            steps.drop_last(),
        );
        law_length_grows_with_what_arrives(
            ds.drop_last(),
            ts.drop_last(),
            events.drop_last(),
            steps.drop_last(),
        );
    }
}

/// A transfer finishes only with a file that is as expected: one that was read and has the
/// expected digest, or, where no digest is expected, one of which as many bytes have arrived as
/// it has. A download that began with nothing written has then written them all.
pub proof fn law_finished_file_is_as_expected(
    ds: Seq<HttpDownload>,
    ts: Seq<ChunkTransfer>,
    events: Seq<ChunkEvent>,
    steps: Seq<ChunkStep>,
)
    requires
        chunk_run(ds, ts, events, steps),
        ready(ds[0], ts[0]),
        events.len() > 0,
        steps.last().action is Finish,
    ensures
        ({
            let conf = ds.last().conf;
            ||| events.last() matches ChunkEvent::FileRead(file) && has_digest(
                ts.last().path@,
                file,
                conf.file_md5@,
            )
            ||| {
                &&& conf.file_md5@.len() == 0
                &&& ts.last().count == conf.content_len
                &&& in_order(ds[0], ts[0]) ==> conf.download_len == conf.content_len
            }
        }),
{
    lemma_run_front(ds, ts, events, steps);
    law_transfer_stays_in_order(
        ds.drop_last(),
        ts.drop_last(),
        events.drop_last(),
        steps.drop_last(),
    );
}

/// A transfer that finishes after its workers, of a file with at least one byte, has full
/// progress.
pub proof fn law_finished_transfer_has_full_progress(
    ds: Seq<HttpDownload>,
    ts: Seq<ChunkTransfer>,
    events: Seq<ChunkEvent>,
    steps: Seq<ChunkStep>,
)
    requires
        chunk_run(ds, ts, events, steps),
        ready(ds[0], ts[0]),
        on_course(ds[0], ts[0]),
        events.len() > 0,
        steps.last().action is Finish,
        ts[events.len() - 1].stage !is CheckingFile,
        ds.last().conf.content_len > 0,
    ensures
        ds.last().conf.progress == 100,
{
    lemma_run_front(ds, ts, events, steps);
    law_transfer_stays_in_order(
        ds.drop_last(),
        ts.drop_last(),
        events.drop_last(),
        steps.drop_last(),
    );
}

/// A transfer starts to count with the bytes that the status file records.
pub proof fn law_transfer_counts_what_is_recorded(
    d0: HttpDownload,
    t0: ChunkTransfer,
    status: Vec<u8>,
    d1: HttpDownload,
    t1: ChunkTransfer,
    step: ChunkStep,
    records: Seq<Record>,
)
    requires
        ready(d0, t0),
        t0.stage is ReadingStatus,
        chunk_accepts(d0, t0, ChunkEvent::StatusRead(status)),
        chunk_stepped(d0, t0, ChunkEvent::StatusRead(status), d1, t1, step),
        line_records(lines(status@)) == Ok::<Seq<Record>, StatusError>(records),
    ensures
        ready(d1, t1),
        past_status(t1.stage),
        t1.stage !is Writing,
        lines_readable(lines(status@), 0),
        total_bytes(records) == t1.count,
        as_nats(t1.ranges@) == resume_ranges(
            by_offset(records),
            d0.conf.content_len as nat,
            d0.conf.chunk_size as nat,
        ),
{
}

/// A transfer keeps its file and its status file, and once the status file has been read its
/// ranges.
pub proof fn law_transfer_keeps_its_files(
    ds: Seq<HttpDownload>,
    ts: Seq<ChunkTransfer>,
    events: Seq<ChunkEvent>,
    steps: Seq<ChunkStep>,
)
    requires
        chunk_run(ds, ts, events, steps),
    ensures
        ts.last().path == ts[0].path,
        ts.last().status_path == ts[0].status_path,
        past_status(ts[0].stage) ==> past_status(ts.last().stage) && ts.last().ranges
            == ts[0].ranges,
    decreases events.len(),
{
    if events.len() > 0 {
        lemma_run_front(ds, ts, events, steps);
        law_transfer_keeps_its_files(
            ds.drop_last(),
            ts.drop_last(),
            events.drop_last(),
            steps.drop_last(),
        );
    }
}

/// A piece is recorded only after it was written and put to disk. While it is not, nothing but
/// word of that leads on, nothing is recorded, and neither the length written nor the progress
/// changes; nor do they before the piece is recorded, where there is a status file.
pub proof fn law_piece_is_recorded_only_after_it_is_written(
    d0: HttpDownload,
    t0: ChunkTransfer,
    event: ChunkEvent,
    d1: HttpDownload,
    t1: ChunkTransfer,
    step: ChunkStep,
)
    requires
        chunk_accepts(d0, t0, event),
        chunk_stepped(d0, t0, event, d1, t1, step),
    ensures
        step.action matches ChunkAction::Record { line } ==> t0.stage is Writing && event is Written
            && line@ == status_line(t0.piece as nat, t0.offset as nat),
        t0.stage is Writing ==> event is Written,
        t0.stage is Recording ==> event is Recorded,
        event matches ChunkEvent::Data { byte_count, offset } ==> d1 == d0 && step.notify is None
            && t1.piece == byte_count && t1.offset == offset,
        step.action is Record ==> d1 == d0 && step.notify is None,
{
}

/// The pieces that arrived, in the order in which they did.
pub open spec fn arrived(events: Seq<ChunkEvent>) -> Seq<Record>
    decreases events.len(),
{
    if events.len() == 0 {
        Seq::empty()
    } else {
        match events.last() {
            ChunkEvent::Data { byte_count, offset } => arrived(events.drop_last()).push(
                (byte_count, offset),
            ),
            _ => arrived(events.drop_last()),
        }
    }
}

/// The pieces that were written and put to disk, in the order in which they were.
pub open spec fn stored(ts: Seq<ChunkTransfer>, events: Seq<ChunkEvent>) -> Seq<Record>
    decreases events.len(),
{
    if events.len() == 0 {
        Seq::empty()
    } else {
        let so_far = stored(ts.drop_last(), events.drop_last());
        match events.last() {
            ChunkEvent::Written => so_far.push(
                (ts[events.len() - 1].piece, ts[events.len() - 1].offset),
            ),
            _ => so_far,
        }
    }
}

/// What the steps add to the status file.
pub open spec fn status_added(steps: Seq<ChunkStep>) -> Seq<u8>
    decreases steps.len(),
{
    if steps.len() == 0 {
        Seq::empty()
    } else {
        match steps.last().action {
            ChunkAction::Record { line } => status_added(steps.drop_last()) + line@,
            _ => status_added(steps.drop_last()),
        }
    }
}

/// Every piece that arrived is written before the next one is waited for: all of them are
/// stored, but for one that is still to be written.
pub proof fn law_arrived_pieces_are_stored(
    ds: Seq<HttpDownload>,
    ts: Seq<ChunkTransfer>,
    events: Seq<ChunkEvent>,
    steps: Seq<ChunkStep>,
)
    requires
        chunk_run(ds, ts, events, steps),
        ready(ds[0], ts[0]),
        ts[0].stage !is Writing,
    ensures
        arrived(events) == (if ts.last().stage is Writing {
            stored(ts, events).push((ts.last().piece, ts.last().offset))
        } else {
            stored(ts, events)
        }),
    decreases events.len(),
{
    if events.len() > 0 {
        lemma_run_front(ds, ts, events, steps);
        law_transfer_stays_in_order(
            ds.drop_last(),
            ts.drop_last(),
            events.drop_last(),
            steps.drop_last(),
        );
        law_arrived_pieces_are_stored(
            ds.drop_last(),
            ts.drop_last(),
            events.drop_last(),
            steps.drop_last(),
        );
    }
}

/// The status file records exactly the pieces that are stored: if, once it has been read, it
/// stands for `records`, then after any further events it stands for `records` and the pieces
/// stored since, and their bytes are those that the transfer has counted, but for a piece that
/// is still to be written.
pub proof fn law_status_file_records_what_is_stored(
    ds: Seq<HttpDownload>,
    ts: Seq<ChunkTransfer>,
    events: Seq<ChunkEvent>,
    steps: Seq<ChunkStep>,
    content: Seq<u8>,
    records: Seq<Record>,
)
    requires
        chunk_run(ds, ts, events, steps),
        ready(ds[0], ts[0]),
        past_status(ts[0].stage),
        ends_with_line(content),
        lines_readable(lines(content), 0),
        line_records(lines(content)) == Ok::<Seq<Record>, StatusError>(records),
        total_bytes(records) + unwritten(ts[0]) == ts[0].count,
    ensures
        past_status(ts.last().stage),
        ({
            let grown = content + status_added(steps);
            &&& ends_with_line(grown)
            &&& lines_readable(lines(grown), 0)
            &&& line_records(lines(grown)) == Ok::<Seq<Record>, StatusError>(
                records + stored(ts, events),
            )
            &&& total_bytes(records + stored(ts, events)) + unwritten(ts.last())
                == ts.last().count
        }),
    decreases events.len(),
{
    if events.len() == 0 {
        assert(content + status_added(steps) =~= content);
        assert(records + stored(ts, events) =~= records);
    } else {
        let n = events.len() - 1;
        lemma_run_front(ds, ts, events, steps);
        law_transfer_stays_in_order(
            ds.drop_last(),
            ts.drop_last(),
            events.drop_last(),
            steps.drop_last(),
        );
        law_status_file_records_what_is_stored(
            ds.drop_last(),
            ts.drop_last(),
            events.drop_last(),
            steps.drop_last(),
            content,
            records,
        );
        let before = content + status_added(steps.drop_last());
        let so_far = records + stored(ts.drop_last(), events.drop_last());
        if events.last() is Written {
            let (byte_count, offset) = (ts[n].piece, ts[n].offset);
            law_recorded_piece_is_read_back(before, so_far, byte_count, offset);
            assert(content + status_added(steps) =~= before + status_line(
                byte_count as nat,
                offset as nat,
            ));
            assert(records + stored(ts, events) =~= so_far.push((byte_count, offset)));
            assert((records + stored(ts, events)).drop_last() =~= so_far);
        }
    }
}

/// An interrupted transfer goes on with exactly what is missing: whenever the pieces that are
/// recorded or stored are pieces of the file, the status file that the transfer leaves can be
/// resumed from, its bytes are those that the transfer has counted, but for a piece that is
/// still to be written, and of the bytes of the file exactly those are requested that are not
/// stored.
pub proof fn law_interrupted_transfer_goes_on(
    ds: Seq<HttpDownload>,
    ts: Seq<ChunkTransfer>,
    events: Seq<ChunkEvent>,
    steps: Seq<ChunkStep>,
    content: Seq<u8>,
    records: Seq<Record>,
    content_len: u64,
    chunk_size: u64,
)
    requires
        chunk_run(ds, ts, events, steps),
        ready(ds[0], ts[0]),
        past_status(ts[0].stage),
        ends_with_line(content),
        lines_readable(lines(content), 0),
        line_records(lines(content)) == Ok::<Seq<Record>, StatusError>(records),
        total_bytes(records) + unwritten(ts[0]) == ts[0].count,
        pieces_of(records + stored(ts, events), content_len as nat),
        chunk_size > 0,
    ensures
        ({
            let grown = content + status_added(steps);
            let plan = resume_plan(grown, content_len as nat, chunk_size as nat);
            &&& resumable(grown, content_len as nat, chunk_size as nat)
            &&& plan matches Ok((ranges, total))
            &&& total + unwritten(ts.last()) == ts.last().count
            &&& separate(ranges)
            &&& forall|b: nat|
                b < content_len ==> (#[trigger] requested(ranges, b) <==> !recorded(
                    records + stored(ts, events),
                    b,
                ))
        }),
{
    law_status_file_records_what_is_stored(ds, ts, events, steps, content, records);
    law_resume_requests_what_is_missing(
        records + stored(ts, events),
        content_len,
        chunk_size as nat,
    );
}

/// A transfer that waits for a worker to end has stored every byte of the file: whenever the
/// pieces that are recorded or stored are pieces of the file, each of its bytes is in one of
/// them.
pub proof fn law_complete_transfer_has_every_byte(
    ds: Seq<HttpDownload>,
    ts: Seq<ChunkTransfer>,
    events: Seq<ChunkEvent>,
    steps: Seq<ChunkStep>,
    content: Seq<u8>,
    records: Seq<Record>,
    b: nat,
)
    requires
        chunk_run(ds, ts, events, steps),
        ready(ds[0], ts[0]),
        past_status(ts[0].stage),
        ends_with_line(content),
        lines_readable(lines(content), 0),
        line_records(lines(content)) == Ok::<Seq<Record>, StatusError>(records),
        total_bytes(records) + unwritten(ts[0]) == ts[0].count,
        pieces_of(records + stored(ts, events), ds.last().conf.content_len as nat),
        ts.last().stage is Joining || ts.last().stage is Verifying,
        b < ds.last().conf.content_len,
    ensures
        recorded(records + stored(ts, events), b),
{
    law_status_file_records_what_is_stored(ds, ts, events, steps, content, records);
    law_transfer_stays_in_order(ds, ts, events, steps);
    law_pieces_of_full_length_cover_the_file(
        records + stored(ts, events),
        ds.last().conf.content_len as nat,
    );
}

/// A transfer whose workers keep to its ranges can be interrupted at any time: in whatever
/// order their pieces arrive, the status file that the transfer leaves can be resumed from, its
/// bytes are those that the transfer has counted, but for a piece that is still to be written,
/// and of the bytes of the file exactly those are requested that are not stored. Once all bytes
/// are stored, none is.
pub proof fn law_planned_transfer_goes_on(
    ds: Seq<HttpDownload>,
    ts: Seq<ChunkTransfer>,
    events: Seq<ChunkEvent>,
    steps: Seq<ChunkStep>,
    content: Seq<u8>,
    records: Seq<Record>,
    workers: Seq<ChunkWorker>,
    deliveries: Seq<Delivery>,
    content_len: u64,
    chunk_size: u64,
)
    requires
        chunk_run(ds, ts, events, steps),
        ready(ds[0], ts[0]),
        past_status(ts[0].stage),
        ts[0].stage !is Writing,
        ends_with_line(content),
        lines_readable(lines(content), 0),
        line_records(lines(content)) == Ok::<Seq<Record>, StatusError>(records),
        total_bytes(records) == ts[0].count,
        as_nats(ts[0].ranges@) == resume_ranges(
            by_offset(records),
            content_len as nat,
            chunk_size as nat,
        ),
        pieces_of(records, content_len as nat),
        chunk_size > 0,
        fresh_on(workers, as_nats(ts[0].ranges@)),
        within_ranges(workers, deliveries, content_len as nat),
        arrived(events) == handed_out(workers, deliveries),
    ensures
        ({
            let grown = content + status_added(steps);
            let plan = resume_plan(grown, content_len as nat, chunk_size as nat);
            &&& resumable(grown, content_len as nat, chunk_size as nat)
            &&& plan matches Ok((ranges, total))
            &&& total + unwritten(ts.last()) == ts.last().count
            &&& separate(ranges)
            &&& forall|b: nat|
                b < content_len ==> (#[trigger] requested(ranges, b) <==> !recorded(
                    records + stored(ts, events),
                    b,
                ))
            &&& total == content_len ==> forall|b: nat|
                b < content_len ==> !#[trigger] requested(ranges, b)
        }),
{
    law_workers_hand_out_pieces_of_the_file(
        records,
        workers,
        deliveries,
        content_len,
        chunk_size as nat,
    );
    law_arrived_pieces_are_stored(ds, ts, events, steps);
    let all = records + stored(ts, events);
    if ts.last().stage is Writing {
        lemma_pieces_front(records + arrived(events), content_len as nat);
        assert((records + arrived(events)).drop_last() =~= all);
    }
    law_interrupted_transfer_goes_on(
        ds,
        ts,
        events,
        steps,
        content,
        records,
        content_len,
        chunk_size,
    );
    law_status_file_records_what_is_stored(ds, ts, events, steps, content, records);
    if total_bytes(all) == content_len {
        law_pieces_of_full_length_cover_the_file(all, content_len as nat);
    }
}

/// A piece is written exactly at the offset that it arrived with, which is the one that it is then
/// recorded at, and its bytes are counted. A file that is not open ends the transfer.
pub proof fn law_piece_is_written_where_it_belongs(
    d0: HttpDownload,
    t0: ChunkTransfer,
    event: ChunkEvent,
    d1: HttpDownload,
    t1: ChunkTransfer,
    step: ChunkStep,
)
    requires
        chunk_accepts(d0, t0, event),
        chunk_stepped(d0, t0, event, d1, t1, step),
    ensures
        step.action matches ChunkAction::Write { offset: at } ==> (event matches ChunkEvent::Data {
            byte_count,
            offset,
        } && at == offset && at == t1.offset && byte_count == t1.piece && d0.file_open
            && t0.stage is Receiving),
        event matches ChunkEvent::Data { byte_count, offset } ==> {
            &&& t1.count == t0.count + byte_count
            &&& t1.piece == byte_count
            &&& t1.offset == offset
            &&& d0.file_open ==> t1.stage is Writing && step.action == ChunkAction::Write { offset }
            &&& !d0.file_open ==> t1.stage is Done && step.action == ChunkAction::Fail(
                Error::FileNotOpen,
            )
        },
        event !is Data ==> t1.piece == t0.piece && t1.offset == t0.offset,
        event !is Data && event !is StatusRead ==> t1.count == t0.count,
{
}

/// A written piece is recorded where there is a status file, and after that, or else at once, its
/// bytes are added to the length written, which nothing else changes but what the status file
/// records.
pub proof fn law_written_piece_is_counted_once(
    d0: HttpDownload,
    t0: ChunkTransfer,
    event: ChunkEvent,
    d1: HttpDownload,
    t1: ChunkTransfer,
    step: ChunkStep,
)
    requires
        chunk_accepts(d0, t0, event),
        chunk_stepped(d0, t0, event, d1, t1, step),
    ensures
        event is Written && d0.status_open ==> t1.stage is Recording && step.action is Record
            && d1.conf.download_len == d0.conf.download_len,
        event is Recorded || (event is Written && !d0.status_open) ==> t1.stage is Measuring
            && d1.conf.download_len == d0.conf.download_len + t0.piece,
        event !is Written && event !is Recorded && event !is StatusRead ==> d1.conf.download_len
            == d0.conf.download_len,
        event is StatusRead ==> d1.conf.download_len == (if t1.count > 0 && t1.stage !is Done {
            t1.count
        } else {
            d0.conf.download_len
        }) || t1.stage is Done,
{
}

/// A transfer waits for pieces exactly as long as not all bytes have arrived, and then for a worker
/// to end.
pub proof fn law_pieces_are_awaited_while_bytes_are_missing(
    d0: HttpDownload,
    t0: ChunkTransfer,
    event: ChunkEvent,
    d1: HttpDownload,
    t1: ChunkTransfer,
    step: ChunkStep,
)
    requires
        chunk_accepts(d0, t0, event),
        chunk_stepped(d0, t0, event, d1, t1, step),
    ensures
        event is Started || event is NoneFailed ==> {
            &&& t0.count != d0.conf.content_len ==> t1.stage is Receiving && step.action is Receive
            &&& t0.count == d0.conf.content_len ==> t1.stage is Joining && step.action is Join
        },
        step.action is Receive ==> t1.count != d1.conf.content_len,
        step.action is Join ==> t1.count == d1.conf.content_len,
{
}

/// A failed range is requested again, the very same one, while no more than the allowed number of
/// ranges have been; then the transfer is given up.
pub proof fn law_failed_range_is_requested_again(
    d0: HttpDownload,
    t0: ChunkTransfer,
    event: ChunkEvent,
    d1: HttpDownload,
    t1: ChunkTransfer,
    step: ChunkStep,
)
    requires
        chunk_accepts(d0, t0, event),
        chunk_stepped(d0, t0, event, d1, t1, step),
    ensures
        event matches ChunkEvent::Failed(range) ==> {
            &&& d0.retries <= d0.conf.max_retries ==> step.action == (ChunkAction::Restart {
                range,
            }) && t1.stage is Starting && d1.retries == d0.retries + 1
            &&& d0.retries > d0.conf.max_retries ==> step.action == ChunkAction::GiveUp(
                Error::MaxRetries,
            ) && t1.stage is Done && d1.retries == d0.retries
        },
        event !is Failed ==> d1.retries == d0.retries,
        step.action is Restart || step.action is GiveUp ==> event is Failed,
{
}

/// A file that already has the expected digest is not transferred; another one is, where the server
/// serves ranges. A transferred file for which a digest is expected must have it.
pub proof fn law_digest_decides_over_the_file(
    d0: HttpDownload,
    t0: ChunkTransfer,
    event: ChunkEvent,
    d1: HttpDownload,
    t1: ChunkTransfer,
    step: ChunkStep,
)
    requires
        chunk_accepts(d0, t0, event),
        chunk_stepped(d0, t0, event, d1, t1, step),
    ensures
        t0.stage is CheckingFile ==> (event matches ChunkEvent::FileRead(file) && {
            let there = has_digest(t0.path@, file, d0.conf.file_md5@);
            &&& there ==> t1.stage is Done && step.action is Finish
            &&& !there && d0.support_chunk ==> t1.stage is OpeningStatus
                && step.action is OpenStatus
            &&& !there && !d0.support_chunk ==> t1.stage is Done && step.action
                == ChunkAction::Fail(Error::ChunksUnsupported)
        }),
        event is Joined ==> {
            &&& d0.conf.file_md5@.len() == 0 ==> t1.stage is Done && step.action is Finish
            &&& d0.conf.file_md5@.len() > 0 ==> t1.stage is Verifying && step.action is ReadFile
        },
        t0.stage is Verifying ==> (event matches ChunkEvent::FileRead(file) && {
            let right = has_digest(t0.path@, file, d0.conf.file_md5@);
            &&& t1.stage is Done
            &&& right ==> step.action is Finish
            &&& !right ==> step.action == ChunkAction::Fail(Error::DigestMismatch)
        }),
        step.action is Finish ==> t0.stage is CheckingFile || t0.stage is Joining
            || t0.stage is Verifying,
{
}

/// A transfer opens and reads its status file, goes on with what that leaves, opens the file for
/// appending exactly where something is recorded, and starts the workers where there is an address.
pub proof fn law_transfer_begins_with_its_status_file(
    d0: HttpDownload,
    t0: ChunkTransfer,
    event: ChunkEvent,
    d1: HttpDownload,
    t1: ChunkTransfer,
    step: ChunkStep,
)
    requires
        chunk_accepts(d0, t0, event),
        chunk_stepped(d0, t0, event, d1, t1, step),
    ensures
        t0.stage is OpeningStatus ==> event is Opened && d1.status_open && t1.stage is ReadingStatus
            && step.action is ReadStatus,
        event matches ChunkEvent::StatusRead(content) ==> match resume_plan(
            content@,
            d0.conf.content_len as nat,
            d0.conf.chunk_size as nat,
        ) {
            Err(e) => t1.stage is Done && (d0.status_open ==> step.action == ChunkAction::Fail(
                Error::StatusInvalid(e),
            )),
            Ok((ranges, total)) => d0.status_open ==> {
                &&& as_nats(t1.ranges@) == ranges
                &&& t1.count == total
                &&& total == 0 ==> t1.stage is OpeningFile && step.action
                    == (ChunkAction::OpenFile { append: false })
                &&& total > 0 ==> t1.stage is MeasuringResume && step.action
                    == (ChunkAction::Measure { done: t1.count, total: d0.conf.content_len })
            },
        },
        event is StatusRead && !d0.status_open ==> t1.stage is Done && step.action
            == ChunkAction::Fail(Error::StatusNotOpen),
        t0.stage is MeasuringResume ==> t1.stage is OpeningFile && step.action
            == (ChunkAction::OpenFile { append: true }),
        t0.stage is OpeningFile ==> event is Opened && d1.file_open && {
            &&& d0.conf.url is Some ==> t1.stage is Starting && step.action is Start
            &&& d0.conf.url is None ==> t1.stage is Done && step.action == ChunkAction::Fail(
                Error::AddressMissing,
            )
        },
        t0.stage is Measuring ==> t1.stage is Polling && step.action is Poll,
{
}

/// The progress changes only when the share of what is written has been measured, and is reported
/// exactly where it changes. What is to be measured is the length written, against the length of
/// the file.
pub proof fn law_progress_follows_the_length(
    d0: HttpDownload,
    t0: ChunkTransfer,
    event: ChunkEvent,
    d1: HttpDownload,
    t1: ChunkTransfer,
    step: ChunkStep,
)
    requires
        chunk_accepts(d0, t0, event),
        chunk_stepped(d0, t0, event, d1, t1, step),
    ensures
        event matches ChunkEvent::Measured(ratio) ==> d1.conf.progress == percent(
            d0.conf.content_len,
            d0.conf.download_len,
            ratio,
        ),
        event !is Measured ==> d1.conf.progress == d0.conf.progress,
        step.notify == (if d1.conf.progress == d0.conf.progress {
            None
        } else {
            Some(d1.conf.progress)
        }),
        step.action matches ChunkAction::Measure { done, total } ==> done == d1.conf.download_len
            && total == d1.conf.content_len,
        t1.stage is Measuring ==> step.action is Measure,
{
}

/// A step changes nothing of a download but the length written, the progress, the number of ranges
/// requested again and which files are open, which it never closes; and nothing of a transfer but
/// how far it has come.
pub proof fn law_step_changes_nothing_else(
    d0: HttpDownload,
    t0: ChunkTransfer,
    event: ChunkEvent,
    d1: HttpDownload,
    t1: ChunkTransfer,
    step: ChunkStep,
)
    requires
        chunk_accepts(d0, t0, event),
        chunk_stepped(d0, t0, event, d1, t1, step),
    ensures
        d1.conf == (Config {
            download_len: d1.conf.download_len,
            progress: d1.conf.progress,
            ..d0.conf
        }),
        d1.filename == d0.filename,
        d1.support_chunk == d0.support_chunk,
        d0.file_open ==> d1.file_open,
        d0.status_open ==> d1.status_open,
        d1.file_open && !d0.file_open ==> t0.stage is OpeningFile,
        d1.status_open && !d0.status_open ==> t0.stage is OpeningStatus,
        t1.path == t0.path,
        t1.status_path == t0.status_path,
        event !is StatusRead ==> t1.ranges == t0.ranges,
        t1.stage is Done <==> step.action is Finish || step.action is Fail || step.action is GiveUp,
{
}

/// In every stage the event that it waits for is accepted, as long as the numbers stay within their
/// bounds, and no other is.
pub proof fn law_awaited_event_is_accepted(
    d: HttpDownload,
    t: ChunkTransfer,
    file: FileRead,
    content: Vec<u8>,
    ratio: u8,
    byte_count: u64,
    offset: u64,
    range: ByteRange,
)
    ensures
        chunk_accepts(d, t, ChunkEvent::FileRead(file)) <==> t.stage is CheckingFile
            || t.stage is Verifying,
        chunk_accepts(d, t, ChunkEvent::Opened) <==> t.stage is OpeningStatus
            || t.stage is OpeningFile,
        chunk_accepts(d, t, ChunkEvent::StatusRead(content)) <==> t.stage is ReadingStatus && (
        !d.status_open || resumable(
            content@,
            d.conf.content_len as nat,
            d.conf.chunk_size as nat,
        )),
        chunk_accepts(d, t, ChunkEvent::Measured(ratio)) <==> t.stage is MeasuringResume
            || t.stage is Measuring,
        chunk_accepts(d, t, ChunkEvent::Started) <==> t.stage is Starting,
        chunk_accepts(d, t, (ChunkEvent::Data { byte_count, offset })) <==> t.stage is Receiving
            && t.count + byte_count <= u64::MAX,
        chunk_accepts(d, t, ChunkEvent::Written) <==> t.stage is Writing && (d.status_open
            || d.conf.download_len + t.piece <= u64::MAX),
        chunk_accepts(d, t, ChunkEvent::Recorded) <==> t.stage is Recording && d.conf.download_len
            + t.piece <= u64::MAX,
        chunk_accepts(d, t, ChunkEvent::NoneFailed) <==> t.stage is Polling,
        chunk_accepts(d, t, ChunkEvent::Failed(range)) <==> t.stage is Polling && (d.retries
            > d.conf.max_retries || d.retries < u8::MAX),
        chunk_accepts(d, t, ChunkEvent::Joined) <==> t.stage is Joining,
{
}

} // verus!
