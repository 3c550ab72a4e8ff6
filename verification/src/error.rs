//! What can go wrong in a download.
use crate::address::AddressError;
use crate::number::{number_reason, NumberError};
use crate::status::StatusError;
use vstd::prelude::*;

verus! {

/// Why a download, or a step of it, failed.
#[derive(Clone, Debug, PartialEq, Eq)]
pub enum Error {
    /// The text is not a URL.
    AddressInvalid { text: String, cause: AddressError },
    /// No file name could be made for the download.
    FilenameEmpty,
    /// The `Content-Length` header is not a number.
    LengthInvalid(NumberError),
    /// A header value is not visible text.
    HeaderNotText,
    /// A header could not be put into the header map.
    HeadersFull,
    /// The file to write to is not open.
    FileNotOpen,
    /// The status file is not open.
    StatusNotOpen,
    /// The status file cannot be read.
    StatusInvalid(StatusError),
    /// The server does not serve ranges.
    ChunksUnsupported,
    /// No URL was set.
    AddressMissing,
    /// The digest of the finished file is not the expected one.
    DigestMismatch,
    /// Too many ranges had to be requested again.
    MaxRetries,
    /// The name of a file is empty.
    PathEmpty,
    /// There is no file of that name.
    FileMissing,
    /// The digest of a file could not be computed, for the reason given.
    DigestFailed(String),
    /// The name of the file has no extension.
    NoExtension,
    /// The extension of the file is not `zip`.
    NotZip,
    /// A file could not be opened, for the reason given.
    Io(String),
}

/// What an error says.
pub open spec fn error_text(e: Error) -> Seq<char> {
    match e {
        Error::AddressInvalid { text, cause } => "url不合法: "@ + text@ + " err:"@ + cause.reason@,
        Error::FilenameEmpty => "filename is empty"@,
        Error::LengthInvalid(cause) => number_reason(cause),
        Error::HeaderNotText => "failed to convert header to a str"@,
        Error::HeadersFull => "size overflows MAX_SIZE"@,
        Error::FileNotOpen => "file handler is none"@,
        Error::StatusNotOpen => "st_file is none"@,
        Error::StatusInvalid(StatusError::NotText) => "stream did not contain valid UTF-8"@,
        Error::StatusInvalid(StatusError::Number(cause)) => number_reason(cause),
        Error::ChunksUnsupported => "chunk download not support"@,
        Error::AddressMissing => "url is empty"@,
        Error::DigestMismatch => "download ok but, file md5 not match"@,
        Error::MaxRetries => "max retries"@,
        Error::PathEmpty => "file_path is empty"@,
        Error::FileMissing => "file does not exist"@,
        Error::DigestFailed(reason) => "get_file_md5 chksum failed:"@ + reason@,
        Error::NoExtension => "file is not extension"@,
        Error::NotZip => "file is not zip"@,
        Error::Io(reason) => reason@,
    }
}

impl Error {
    /// What the error says.
    pub fn message(&self) -> (r: String)
        ensures
            r@ == error_text(*self),
    {
        match self {
            Error::AddressInvalid { text, cause } => "url不合法: ".to_owned().concat(
                text.as_str(),
            ).concat(" err:").concat(cause.reason.as_str()),
            Error::FilenameEmpty => "filename is empty".to_owned(),
            Error::LengthInvalid(cause) => cause.message(),
            Error::HeaderNotText => "failed to convert header to a str".to_owned(),
            Error::HeadersFull => "size overflows MAX_SIZE".to_owned(),
            Error::FileNotOpen => "file handler is none".to_owned(),
            Error::StatusNotOpen => "st_file is none".to_owned(),
            Error::StatusInvalid(
                StatusError::NotText,
            ) => "stream did not contain valid UTF-8".to_owned(),
            Error::StatusInvalid(StatusError::Number(cause)) => cause.message(),
            Error::ChunksUnsupported => "chunk download not support".to_owned(),
            Error::AddressMissing => "url is empty".to_owned(),
            Error::DigestMismatch => "download ok but, file md5 not match".to_owned(),
            Error::MaxRetries => "max retries".to_owned(),
            Error::PathEmpty => "file_path is empty".to_owned(),
            Error::FileMissing => "file does not exist".to_owned(),
            Error::DigestFailed(reason) => "get_file_md5 chksum failed:".to_owned().concat(
                reason.as_str(),
            ),
            Error::NoExtension => "file is not extension".to_owned(),
            Error::NotZip => "file is not zip".to_owned(),
            Error::Io(reason) => reason.as_str().to_owned(),
        }
    }
}

/// An error hands on the whole of what it was told.
pub proof fn law_error_says_all_it_was_told(text: String, cause: AddressError, reason: String)
    ensures
        error_text(Error::AddressInvalid { text, cause }) == "url不合法: "@ + text@ + " err:"@
            + cause.reason@,
        error_text(Error::DigestFailed(reason)) == "get_file_md5 chksum failed:"@ + reason@,
        error_text(Error::Io(reason)) == reason@,
{
}

/// A wrong number is told in the same words wherever it stood.
pub proof fn law_wrong_number_is_told(e: NumberError)
    ensures
        error_text(Error::LengthInvalid(e)) == number_reason(e),
        error_text(Error::StatusInvalid(StatusError::Number(e))) == number_reason(e),
{
}

} // verus!
