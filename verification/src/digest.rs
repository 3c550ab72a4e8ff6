//! MD5 digests of files.
use crate::error::Error;
use vstd::prelude::*;

verus! {

/// The MD5 digest of `data` in lower-case hexadecimal digits, as `chksum_md5::hash` gives it.
pub uninterp spec fn md5_hex(data: Seq<u8>) -> Seq<char>;

/// `text` in lower case, as `str::to_lowercase` gives it.
pub uninterp spec fn lower_case(text: Seq<char>) -> Seq<char>;

/// The lower-case form of an ASCII character.
pub open spec fn ascii_lower(c: char) -> char {
    if 'A' <= c <= 'Z' {
        (c as u8 + 32) as u8 as char
    } else {
        c
    }
}

/// `text` with every ASCII letter in lower case.
pub open spec fn ascii_lower_text(text: Seq<char>) -> Seq<char> {
    text.map_values(|c: char| ascii_lower(c))
}

/// Every character of `text` is ASCII.
pub open spec fn all_ascii(text: Seq<char>) -> bool {
    forall|i: int| 0 <= i < text.len() ==> (#[trigger] text[i]) as u32 <= 127
}

/// `c` is a lower-case hexadecimal digit.
pub open spec fn lower_hex(c: char) -> bool {
    '0' <= c <= '9' || 'a' <= c <= 'f'
}

/// Calls `chksum_md5::hash` and writes out the digest, which depends on the data alone. The
/// digest is written as two lower-case hexadecimal digits for each of its sixteen bytes.
#[verifier::external_body]
pub(crate) fn md5_text(data: &[u8]) -> (r: String)
    ensures
        r@ == md5_hex(data@),
        r@.len() == 32,
        forall|i: int| 0 <= i < r@.len() ==> lower_hex(#[trigger] r@[i]),
{
    chksum_md5::hash(data).to_string()
}

/// Calls `str::to_lowercase`, whose result depends on the text alone. Of an ASCII text it
/// changes the letters `A` to `Z` and nothing else.
#[verifier::external_body]
pub(crate) fn to_lower_case(text: &str) -> (r: String)
    ensures
        r@ == lower_case(text@),
        all_ascii(text@) ==> r@ == ascii_lower_text(text@),
{
    text.to_lowercase()
}

/// What reading a file gave.
#[derive(Clone, Debug, PartialEq, Eq)]
pub enum FileRead {
    /// There is no file of that name.
    Missing,
    /// The file could not be opened, for the reason given.
    NotOpened(String),
    /// The file could not be read, for the reason given.
    NotRead(String),
    /// The bytes of the file.
    Bytes(Vec<u8>),
}

/// What the digest of a file is, as far as it can be told: the name of the file must not be
/// empty and its bytes must have been read.
pub open spec fn file_digest(path: Seq<char>, file: FileRead) -> Option<Seq<char>> {
    if path.len() == 0 {
        None
    } else {
        match file {
            FileRead::Bytes(data) => Some(md5_hex(data@)),
            _ => None,
        }
    }
}

/// The error that tells why the digest of a file is not known.
pub open spec fn digest_error(path: Seq<char>, file: FileRead, e: Error) -> bool {
    if path.len() == 0 {
        e is PathEmpty
    } else {
        match file {
            FileRead::Missing => e is FileMissing,
            FileRead::NotOpened(reason) => e == Error::Io(reason),
            FileRead::NotRead(reason) => e == Error::DigestFailed(reason),
            FileRead::Bytes(_) => false,
        }
    }
}

/// The MD5 digest of the file at `file_path`, given what reading that file gave.
pub fn get_file_md5(file_path: &str, file: FileRead) -> (r: Result<String, Error>)
    ensures
        match r {
            Ok(digest) => {
                &&& file_digest(file_path@, file) == Some(digest@)
                &&& digest@.len() == 32
                &&& forall|i: int| 0 <= i < digest@.len() ==> lower_hex(#[trigger] digest@[i])
            },
            Err(e) => file_digest(file_path@, file) is None && digest_error(file_path@, file, e),
        },
        file_path@.len() > 0 ==> (file matches FileRead::Bytes(data) ==> r is Ok && r->Ok_0@
            == md5_hex(data@)),
        r is Ok <==> file_path@.len() > 0 && file is Bytes,
{
    if file_path.is_empty() {
        return Err(Error::PathEmpty);
    }
    match file {
        FileRead::Missing => Err(Error::FileMissing),
        FileRead::NotOpened(reason) => Err(Error::Io(reason)),
        FileRead::NotRead(reason) => Err(Error::DigestFailed(reason)),
        FileRead::Bytes(data) => Ok(md5_text(data.as_slice())),
    }
}

/// Two digests are the same, the case of their letters aside.
pub open spec fn same_digest(a: Seq<char>, b: Seq<char>) -> bool {
    lower_case(a) == lower_case(b)
}

/// Whether two digests are the same, the case of their letters aside.
pub fn digests_match(a: &str, b: &str) -> (r: bool)
    ensures
        r == same_digest(a@, b@),
        all_ascii(a@) && all_ascii(b@) ==> r == (ascii_lower_text(a@) == ascii_lower_text(b@)),
{
    to_lower_case(a) == to_lower_case(b)
}

/// A file has the digest that is expected of it: one is expected, and the digest of the file
/// is known and the same.
pub open spec fn has_digest(path: Seq<char>, file: FileRead, expected: Seq<char>) -> bool {
    &&& expected.len() > 0
    &&& file_digest(path, file) matches Some(digest) && same_digest(digest, expected)
}

/// Whether the file at `file_path` has the digest `md5`, given what reading that file gave.
pub fn compari_file_md5(file_path: &str, file: FileRead, md5: &str) -> (r: bool)
    ensures
        r == has_digest(file_path@, file, md5@),
        md5@.len() > 0 && all_ascii(md5@) ==> r == (file_digest(file_path@, file) == Some(
            ascii_lower_text(md5@),
        )),
        file_path@.len() > 0 && md5@.len() > 0 ==> (file matches FileRead::Bytes(data) ==> r == (
        lower_case(md5_hex(data@)) == lower_case(md5@))),
        file_path@.len() == 0 || md5@.len() == 0 || file !is Bytes ==> !r,
{
    if md5.is_empty() {
        return false;
    }
    match get_file_md5(file_path, file) {
        Ok(digest) => {
            assert(all_ascii(digest@)) by {
                assert forall|i: int| 0 <= i < digest@.len() implies (#[trigger] digest@[i]) as u32
                    <= 127 by {
                    assert(lower_hex(digest@[i]));
                }
            }
            assert(ascii_lower_text(digest@) =~= digest@) by {
                assert forall|i: int| 0 <= i < digest@.len() implies ascii_lower(digest@[i])
                    == digest@[i] by {
                    assert(lower_hex(digest@[i]));
                }
            }
            digests_match(digest.as_str(), md5)
        },
        Err(_) => false,
    }
}

/// The digest of a file is that of all its bytes, however many there are. There is none where the
/// path is empty or the bytes were not read.
pub proof fn law_digest_is_that_of_all_bytes(path: Seq<char>, data: Vec<u8>, file: FileRead)
    ensures
        path.len() > 0 ==> file_digest(path, FileRead::Bytes(data)) == Some(md5_hex(data@)),
        file_digest(Seq::empty(), file) is None,
        file !is Bytes ==> file_digest(path, file) is None,
{
}

/// A file has the expected digest exactly where one is expected, the bytes were read, and the
/// digest of all of them is the expected one, the case of the letters aside: for an expected
/// digest in ASCII, letter by letter.
pub proof fn law_expected_digest_is_that_of_all_bytes(
    path: Seq<char>,
    data: Vec<u8>,
    file: FileRead,
    expected: Seq<char>,
)
    ensures
        path.len() > 0 && expected.len() > 0 ==> (has_digest(path, FileRead::Bytes(data), expected)
            <==> lower_case(md5_hex(data@)) == lower_case(expected)),
        !has_digest(path, file, Seq::empty()),
        !has_digest(Seq::empty(), file, expected),
        file !is Bytes ==> !has_digest(path, file, expected),
{
}

/// Why a file has no digest is told by the first thing that is wrong with it.
pub proof fn law_missing_digest_is_explained(path: Seq<char>, reason: String, e: Error)
    ensures
        digest_error(Seq::empty(), FileRead::Missing, e) <==> e is PathEmpty,
        digest_error(Seq::empty(), FileRead::NotRead(reason), e) <==> e is PathEmpty,
        path.len() > 0 ==> (digest_error(path, FileRead::Missing, e) <==> e is FileMissing),
        path.len() > 0 ==> (digest_error(path, FileRead::NotOpened(reason), e) <==> e == Error::Io(
            reason,
        )),
        path.len() > 0 ==> (digest_error(path, FileRead::NotRead(reason), e) <==> e
            == Error::DigestFailed(reason)),
{
}

/// Putting a text into lower case changes exactly the letters from `A` to `Z`, each into its
/// small form.
pub proof fn law_lower_case_changes_capitals(text: Seq<char>, i: int)
    requires
        0 <= i < text.len(),
    ensures
        ascii_lower_text(text).len() == text.len(),
        'A' <= text[i] <= 'Z' ==> ascii_lower_text(text)[i] as u32 == text[i] as u32 + 32,
        !('A' <= text[i] <= 'Z') ==> ascii_lower_text(text)[i] == text[i],
{
}

} // verus!
