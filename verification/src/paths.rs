//! Names and paths of files.
use crate::digest::ascii_lower_text;
use crate::error::Error;
use crate::text::{after_last, lemma_after_last, to_chars};
use vstd::prelude::*;

verus! {

/// A path that every platform reads alike: without backslashes and colons, and without two
/// slashes at its front.
pub open spec fn portable(path: Seq<char>) -> bool {
    &&& !path.contains('\\')
    &&& !path.contains(':')
    &&& !(path.len() >= 2 && path[0] == '/' && path[1] == '/')
}

/// `c` separates the components of a path on some platform.
pub open spec fn separator(c: char) -> bool {
    c == '/' || c == '\\'
}

/// `path` begins with the mark of a verbatim path, which some platform takes literally.
pub open spec fn verbatim(path: Seq<char>) -> bool {
    path.len() >= 4 && path.take(4) == seq!['\\', '\\', '?', '\\']
}

/// `name` begins with neither a separator nor a drive letter, so that every platform reads it
/// as a path within a directory.
pub open spec fn relative(name: Seq<char>) -> bool {
    &&& name.len() > 0 ==> !separator(name[0])
    &&& name.len() > 1 ==> name[1] != ':'
}

/// `path` is `dir`, one of the separators and `name`.
pub open spec fn separated(dir: Seq<char>, name: Seq<char>, path: Seq<char>) -> bool {
    path == dir.push('/') + name || path == dir.push('\\') + name
}

/// `path` is `name` within the directory `dir`, as far as that is the same on every platform.
/// A name that is relative on every platform follows on the directory and a separator. The
/// separator is left out where the directory is empty or ends with a slash, and it may be where
/// the directory ends with a backslash or a colon. A name that begins with a slash stands for
/// itself where nothing in it or in the directory can be read as a drive or a host. Whatever
/// the name, it ends the path, and what stands before it begins the directory, or is the
/// directory with a separator. A verbatim directory is left open.
pub open spec fn joined(dir: Seq<char>, name: Seq<char>, path: Seq<char>) -> bool {
    let lead = path.take(path.len() - name.len());
    &&& portable(dir) && portable(name) && name.len() > 0 && name[0] == '/' ==> path == name
    &&& !verbatim(dir) && relative(name) ==> if dir.len() == 0 || dir.last() == '/' {
        path == dir + name
    } else if dir.last() == '\\' || dir.last() == ':' {
        path == dir + name || separated(dir, name, path)
    } else {
        separated(dir, name, path)
    }
    &&& !verbatim(dir) ==> {
        &&& name.len() <= path.len()
        &&& path == lead + name
        &&& lead.is_prefix_of(dir) || lead == dir.push('/') || lead == dir.push('\\')
    }
}

/// The last component of a path, empty components and single dots at the end left out, unless
/// it is the parent directory.
pub open spec fn last_component(path: Seq<char>) -> Option<Seq<char>>
    decreases path.len(),
{
    let piece = after_last(path, '/');
    if piece.len() > 0 && piece != seq!['.'] {
        if piece == seq!['.', '.'] {
            None
        } else {
            Some(piece)
        }
    } else if piece.len() == path.len() {
        None
    } else {
        proof {
            lemma_after_last(path, '/');
        }
        last_component(path.take(path.len() - piece.len() - 1))
    }
}

/// What stands in a file name behind its last dot, unless that dot is its first character.
pub open spec fn name_extension(name: Seq<char>) -> Option<Seq<char>> {
    let ending = after_last(name, '.');
    if ending.len() + 1 < name.len() {
        Some(ending)
    } else {
        None
    }
}

/// The extension of the file at `path`.
pub open spec fn extension(path: Seq<char>) -> Option<Seq<char>> {
    match last_component(path) {
        Some(name) => name_extension(name),
        None => None,
    }
}

/// `path` ends, on every platform, with a file name whose extension is `ending`: it does not
/// begin with two separators, and `ending`, which is not empty and holds no dot, separator or
/// colon, stands behind a dot that follows on something other than a separator or a colon.
pub open spec fn ends_with_extension(path: Seq<char>, ending: Seq<char>) -> bool {
    let dot = path.len() - ending.len() - 1;
    &&& ending.len() > 0
    &&& !ending.contains('.') && !ending.contains('/') && !ending.contains('\\')
        && !ending.contains(':')
    &&& dot >= 1
    &&& path.skip(dot + 1) == ending
    &&& path[dot] == '.'
    &&& !separator(path[dot - 1]) && path[dot - 1] != ':'
    &&& !(separator(path[0]) && separator(path[1]))
}

/// `piece`, at the end of a path, holds on every platform the file name, and no dot.
pub open spec fn plain_ending(piece: Seq<char>) -> bool {
    piece.len() > 0 && !piece.contains('.') && piece.last() != '\\'
}

/// `found` is the extension of the file at `path`, as far as that is the same on every
/// platform: for every portable path, for every path that ends with an extension on every
/// platform, for every path without a dot, and for every path that is not verbatim and whose
/// piece behind its last slash holds no dot and does not end with a backslash. An extension
/// holds no dot.
pub open spec fn extension_is(path: Seq<char>, found: Option<Seq<char>>) -> bool {
    &&& portable(path) ==> found == extension(path)
    &&& !path.contains('.') ==> found is None
    &&& !verbatim(path) && plain_ending(after_last(path, '/')) ==> found is None
    &&& forall|ending: Seq<char>| #[trigger]
        ends_with_extension(path, ending) ==> found == Some(ending)
    &&& found matches Some(ending) ==> !ending.contains('.')
}

/// A text, if there is one, as a sequence.
pub open spec fn text_view(text: Option<&str>) -> Option<Seq<char>> {
    match text {
        Some(text) => Some(text@),
        None => None,
    }
}

/// Calls `PathBuf::push`, which puts a relative path behind the directory, with a separator
/// between them where one is needed, and lets an absolute one take the place of the directory or
/// of all of it but its prefix. Where a name begins like a drive or a root on some platform only,
/// which of these happens is left open, as are the platform's separator and what a verbatim
/// directory becomes.
#[verifier::external_body]
pub(crate) fn path_join(dir: &str, name: &str) -> (r: String)
    ensures
        joined(dir@, name@, r@),
{
    let mut path = std::path::PathBuf::from(dir);
    path.push(name);
    path.to_str().unwrap_or_default().to_string()
}

/// Calls `Path::extension`, which gives what stands behind the last dot of the file name, if
/// there is a file name and the dot is not its first character. How a path with drive letters,
/// backslashes or two slashes in front is taken apart differs between platforms; of such a path
/// only what holds on all of them is claimed.
#[verifier::external_body]
pub(crate) fn path_extension(path: &str) -> (r: Option<&str>)
    ensures
        extension_is(path@, text_view(r)),
{
    std::path::Path::new(path).extension().and_then(|s| s.to_str())
}

/// The extension of the file at `file_path`.
pub fn get_file_extension(file_path: &str) -> (r: Option<&str>)
    ensures
        extension_is(file_path@, text_view(r)),
{
    path_extension(file_path)
}

/// Whether a file with the given extension may be extracted: it must exist, and its extension
/// must be `zip`, the case of the letters aside.
pub open spec fn zip_verdict(
    exists: bool,
    extension: Option<Seq<char>>,
    r: Result<(), Error>,
) -> bool {
    if !exists {
        r is Err && r->Err_0 is FileMissing
    } else {
        match extension {
            None => r is Err && r->Err_0 is NoExtension,
            Some(ending) => if ascii_lower_text(ending) == "zip"@ {
                r is Ok
            } else {
                r is Err && r->Err_0 is NotZip
            },
        }
    }
}

/// Decides whether a file with the given extension may be extracted.
pub fn check_zip(exists: bool, extension: Option<&str>) -> (r: Result<(), Error>)
    ensures
        zip_verdict(exists, text_view(extension), r),
{
    if !exists {
        return Err(Error::FileMissing);
    }
    match extension {
        None => Err(Error::NoExtension),
        Some(ending) => {
            let chars = to_chars(ending);
            proof {
                reveal_strlit("zip");
            }
            if chars.len() == 3 && (chars[0] == 'z' || chars[0] == 'Z') && (chars[1] == 'i'
                || chars[1] == 'I') && (chars[2] == 'p' || chars[2] == 'P') {
                assert(ascii_lower_text(chars@) =~= "zip"@);
                Ok(())
            } else {
                proof {
                    let lower = ascii_lower_text(chars@);
                    if lower == "zip"@ {
                        assert(lower.len() == 3);
                        assert(lower[0] == 'z' && lower[1] == 'i' && lower[2] == 'p');
                        assert(false);
                    }
                }
                Err(Error::NotZip)
            }
        },
    }
}

/// Decides whether the file at `zipfile` may be extracted, given whether it exists.
pub fn uzip_file(zipfile: &str, exists: bool) -> (r: Result<(), Error>)
    ensures
        exists|found: Option<Seq<char>>|
            extension_is(zipfile@, found) && #[trigger] zip_verdict(exists, found, r),
{
    let extension = path_extension(zipfile);
    check_zip(exists, extension)
}

/// How a file is opened for writing.
#[derive(Clone, Copy, Debug, PartialEq, Eq, Structural)]
pub enum OpenMode {
    /// Write behind the end of the existing file.
    Append,
    /// Write over the existing file from its start.
    Overwrite,
    /// Create the file.
    Create,
}

/// How to open a file for writing: one that exists is never created anew.
pub open spec fn open_mode(exists: bool, append: bool) -> OpenMode {
    if !exists {
        OpenMode::Create
    } else if append {
        OpenMode::Append
    } else {
        OpenMode::Overwrite
    }
}

/// How to open a file for writing, given whether it exists and whether what it holds is
/// to be kept.
pub fn get_file_handle(exists: bool, append: bool) -> (r: OpenMode)
    ensures
        r == open_mode(exists, append),
{
    if exists {
        if append {
            OpenMode::Append
        } else {
            OpenMode::Overwrite
        }
    } else {
        OpenMode::Create
    }
}

/// There is a directory to save to, and it does not exist.
pub open spec fn directory_missing(save_dir: Seq<char>, exists: bool) -> bool {
    save_dir.len() > 0 && !exists
}

/// Whether the directory to save to must be created first.
pub fn must_create_dir(save_dir: &str, exists: bool) -> (r: bool)
    ensures
        r == directory_missing(save_dir@, exists),
{
    !save_dir.is_empty() && !exists
}

/// The path of the file `filename` in `save_dir`, which may be empty.
pub open spec fn file_path_is(save_dir: Seq<char>, filename: Seq<char>, path: Seq<char>) -> bool {
    if save_dir.len() == 0 {
        path == filename
    } else {
        joined(save_dir, filename, path)
    }
}

/// The path of the file `filename` in `save_dir`.
pub fn file_path(save_dir: &str, filename: &str) -> (r: String)
    ensures
        file_path_is(save_dir@, filename@, r@),
{
    if save_dir.is_empty() {
        filename.to_owned()
    } else {
        path_join(save_dir, filename)
    }
}

/// A file goes to the directory to save to, and stays where its name says where there is none.
pub proof fn law_file_goes_to_the_directory(dir: Seq<char>, name: Seq<char>, path: Seq<char>)
    requires
        file_path_is(dir, name, path),
    ensures
        dir.len() == 0 ==> path == name,
        dir.len() > 0 && !verbatim(dir) && relative(name) && dir.last() == '/' ==> path == dir
            + name,
        dir.len() > 0 && !verbatim(dir) && relative(name) && !separator(dir.last()) && dir.last()
            != ':' ==> path == dir.push('/') + name || path == dir.push('\\') + name,
        !verbatim(dir) ==> name.is_suffix_of(path),
{
    if dir.len() == 0 {
        assert(name.is_suffix_of(path));
    } else if !verbatim(dir) {
        let lead = path.take(path.len() - name.len());
        assert(path == lead + name);
        assert(path.subrange(path.len() - name.len(), path.len() as int) =~= name);
    }
}

/// A file is extracted exactly where it exists and its extension is `zip`, in capitals or not;
/// else the first thing that is wrong with it is told.
pub proof fn law_only_existing_zip_files_are_extracted(
    exists: bool,
    ending: Seq<char>,
    r: Result<(), Error>,
)
    ensures
        zip_verdict(false, Some(ending), r) <==> r is Err && r->Err_0 is FileMissing,
        zip_verdict(false, None, r) <==> r is Err && r->Err_0 is FileMissing,
        zip_verdict(true, None, r) <==> r is Err && r->Err_0 is NoExtension,
        ({
            let zip = ending.len() == 3 && (ending[0] == 'z' || ending[0] == 'Z') && (ending[1]
                == 'i' || ending[1] == 'I') && (ending[2] == 'p' || ending[2] == 'P');
            &&& zip ==> (zip_verdict(true, Some(ending), r) <==> r is Ok)
            &&& !zip ==> (zip_verdict(true, Some(ending), r) <==> r is Err && r->Err_0 is NotZip)
        }),
{
    reveal_strlit("zip");
    let lower = ascii_lower_text(ending);
    if ending.len() == 3 && (ending[0] == 'z' || ending[0] == 'Z') && (ending[1] == 'i'
        || ending[1] == 'I') && (ending[2] == 'p' || ending[2] == 'P') {
        assert(lower =~= "zip"@);
    } else if lower == "zip"@ {
        assert(lower.len() == 3);
        assert(lower[0] == 'z' && lower[1] == 'i' && lower[2] == 'p');
    }
}

/// A text is seen whole.
pub proof fn law_text_is_seen_whole(text: &str)
    ensures
        text_view(Some(text)) == Some(text@),
        text_view(None) is None,
{
}

/// A file is created exactly where there is none, and one that is there is written behind its end
/// exactly where that is asked for.
pub proof fn law_existing_file_is_kept(exists: bool, append: bool)
    ensures
        open_mode(exists, append) is Create <==> !exists,
        open_mode(exists, append) is Append <==> exists && append,
        open_mode(exists, append) is Overwrite <==> exists && !append,
{
}

/// A directory is created exactly where one is named and does not exist, whatever its name.
pub proof fn law_missing_directory_is_created(save_dir: Seq<char>)
    ensures
        directory_missing(save_dir, false) <==> save_dir != Seq::<char>::empty(),
        !directory_missing(save_dir, true),
{
    if save_dir.len() == 0 {
        assert(save_dir =~= Seq::<char>::empty());
    }
}

} // verus!
