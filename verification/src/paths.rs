//! What to do with a path: the decisions of the walk over files and
//! directories, taken from what the file system reported about each path.

use vstd::prelude::*;
use vstd::string::*;
use vstd::utf8::*;

verus! {

/// How many bytes from the start of a file decide whether it is text.
pub const SNIFF_LEN: usize = 1024;

/// What a path turned out to be.
#[derive(Clone, Copy, Debug, PartialEq, Eq, Structural)]
pub enum PathType {
    File,
    Directory,
    NotFound,
    Other,
}

/// What the walk does with a path.
#[derive(Clone, Copy, Debug, PartialEq, Eq, Structural)]
pub enum PathAction {
    /// Pass over the path.
    Skip,
    /// Read the file: search it if it is text, report it if it is not.
    Inspect,
    /// Visit every entry of the directory.
    Descend,
}

/// The type of a path: not found if it does not exist, else a file or a
/// directory if it is one, else something other.
pub open spec fn path_type(exists: bool, is_file: bool, is_dir: bool) -> PathType {
    if !exists {
        PathType::NotFound
    } else if is_file {
        PathType::File
    } else if is_dir {
        PathType::Directory
    } else {
        PathType::Other
    }
}

/// The type of a path, from what the file system says of it: whether it
/// exists, and whether it is a regular file or a directory.
pub fn check_path(exists: bool, is_file: bool, is_dir: bool) -> (kind: PathType)
    ensures
        kind == path_type(exists, is_file, is_dir),
{
    if !exists {
        return PathType::NotFound;
    }
    if is_file {
        return PathType::File;
    }
    if is_dir {
        return PathType::Directory;
    }
    PathType::Other
}

/// Whether a name is that of a hidden entry: one that starts with a dot.
pub open spec fn hidden_name(name: Seq<char>) -> bool {
    name.len() > 0 && name[0] == '.'
}

/// Whether a path is hidden, from the last component of the path: hidden is
/// what has a name that starts with a dot. A path without such a component,
/// or with one that is not valid Unicode, is not hidden.
pub fn is_hidden(file_name: Option<&str>) -> (hidden: bool)
    ensures
        hidden == (file_name matches Some(name) && hidden_name(name@)),
{
    match file_name {
        Some(name) => !name.is_empty() && name.get_char(0) == '.',
        None => false,
    }
}

/// The bytes that decide whether a file is text: its first `SNIFF_LEN`, or
/// all of them if it has fewer.
pub open spec fn sniffed(bytes: Seq<u8>) -> Seq<u8> {
    if bytes.len() <= SNIFF_LEN {
        bytes
    } else {
        bytes.subrange(0, SNIFF_LEN as int)
    }
}

/// `std::str::from_utf8`, asked only whether it succeeds: it does on the
/// byte slices that are valid UTF-8 and on no others.
#[verifier::external_body]
fn utf8_ok(bytes: &[u8]) -> (ok: bool)
    ensures
        ok == valid_utf8(bytes@),
{
    std::str::from_utf8(bytes).is_ok()
}

/// Whether a file is text, from the bytes at its start: text is what begins
/// with valid UTF-8, as far as the first `SNIFF_LEN` bytes show. An empty
/// file is text.
pub fn is_text_file(head: &[u8]) -> (text: bool)
    ensures
        text == valid_utf8(sniffed(head@)),
        head@.len() == 0 ==> text,
{
    let n = head.len();
    if n == 0 {
        return true;
    }
    if n <= SNIFF_LEN {
        utf8_ok(head)
    } else {
        let (probe, _) = head.split_at(SNIFF_LEN);
        utf8_ok(probe)
    }
}

/// What the walk does with a path of type `kind`. An entry found inside a
/// directory (`nested`) is passed over if it is hidden and hidden entries
/// were not asked for; so is a hidden file that was named itself. Other
/// files are inspected, other directories descended into, and what is
/// neither, or is not there, is passed over.
pub open spec fn path_action(
    kind: PathType,
    hidden: bool,
    include_hidden: bool,
    nested: bool,
) -> PathAction {
    if hidden && !include_hidden && (nested || kind == PathType::File) {
        PathAction::Skip
    } else {
        match kind {
            PathType::File => PathAction::Inspect,
            PathType::Directory => PathAction::Descend,
            _ => PathAction::Skip,
        }
    }
}

/// Decides what the walk does with one path.
pub fn handle_path(kind: PathType, hidden: bool, include_hidden: bool, nested: bool) -> (action:
    PathAction)
    ensures
        action == path_action(kind, hidden, include_hidden, nested),
{
    if nested && !include_hidden && hidden {
        return PathAction::Skip;
    }
    match kind {
        PathType::File => {
            if !include_hidden && hidden {
                PathAction::Skip
            } else {
                PathAction::Inspect
            }
        },
        PathType::Directory => PathAction::Descend,
        _ => PathAction::Skip,
    }
}

} // verus!
