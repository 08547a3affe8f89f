//! The rules by which a file is backed up while it is rewritten.
//!
//! A backup is a copy of the file beside it, under a name made from the
//! file's own. When the backup is committed it is copied back over the file,
//! again and again until the file's modification time has moved on, so that
//! tools which watch modification times see the change. The copying itself
//! is left to the caller.
use vstd::prelude::*;
use vstd::string::StringExecFns;

verus! {

/// What the name of the backup of a file starts with: a dot, the file's stem
/// and a hyphen, or `.tmp` for a file without a stem.
pub open spec fn prefix_of(file_stem: Option<Seq<char>>) -> Seq<char> {
    match file_stem {
        Some(file_stem) => "."@ + file_stem + "-"@,
        None => ".tmp"@,
    }
}

/// What the name of the backup of a file ends with: a dot and the file's
/// extension, or nothing for a file without an extension.
pub open spec fn suffix_of(extension: Option<Seq<char>>) -> Seq<char> {
    match extension {
        Some(extension) => "."@ + extension,
        None => Seq::empty(),
    }
}

/// The stem or extension as a sequence of characters.
pub open spec fn part(name: Option<&str>) -> Option<Seq<char>> {
    match name {
        Some(name) => Some(name@),
        None => None,
    }
}

/// What the name of the backup of a file with the stem `file_stem` starts
/// with.
pub fn tempfile_prefix(file_stem: Option<&str>) -> (prefix: String)
    ensures
        prefix@ == prefix_of(part(file_stem)),
{
    match file_stem {
        Some(file_stem) => {
            let mut prefix = String::from_str(".");
            prefix.append(file_stem);
            prefix.append("-");
            prefix
        },
        None => String::from_str(".tmp"),
    }
}

/// What the name of the backup of a file with the extension `extension` ends
/// with.
pub fn tempfile_suffix(extension: Option<&str>) -> (suffix: String)
    ensures
        suffix@ == suffix_of(part(extension)),
{
    match extension {
        Some(extension) => {
            let mut suffix = String::from_str(".");
            suffix.append(extension);
            suffix
        },
        None => String::new(),
    }
}

/// Whether committing is over after an attempt to copy the backup over the
/// file. `before` is the file's modification time before the first attempt
/// and `after` the one after this attempt, where they could be read. It is
/// over when the copy failed, when a time is missing, or when the time has
/// moved on; otherwise the copy is made again.
pub fn commit_done(copied: bool, before: Option<i128>, after: Option<i128>) -> (done: bool)
    ensures
        done == (!copied || match (before, after) {
            (Some(before), Some(after)) => before < after,
            _ => true,
        }),
{
    if !copied {
        return true;
    }
    match (before, after) {
        (Some(before), Some(after)) => before < after,
        _ => true,
    }
}

} // verus!
