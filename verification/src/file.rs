use vstd::prelude::*;

verus! {

use vstd::string::StrSliceExecFns;
use vstd::string::StringExecFns;
use crate::strings::str_eq;

/// What kind of filesystem object an entry is.
#[derive(PartialEq, Eq, Structural, Clone, Copy, Debug)]
pub enum FileType {
    Directory,
    Executable,
    File,
    Symlink,
    Unknown,
}

/// The metadata of one filesystem entry, reduced to the values the kind
/// rules read.
#[derive(Clone, Copy, Debug)]
pub struct FileMeta {
    pub is_dir: bool,
    pub is_symlink: bool,
    pub is_file: bool,
    pub mode: u32,
}

/// The kind of an entry: a directory first, then a symbolic link, then
/// anything with an execute permission bit, then a regular file.
pub open spec fn type_of_metadata(m: FileMeta) -> FileType {
    if m.is_dir {
        FileType::Directory
    } else if m.is_symlink {
        FileType::Symlink
    } else if m.mode & 0o111 != 0 {
        FileType::Executable
    } else if m.is_file {
        FileType::File
    } else {
        FileType::Unknown
    }
}

/// Classifies one entry by its metadata.
pub fn get_type_from_metadata(metadata: &FileMeta) -> (t: FileType)
    ensures
        t == type_of_metadata(*metadata),
{
    if metadata.is_dir {
        FileType::Directory
    } else if metadata.is_symlink {
        FileType::Symlink
    } else if metadata.mode & 0o111 != 0 {
        FileType::Executable
    } else if metadata.is_file {
        FileType::File
    } else {
        FileType::Unknown
    }
}

/// The probe output with one trailing newline removed: a final `\n` is
/// dropped, and a `\r` just before it is dropped with it.
pub open spec fn trimmed_output(s: Seq<char>) -> Seq<char> {
    if s.len() > 0 && s.last() == '\n' {
        let s1 = s.drop_last();
        if s1.len() > 0 && s1.last() == '\r' {
            s1.drop_last()
        } else {
            s1
        }
    } else {
        s
    }
}

/// Removes one trailing newline, and a carriage return under it, from the
/// probe output.
pub fn trim_trailing_newline(output: &str) -> (r: String)
    ensures
        r@ == trimmed_output(output@),
{
    let n = output.unicode_len();
    let mut end: usize = n;
    if end > 0 && output.get_char(end - 1) == '\n' {
        end = end - 1;
        if end > 0 && output.get_char(end - 1) == '\r' {
            end = end - 1;
        }
    }
    let r = output.substring_char(0, end).to_owned();
    proof {
        if n > 0 && output@.last() == '\n' {
            assert(output@.subrange(0, n - 1 as int) =~= output@.drop_last());
            if n > 1 && output@.drop_last().last() == '\r' {
                assert(output@.subrange(0, n - 2 as int) =~= output@.drop_last().drop_last());
            }
        } else {
            assert(output@.subrange(0, n as int) =~= output@);
        }
    }
    r
}

/// The command that shows a selected file, decided from the file-type
/// probe's output: plain text is piped through `cat`, anything else is left
/// alone.
pub fn open_command(probe_output: &str, filename: &str) -> (r: Option<String>)
    ensures
        trimmed_output(probe_output@) == "text/plain"@ ==> (r matches Some(c) && c@ == "cat "@
            + filename@),
        trimmed_output(probe_output@) != "text/plain"@ ==> r is None,
{
    let trimmed = trim_trailing_newline(probe_output);
    if str_eq(trimmed.as_str(), "text/plain") {
        let mut c = String::from_str("cat ");
        c.append(filename);
        Some(c)
    } else {
        None
    }
}

} // verus!
