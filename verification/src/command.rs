use vstd::prelude::*;

verus! {

use crate::strings::{lex_le, str_eq, str_le, lemma_lex_le_total, lemma_lex_le_transitive};
use crate::file::FileType;

/// The captured output of a finished command.
pub struct CommandResult {
    pub output: String,
    pub error_output: String,
}

impl CommandResult {
    pub fn new(output: String, error_output: String) -> (r: CommandResult)
        ensures
            r.output@ == output@,
            r.error_output@ == error_output@,
    {
        CommandResult { output, error_output }
    }
}

/// One row of the file browser: a file name and its kind.
pub struct FileEntry {
    pub filename: String,
    pub filetype: FileType,
}

/// How an input line is run, decided by its first token.
#[derive(PartialEq, Eq, Structural, Clone, Copy, Debug)]
pub enum CommandKind {
    /// No token at all: ask for a command.
    Empty,
    /// Change the working directory, then list it.
    ChangeDir,
    /// List a directory into the file browser.
    ListDir,
    /// Leave the screen and run the program in the terminal.
    Detached,
    /// Hand the whole line to the shell and capture its output.
    Shell,
}

/// The kind of handling a token list gets: by its first token, `cd` and `ls`
/// run built in, a known full-screen editor or pager runs detached, and
/// everything else goes to the shell.
pub open spec fn classify_spec(toks: Seq<Seq<char>>) -> CommandKind {
    if toks.len() == 0 {
        CommandKind::Empty
    } else if toks[0] == "cd"@ {
        CommandKind::ChangeDir
    } else if toks[0] == "ls"@ {
        CommandKind::ListDir
    } else if toks[0] == "emacs"@ || toks[0] == "vim"@ || toks[0] == "less"@ {
        CommandKind::Detached
    } else {
        CommandKind::Shell
    }
}

/// Decides how a tokenized command line is run.
pub fn classify_command(tokens: &Vec<String>) -> (k: CommandKind)
    ensures
        k == classify_spec(tokens.deep_view()),
{
    if tokens.len() == 0 {
        return CommandKind::Empty;
    }
    let first = tokens[0].as_str();
    proof {
        assert(tokens.deep_view()[0] == tokens@[0]@);
    }
    if str_eq(first, "cd") {
        CommandKind::ChangeDir
    } else if str_eq(first, "ls") {
        CommandKind::ListDir
    } else if str_eq(first, "emacs") || str_eq(first, "vim") || str_eq(first, "less") {
        CommandKind::Detached
    } else {
        CommandKind::Shell
    }
}

/// The entries are ordered by file name.
pub open spec fn sorted_by_filename(es: Seq<FileEntry>) -> bool {
    forall|i: int, j: int|
        0 <= i < j < es.len() ==> lex_le(#[trigger] es[i].filename@, #[trigger] es[j].filename@)
}

/// Sorts file entries by name.
pub fn sort_file_entries(input: Vec<FileEntry>) -> (r: Vec<FileEntry>)
    ensures
        sorted_by_filename(r@),
        r@.to_multiset() == input@.to_multiset(),
{
    let mut r: Vec<FileEntry> = Vec::new();
    let mut i: usize = 0;
    proof {
        broadcast use vstd::seq_lib::group_to_multiset_ensures;

        assert(input@.take(0) =~= Seq::<FileEntry>::empty());
        assert(r@.to_multiset() =~= input@.take(0).to_multiset());
    }
    while i < input.len()
        invariant
            i <= input@.len(),
            sorted_by_filename(r@),
            r@.to_multiset() == input@.take(i as int).to_multiset(),
        decreases input@.len() - i,
    {
        let item = FileEntry { filename: input[i].filename.clone(), filetype: input[i].filetype };
        proof {
            assert(item == input@[i as int]);
        }
        let mut p: usize = 0;
        while p < r.len() && str_le(r[p].filename.as_str(), item.filename.as_str())
            invariant
                p <= r@.len(),
                forall|k: int| 0 <= k < p ==> lex_le((#[trigger] r@[k]).filename@, item.filename@),
            decreases r@.len() - p,
        {
            p = p + 1;
        }
        proof {
            if p < r@.len() {
                lemma_lex_le_total(r@[p as int].filename@, item.filename@);
            }
            broadcast use vstd::seq_lib::group_to_multiset_ensures;

            crate::strings::lemma_insert_to_multiset(r@, p as int, item);
            assert(input@.take(i as int + 1) =~= input@.take(i as int).push(input@[i as int]));
            assert(input@.take(i as int + 1).to_multiset() =~= input@.take(
                i as int,
            ).to_multiset().insert(input@[i as int]));
        }
        let ghost old_r = r@;
        r.insert(p, item);
        proof {
            assert forall|a: int, b: int| 0 <= a < b < r@.len() implies lex_le(
                (#[trigger] r@[a]).filename@,
                (#[trigger] r@[b]).filename@,
            ) by {
                old_r.insert_ensures(p as int, item);
                if a == p && b > p {
                    assert(r@[b] == old_r[b - 1]);
                    if b - 1 > p {
                        lemma_lex_le_total(old_r[p as int].filename@, item.filename@);
                        lemma_lex_le_transitive(
                            item.filename@,
                            old_r[p as int].filename@,
                            old_r[b - 1].filename@,
                        );
                    }
                } else if a < p && b > p {
                    assert(r@[a] == old_r[a]);
                    assert(r@[b] == old_r[b - 1]);
                    if b - 1 == p {
                        lemma_lex_le_total(old_r[p as int].filename@, item.filename@);
                        lemma_lex_le_transitive(
                            old_r[a].filename@,
                            item.filename@,
                            old_r[b - 1].filename@,
                        );
                    }
                }
            }
        }
        i = i + 1;
    }
    proof {
        assert(input@.take(input@.len() as int) =~= input@);
    }
    r
}

/// Builds the file browser's rows: the entries sorted by name, with a `..`
/// directory row put first whenever the listed directory is not the
/// filesystem root.
pub fn build_file_list(entries: Vec<FileEntry>, at_root: bool) -> (r: Vec<FileEntry>)
    ensures
        at_root ==> sorted_by_filename(r@) && r@.to_multiset() == entries@.to_multiset(),
        !at_root ==> ({
            &&& r@.len() == entries@.len() + 1
            &&& r@[0].filename@ == ".."@
            &&& r@[0].filetype == FileType::Directory
            &&& sorted_by_filename(r@.drop_first())
            &&& r@.drop_first().to_multiset() == entries@.to_multiset()
        }),
{
    let mut sorted = sort_file_entries(entries);
    if !at_root {
        let parent = FileEntry {
            filename: String::from_str(".."),
            filetype: FileType::Directory,
        };
        let ghost old_sorted = sorted@;
        sorted.insert(0, parent);
        proof {
            broadcast use vstd::seq_lib::group_to_multiset_ensures;

            old_sorted.insert_ensures(0, parent);
            assert(sorted@.drop_first() =~= old_sorted);
            assert(old_sorted.to_multiset().len() == entries@.to_multiset().len());
        }
    }
    sorted
}

/// What acting on a selected file comes to: a directory is entered, a
/// regular file is opened, anything else is left alone.
#[derive(PartialEq, Eq, Structural, Clone, Copy, Debug)]
pub enum SubmitAction {
    ChangeDir,
    OpenFile,
    Nothing,
}

/// Decides what selecting an entry with the given metadata does.
pub fn submit_action(is_dir: bool, is_file: bool) -> (a: SubmitAction)
    ensures
        a == (if is_dir {
            SubmitAction::ChangeDir
        } else if is_file {
            SubmitAction::OpenFile
        } else {
            SubmitAction::Nothing
        }),
{
    if is_dir {
        SubmitAction::ChangeDir
    } else if is_file {
        SubmitAction::OpenFile
    } else {
        SubmitAction::Nothing
    }
}

/// The editor command and its arguments for editing one file: the first
/// token of the configured editor line, falling back to `vim`, with the
/// editor's remaining tokens and then the file name as arguments.
pub fn editor_invocation(editor_tokens: &Vec<String>, filename: &String) -> (r: (String, Vec<
    String,
>))
    ensures
        editor_tokens@.len() == 0 ==> r.0@ == "vim"@ && r.1.deep_view() =~= seq![filename@],
        editor_tokens@.len() > 0 ==> r.0@ == editor_tokens@[0]@ && r.1.deep_view()
            =~= editor_tokens.deep_view().drop_first().push(filename@),
{
    if editor_tokens.len() == 0 {
        let mut args: Vec<String> = Vec::new();
        args.push(filename.clone());
        proof {
            assert(args.deep_view() =~= seq![filename@]);
        }
        (String::from_str("vim"), args)
    } else {
        let command = editor_tokens[0].clone();
        let mut args: Vec<String> = Vec::new();
        let mut i: usize = 1;
        while i < editor_tokens.len()
            invariant
                1 <= i <= editor_tokens@.len(),
                args.deep_view() =~= editor_tokens.deep_view().drop_first().take(i - 1),
            decreases editor_tokens@.len() - i,
        {
            proof {
                assert(args.deep_view().len() == args@.len());
            }
            args.push(editor_tokens[i].clone());
            proof {
                assert(args.deep_view() =~= editor_tokens.deep_view().drop_first().take(
                    i as int,
                ));
            }
            i = i + 1;
        }
        proof {
            assert(args.deep_view().len() == args@.len());
        }
        args.push(filename.clone());
        proof {
            let dv = editor_tokens.deep_view();
            assert(dv.drop_first().take(dv.len() - 1) =~= dv.drop_first());
            assert(args.deep_view() =~= dv.drop_first().push(filename@));
        }
        (command, args)
    }
}

} // verus!
