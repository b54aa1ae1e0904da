use manette::command::{
    build_file_list, classify_command, editor_invocation, submit_action, CommandKind,
    CommandResult, FileEntry, SubmitAction,
};
use manette::file::{get_type_from_metadata, open_command, trim_trailing_newline, FileMeta, FileType};
use manette::{Config, RunState};

fn tokens(ts: &[&str]) -> Vec<String> {
    ts.iter().map(|t| t.to_string()).collect()
}

#[test]
fn test_classify_command() {
    assert_eq!(classify_command(&tokens(&[])), CommandKind::Empty);
    assert_eq!(classify_command(&tokens(&["cd", "/tmp"])), CommandKind::ChangeDir);
    assert_eq!(classify_command(&tokens(&["ls"])), CommandKind::ListDir);
    assert_eq!(classify_command(&tokens(&["vim", "a.txt"])), CommandKind::Detached);
    assert_eq!(classify_command(&tokens(&["emacs"])), CommandKind::Detached);
    assert_eq!(classify_command(&tokens(&["less", "log"])), CommandKind::Detached);
    assert_eq!(classify_command(&tokens(&["grep", "-r", "x"])), CommandKind::Shell);
}

#[test]
fn test_build_file_list_sorts_and_adds_parent() {
    let entries = vec![
        FileEntry { filename: "b".to_string(), filetype: FileType::File },
        FileEntry { filename: "a".to_string(), filetype: FileType::Directory },
        FileEntry { filename: "c".to_string(), filetype: FileType::Executable },
    ];
    let listed = build_file_list(entries, false);
    let names: Vec<String> = listed.iter().map(|e| e.filename.clone()).collect();
    assert_eq!(
        names,
        vec!["..".to_string(), "a".to_string(), "b".to_string(), "c".to_string()]
    );
    assert_eq!(listed[0].filetype, FileType::Directory);
}

#[test]
fn test_build_file_list_at_root() {
    let entries = vec![
        FileEntry { filename: "usr".to_string(), filetype: FileType::Directory },
        FileEntry { filename: "bin".to_string(), filetype: FileType::Directory },
    ];
    let listed = build_file_list(entries, true);
    let names: Vec<String> = listed.iter().map(|e| e.filename.clone()).collect();
    assert_eq!(names, vec!["bin".to_string(), "usr".to_string()]);
}

#[test]
fn test_editor_invocation() {
    let filename = "notes.txt".to_string();
    let (cmd, args) = editor_invocation(&tokens(&[]), &filename);
    assert_eq!(cmd, "vim".to_string());
    assert_eq!(args, vec!["notes.txt".to_string()]);

    let (cmd, args) = editor_invocation(&tokens(&["emacs", "-nw"]), &filename);
    assert_eq!(cmd, "emacs".to_string());
    assert_eq!(args, vec!["-nw".to_string(), "notes.txt".to_string()]);
}

#[test]
fn test_submit_action() {
    assert_eq!(submit_action(true, false), SubmitAction::ChangeDir);
    assert_eq!(submit_action(false, true), SubmitAction::OpenFile);
    assert_eq!(submit_action(false, false), SubmitAction::Nothing);
    assert_eq!(submit_action(true, true), SubmitAction::ChangeDir);
}

#[test]
fn test_get_type_from_metadata() {
    let meta = FileMeta { is_dir: true, is_symlink: false, is_file: false, mode: 0o755 };
    assert_eq!(get_type_from_metadata(&meta), FileType::Directory);
    let meta = FileMeta { is_dir: false, is_symlink: true, is_file: false, mode: 0o755 };
    assert_eq!(get_type_from_metadata(&meta), FileType::Symlink);
    let meta = FileMeta { is_dir: false, is_symlink: false, is_file: true, mode: 0o755 };
    assert_eq!(get_type_from_metadata(&meta), FileType::Executable);
    let meta = FileMeta { is_dir: false, is_symlink: false, is_file: true, mode: 0o644 };
    assert_eq!(get_type_from_metadata(&meta), FileType::File);
    let meta = FileMeta { is_dir: false, is_symlink: false, is_file: false, mode: 0o644 };
    assert_eq!(get_type_from_metadata(&meta), FileType::Unknown);
}

#[test]
fn test_trim_trailing_newline() {
    assert_eq!(trim_trailing_newline("text/plain\n"), "text/plain".to_string());
    assert_eq!(trim_trailing_newline("text/plain\r\n"), "text/plain".to_string());
    assert_eq!(trim_trailing_newline("text/plain"), "text/plain".to_string());
    assert_eq!(trim_trailing_newline(""), String::new());
}

#[test]
fn test_open_command() {
    let cmd = open_command("text/plain\n", "notes.txt");
    assert_eq!(cmd, Some("cat notes.txt".to_string()));
    let cmd = open_command("image/png\n", "photo.png");
    assert_eq!(cmd, None);
}

#[test]
fn test_command_result_and_config() {
    let r = CommandResult::new("out".to_string(), "err".to_string());
    assert_eq!(r.output, "out".to_string());
    assert_eq!(r.error_output, "err".to_string());
    let c = Config::new(true);
    assert!(c.debug);
    let s = RunState::new("/home".to_string());
    assert_eq!(s.current_dir, "/home".to_string());
}
