use manette::autocomplete::{
    autocomplete, autocomplete_path, build_command_arguments, dedup_choices, directory_from_path,
    executables_in_path_with_prefix, get_completion_type, path_full_completion, path_to_name,
    sort_choices, CommandArguments, CompletionChoice, CompletionType, DirEntry,
};

fn file(name: &str) -> DirEntry {
    DirEntry { name: name.to_string(), is_dir: false, mode: 0o644 }
}

fn dir(name: &str) -> DirEntry {
    DirEntry { name: name.to_string(), is_dir: true, mode: 0o755 }
}

fn choice(label: &str, completion: &str) -> CompletionChoice {
    CompletionChoice { label: label.to_string(), completion: completion.to_string() }
}

fn ls_args(arguments: Vec<&str>) -> CommandArguments {
    CommandArguments {
        command: "ls".to_string(),
        arguments: arguments.into_iter().map(|a| a.to_string()).collect(),
    }
}

#[test]
fn test_directory_from_path() {
    assert_eq!(
        directory_from_path(&String::from("a/b/c/d")),
        Some(String::from("a/b/c/"))
    );
    assert_eq!(directory_from_path(&String::from("abcd")), None);
}

#[test]
fn test_path_to_name() {
    assert_eq!(path_to_name("tmp", true), String::from("tmp/"));
    assert_eq!(path_to_name("notes.txt", false), String::from("notes.txt"));
}

#[test]
fn test_autocomplete_path() {
    let test_args = ls_args(vec![]);
    let listing = vec![file("a"), file("b")];
    let mut results = autocomplete_path(&test_args, &listing);
    results = sort_choices(results);
    let mut expected_results = vec![choice("a", "ls a"), choice("b", "ls b")];
    assert_eq!(results, expected_results);

    // add a directory in completion choices
    let listing = vec![file("a"), file("b"), dir("dir")];
    let mut results = autocomplete_path(&test_args, &listing);
    results = sort_choices(results);
    expected_results.push(choice("dir/", "ls dir/"));
    assert_eq!(results, expected_results);

    // list files in subdir
    let test_args = ls_args(vec!["dir/"]);
    let sub_listing = vec![file("a"), file("b")];
    let mut results = autocomplete_path(&test_args, &sub_listing);
    results = sort_choices(results);
    let expected_results = vec![choice("dir/a", "ls dir/a"), choice("dir/b", "ls dir/b")];
    assert_eq!(results, expected_results);
}

#[test]
fn test_autocomplete_path_completions_exact() {
    // the full replacement lines, not only the labels
    let test_args = ls_args(vec![]);
    let listing = vec![file("a"), file("b"), dir("dir")];
    let results = sort_choices(autocomplete_path(&test_args, &listing));
    let full: Vec<(String, String)> =
        results.into_iter().map(|c| (c.label, c.completion)).collect();
    assert_eq!(
        full,
        vec![
            ("a".to_string(), "ls a".to_string()),
            ("b".to_string(), "ls b".to_string()),
            ("dir/".to_string(), "ls dir/".to_string()),
        ]
    );
}

#[test]
fn test_autocomplete_path_absolute() {
    let test_dir = String::from("/tmp/manette-sub/test");
    let test_args = ls_args(vec![&format!("{}/", test_dir)]);
    let listing = vec![file("a"), file("b")];
    let mut results = autocomplete_path(&test_args, &listing);
    results = sort_choices(results);
    let expected_results = vec![
        choice(&format!("{}/a", test_dir), &format!("ls {}/a", test_dir)),
        choice(&format!("{}/b", test_dir), &format!("ls {}/b", test_dir)),
    ];
    assert_eq!(results, expected_results);
}

#[test]
fn test_autocomplete_path_root() {
    // completing "/tm" against the filesystem root offers "/tmp/"
    let test_args = ls_args(vec!["/tm"]);
    let root_listing = vec![dir("tmp"), dir("usr"), file("vmlinuz")];
    let mut results = autocomplete_path(&test_args, &root_listing);
    results = sort_choices(results);
    let expected_results = vec![choice("/tmp/", "ls /tmp/")];
    assert_eq!(results, expected_results);
    assert_eq!(results[0].completion, "ls /tmp/".to_string());
}

#[test]
fn test_completion_mode_by_space() {
    // no space: executable completion
    let args = build_command_arguments("ls");
    assert_eq!(get_completion_type(&args), CompletionType::Executable);
    assert_eq!(args.command, "ls".to_string());
    assert!(args.arguments.is_empty());

    // one trailing space: path completion with an empty prefix
    let args = build_command_arguments("ls ");
    assert_eq!(get_completion_type(&args), CompletionType::File);
    assert_eq!(args.arguments, vec![String::new()]);

    // a real argument: path completion
    let args = build_command_arguments("ls -l");
    assert_eq!(get_completion_type(&args), CompletionType::File);
    assert_eq!(args.arguments, vec!["-l".to_string()]);

    // consecutive spaces keep their empty tokens
    let args = build_command_arguments("ls  x");
    assert_eq!(args.arguments, vec![String::new(), "x".to_string()]);
}

#[test]
fn test_mode_switch_is_space_based() {
    // a tab is whitespace but not a space, so the mode stays executable
    let args = build_command_arguments("ls");
    assert_eq!(get_completion_type(&args), CompletionType::Executable);
    let args = build_command_arguments("ls\td");
    assert_eq!(get_completion_type(&args), CompletionType::Executable);
    assert_eq!(args.command, "ls\td".to_string());
}

#[test]
fn test_executables_keep_permission_bits_only() {
    let listing = vec![
        DirEntry { name: "prog".to_string(), is_dir: false, mode: 0o755 },
        DirEntry { name: "prose".to_string(), is_dir: false, mode: 0o644 },
        DirEntry { name: "proxy".to_string(), is_dir: false, mode: 0o100 },
        DirEntry { name: "group-run".to_string(), is_dir: false, mode: 0o010 },
        DirEntry { name: "other-run".to_string(), is_dir: false, mode: 0o001 },
        DirEntry { name: "unrelated".to_string(), is_dir: false, mode: 0o777 },
    ];
    let results = executables_in_path_with_prefix(&listing, "pro");
    let labels: Vec<String> = results.iter().map(|c| c.label.clone()).collect();
    assert_eq!(labels, vec!["prog".to_string(), "proxy".to_string()]);
    for c in &results {
        assert_eq!(c.label, c.completion);
    }
}

#[test]
fn test_autocomplete_executable_dedup() {
    // the same program in two search directories appears once, sorted
    let bin = vec![
        DirEntry { name: "cargo".to_string(), is_dir: false, mode: 0o755 },
        DirEntry { name: "cat".to_string(), is_dir: false, mode: 0o755 },
    ];
    let usr_bin = vec![
        DirEntry { name: "cat".to_string(), is_dir: false, mode: 0o755 },
        DirEntry { name: "carve".to_string(), is_dir: false, mode: 0o644 },
    ];
    let exec_dirs = vec![bin, usr_bin];
    let results = autocomplete("ca", &exec_dirs, &None).unwrap();
    let labels: Vec<String> = results.iter().map(|c| c.label.clone()).collect();
    assert_eq!(labels, vec!["cargo".to_string(), "cat".to_string()]);
}

#[test]
fn test_autocomplete_path_mode_unreadable_dir() {
    // path mode with no readable directory yields no choice set at all
    let result = autocomplete("ls dir/", &Vec::new(), &None);
    assert!(result.is_none());
}

#[test]
fn test_autocomplete_path_mode_end_to_end() {
    let listing = vec![file("b"), file("a"), dir("dir")];
    let results = autocomplete("ls ", &Vec::new(), &Some(listing)).unwrap();
    let labels: Vec<String> = results.iter().map(|c| c.label.clone()).collect();
    assert_eq!(
        labels,
        vec!["a".to_string(), "b".to_string(), "dir/".to_string()]
    );
    assert_eq!(results[2].completion, "ls dir/".to_string());
}

#[test]
fn test_sort_and_dedup_choices() {
    let choices = vec![
        choice("pear", "x pear"),
        choice("apple", "x apple"),
        choice("pear", "y pear"),
        choice("fig", "x fig"),
    ];
    let sorted = sort_choices(choices);
    let labels: Vec<String> = sorted.iter().map(|c| c.label.clone()).collect();
    assert_eq!(
        labels,
        vec![
            "apple".to_string(),
            "fig".to_string(),
            "pear".to_string(),
            "pear".to_string(),
        ]
    );
    let unique = dedup_choices(&sorted);
    let labels: Vec<String> = unique.iter().map(|c| c.label.clone()).collect();
    assert_eq!(
        labels,
        vec!["apple".to_string(), "fig".to_string(), "pear".to_string()]
    );
}

#[test]
fn test_path_full_completion() {
    let args = ls_args(vec!["dir/", "d"]);
    let line = path_full_completion(&args, "dir/a".to_string());
    assert_eq!(line, "ls dir/ dir/a".to_string());

    let args = ls_args(vec![]);
    let line = path_full_completion(&args, "a".to_string());
    assert_eq!(line, "ls a".to_string());
}

#[test]
fn test_to_line() {
    let args = ls_args(vec!["-l", "src"]);
    assert_eq!(args.to_line(), "ls -l src".to_string());
}
