use medit::path_complete::{
    complete, separator_should_autotrigger, split_candidate, DirEntry, DirRequest, PathCompletion,
    PathStep, Split,
};

fn split(s: &str) -> Split {
    split_candidate(s.as_bytes(), 0, '/')
}

#[test]
fn split_unix_separator() {
    let sp = split("/home/user/fi");
    assert_eq!(sp.dir, "/home/user");
    assert!(sp.had_sep);
    assert_eq!(sp.partial, "fi");
    assert_eq!(sp.sep, '/');
    assert_eq!(sp.anchor, "/home/user/".len());
}

#[test]
fn split_windows_separator() {
    let sp = split("C:\\Users\\me\\fi");
    assert_eq!(sp.dir, "C:\\Users\\me");
    assert!(sp.had_sep);
    assert_eq!(sp.partial, "fi");
    assert_eq!(sp.sep, '\\');
}

#[test]
fn split_no_separator_is_cwd() {
    let sp = split("fi");
    assert!(!sp.had_sep);
    assert_eq!(sp.partial, "fi");
    assert_eq!(sp.anchor, 0);
}

#[test]
fn split_partial_keeps_spaces() {
    let sp = split("/home/my fi");
    assert_eq!(sp.dir, "/home");
    assert_eq!(sp.partial, "my fi");
}

/// A tree of directories: each with its path, its files and its directories.
type Listing<'a> = &'a [(&'a str, &'a [&'a str], &'a [&'a str])];

/// What a directory holds; nothing where there is no such directory.
fn listing(tree: Listing, path: &str) -> Vec<DirEntry> {
    let mut out = Vec::new();
    for (dir, files, dirs) in tree {
        if *dir == path {
            for f in *files {
                out.push(DirEntry { name: f.to_string(), is_dir: false });
            }
            for d in *dirs {
                out.push(DirEntry { name: d.to_string(), is_dir: true });
            }
        }
    }
    out
}

/// Completes at the end of `line`, reading the directories that are asked for
/// out of `tree`. "." is the working directory and "~" the home directory.
fn complete_in(tree: Listing, line: &str) -> Option<PathCompletion> {
    let mut read: Vec<Vec<DirEntry>> = Vec::new();
    loop {
        match complete(line.as_bytes(), line.len(), '/', &read) {
            PathStep::Done(r) => return r,
            PathStep::Read(DirRequest::Current) => read.push(listing(tree, ".")),
            PathStep::Read(DirRequest::Root(sep)) => read.push(listing(tree, &sep.to_string())),
            PathStep::Read(DirRequest::Home(rest)) => {
                read.push(listing(tree, &format!("~/{}", rest)))
            }
            PathStep::Read(DirRequest::Named(dir)) => read.push(listing(tree, &dir)),
        }
    }
}

fn labels(pc: &PathCompletion) -> Vec<String> {
    pc.items.iter().map(|i| i.label.clone()).collect()
}

#[test]
fn completes_files_in_dir() {
    let dir = "/tmp/files";
    let tree: Listing = &[(dir, &["file1.txt", "file2.txt", "other.md"], &[])];

    let line = format!("cat {}/fi", dir);
    let pc = complete_in(tree, &line).expect("some completion");
    assert_eq!(pc.prefix, "fi");
    assert_eq!(pc.quote, None);
    // anchor sits at the start of "fi"
    assert_eq!(&line[pc.anchor..], "fi");
    let mut ls = labels(&pc);
    ls.sort();
    assert_eq!(ls, vec!["file1.txt", "file2.txt"]);
}

#[test]
fn directory_entries_get_trailing_separator_and_sort_first() {
    let dir = "/tmp/dirs";
    let tree: Listing = &[(dir, &["apple_file"], &["apple_dir"])];

    let line = format!("{}/apple", dir);
    let pc = complete_in(tree, &line).expect("some completion");
    assert_eq!(
        labels(&pc),
        vec!["apple_dir/".to_string(), "apple_file".to_string()]
    );
    // Directory item descends on accept.
    assert_eq!(pc.items[0].insert_text, "apple_dir/");
}

#[test]
fn resolves_path_with_spaces_by_expanding_left() {
    let dir = "/tmp/with space";
    let tree: Listing = &[(dir, &["report.txt"], &[])];
    assert!(dir.contains(' '));

    // The directory part itself contains a space; the nearest word
    // ("space/re") won't resolve, so it must expand left to pick up the
    // whole "...with space" directory.
    let line = format!("cat {}/re", dir);
    let pc = complete_in(tree, &line).expect("some completion");
    assert_eq!(pc.prefix, "re");
    assert_eq!(labels(&pc), vec!["report.txt".to_string()]);
    assert_eq!(&line[pc.anchor..], "re");
}

#[test]
fn empty_partial_after_trailing_separator_lists_all() {
    let dir = "/tmp/trailing";
    let tree: Listing = &[(dir, &["a.txt", "b.txt"], &[])];

    let line = format!("{}/", dir);
    let pc = complete_in(tree, &line).expect("some completion");
    assert_eq!(pc.prefix, "");
    assert_eq!(pc.anchor, line.len());
    let mut ls = labels(&pc);
    ls.sort();
    assert_eq!(ls, vec!["a.txt", "b.txt"]);
}

#[test]
fn no_prefix_lists_current_directory() {
    // An empty buffer means an empty token.
    let tree: Listing = &[(".", &["Cargo.toml"], &["src"])];
    let pc = complete_in(tree, "").expect("cwd listing");
    assert_eq!(pc.prefix, "");
    assert_eq!(pc.anchor, 0);
    assert!(pc.items.iter().any(|i| i.label == "Cargo.toml"));
}

#[test]
fn empty_token_after_space_lists_current_directory() {
    let line = "cat ";
    let tree: Listing = &[(".", &["Cargo.toml"], &["src"])];
    let pc = complete_in(tree, line).expect("cwd listing");
    assert_eq!(pc.prefix, "");
    assert_eq!(pc.anchor, line.len());
    assert!(pc.items.iter().any(|i| i.label == "Cargo.toml"));
}

fn autotrig(s: &str) -> bool {
    separator_should_autotrigger(s.as_bytes(), s.len())
}

#[test]
fn autotrigger_fires_after_path_character() {
    assert!(autotrig("./"));
    assert!(autotrig("../"));
    assert!(autotrig("~/"));
    assert!(autotrig("src/"));
    assert!(autotrig("a/b/"));
    assert!(autotrig("foo\\")); // windows separator
}

#[test]
fn autotrigger_suppressed_after_whitespace_or_start() {
    assert!(!autotrig("cat /")); // space before
    assert!(!autotrig("x\t/")); // tab before
    assert!(!autotrig("/")); // buffer start, nothing before
    assert!(!autotrig("a\n/")); // line start (newline before)
    assert!(!autotrig("abc")); // not a separator at all
    assert!(!autotrig("")); // empty
}

#[test]
fn completes_inside_double_quotes() {
    let dir = "/tmp/dquote";
    let tree: Listing = &[(dir, &["file1.txt", "file2.txt"], &[])];

    let line = format!("see \"{}/fi", dir);
    let pc = complete_in(tree, &line).expect("some completion");
    assert_eq!(pc.prefix, "fi");
    assert_eq!(pc.quote, Some('"'));
    // Replacement starts at the partial, leaving the quote and dir intact.
    assert_eq!(&line[pc.anchor..], "fi");
    let mut ls = labels(&pc);
    ls.sort();
    assert_eq!(ls, vec!["file1.txt", "file2.txt"]);
}

#[test]
fn completes_inside_single_quotes_with_spaces() {
    // Single-quoted path whose directory contains a space: the quote
    // bounds the path, so the whole region resolves without look-back.
    let dir = "/tmp/squote space";
    let tree: Listing = &[(dir, &["report.txt"], &[])];

    let line = format!("open '{}/re", dir);
    let pc = complete_in(tree, &line).expect("some completion");
    assert_eq!(pc.prefix, "re");
    assert_eq!(pc.quote, Some('\''));
    assert_eq!(labels(&pc), vec!["report.txt".to_string()]);
}

#[test]
fn completes_inside_backticks() {
    let dir = "/tmp/backtick";
    let tree: Listing = &[(dir, &[], &["assets"])];

    let line = format!("see `{}/as", dir);
    let pc = complete_in(tree, &line).expect("some completion");
    assert_eq!(labels(&pc), vec!["assets/".to_string()]);
}

#[test]
fn quote_falls_back_to_unquoted_path() {
    // An apostrophe in prose must not block a following real path.
    let dir = "/tmp/fallback";
    let tree: Listing = &[(dir, &["notes.md"], &[])];

    let line = format!("it's {}/no", dir);
    let pc = complete_in(tree, &line).expect("some completion");
    assert_eq!(labels(&pc), vec!["notes.md".to_string()]);
    // Resolved via the unquoted fallback, so no auto-close quote.
    assert_eq!(pc.quote, None);
}

#[test]
fn path_complete_no_match_returns_none() {
    let dir = "/tmp/nomatch";
    let tree: Listing = &[(dir, &["file.txt"], &[])];
    let line = format!("{}/zzz", dir);
    assert!(complete_in(tree, &line).is_none());
}

#[test]
fn home_root_and_hidden_names() {
    let tree: Listing = &[
        ("~/", &["notes", ".profile"], &[]),
        ("~/docs", &["a.md"], &[]),
        ("/", &[], &["etc"]),
    ];
    assert_eq!(labels(&complete_in(tree, "~/").unwrap()), vec!["notes"]);
    assert_eq!(labels(&complete_in(tree, "~/.").unwrap()), vec![".profile"]);
    assert_eq!(labels(&complete_in(tree, "x ~/docs/").unwrap()), vec!["a.md"]);
    assert_eq!(labels(&complete_in(tree, "/E").unwrap()), vec!["etc/"]);
    // What stands behind the cursor is no place to complete at.
    assert!(matches!(complete(b"ab", 9, '/', &[]), PathStep::Done(None)));
}
