use skills_sync::git_ops::parse_repo_status;
use skills_sync::git::ops::{infer_repo_dir, parse_rev_list_counts, parse_u32, RepoStatus, StatusParseError, SyncState};
use skills_sync::git::scan::{classify_dir, depth_exceeded, DirEntryInfo, DirResult, FileKind, ScanProgress};

#[test]
fn infer_repo_dir_from_urls() {
    assert_eq!(infer_repo_dir("https://github.com/user/project.git"), "project");
    assert_eq!(infer_repo_dir("git@github.com:user/project.git"), "project");
    assert_eq!(infer_repo_dir("https://github.com/user/project/"), "project");
    assert_eq!(infer_repo_dir("C:\\repos\\tool"), "tool");
    assert_eq!(infer_repo_dir("host:name"), "name");
    assert_eq!(infer_repo_dir("project"), "project");
}

#[test]
fn infer_repo_dir_falls_back_to_repo() {
    assert_eq!(infer_repo_dir(""), "repo");
    assert_eq!(infer_repo_dir("///"), "repo");
    assert_eq!(infer_repo_dir("https://example.com/.git"), "repo");
}

#[test]
fn infer_repo_dir_strips_one_git_suffix() {
    assert_eq!(infer_repo_dir("a/x.git.git"), "x.git");
    assert_eq!(infer_repo_dir("a/git"), "git");
}

#[test]
fn parse_rev_list_counts_ahead_then_behind() {
    assert_eq!(parse_rev_list_counts("0\t4\n"), Ok(RepoStatus { ahead: 0, behind: 4 }));
    assert_eq!(parse_rev_list_counts("  3 \u{3000}7 "), Ok(RepoStatus { ahead: 3, behind: 7 }));
}

#[test]
fn parse_rev_list_counts_unparsable_count_is_zero() {
    assert_eq!(parse_rev_list_counts("x 5"), Ok(RepoStatus { ahead: 0, behind: 5 }));
    assert_eq!(parse_rev_list_counts("4294967296 +2"), Ok(RepoStatus { ahead: 0, behind: 2 }));
}

#[test]
fn parse_rev_list_counts_needs_two_words() {
    assert_eq!(parse_rev_list_counts(""), Err(StatusParseError::NotTwoCounts));
    assert_eq!(parse_rev_list_counts("1"), Err(StatusParseError::NotTwoCounts));
    assert_eq!(parse_rev_list_counts("1 2 3"), Err(StatusParseError::NotTwoCounts));
}

#[test]
fn parse_u32_like_str_parse() {
    let w = |s: &str| s.chars().collect::<Vec<char>>();
    assert_eq!(parse_u32(&w("42")), Some(42));
    assert_eq!(parse_u32(&w("+42")), Some(42));
    assert_eq!(parse_u32(&w("4294967295")), Some(u32::MAX));
    assert_eq!(parse_u32(&w("4294967296")), None);
    assert_eq!(parse_u32(&w("-1")), None);
    assert_eq!(parse_u32(&w("+")), None);
    assert_eq!(parse_u32(&w("")), None);
    assert_eq!(parse_u32(&w("1a")), None);
    for s in ["0", "17", "+9", "-0", "00012", "99999999999", "1 2"] {
        assert_eq!(parse_u32(&w(s)), s.parse::<u32>().ok());
    }
}

#[test]
fn sync_state_prefers_behind() {
    assert_eq!(RepoStatus { ahead: 2, behind: 3 }.sync_state(), SyncState::Behind(3));
    assert_eq!(RepoStatus { ahead: 2, behind: 0 }.sync_state(), SyncState::Ahead(2));
    assert_eq!(RepoStatus { ahead: 0, behind: 0 }.sync_state(), SyncState::UpToDate);
    assert!(RepoStatus { ahead: 0, behind: 1 }.needs_pull());
    assert!(!RepoStatus { ahead: 5, behind: 0 }.needs_pull());
}

fn entry(name: &str, is_dir: bool, is_symlink: bool) -> DirEntryInfo {
    DirEntryInfo {
        name: name.to_string(),
        path: format!("/r/{}", name),
        kind: Some(FileKind { is_dir, is_symlink }),
    }
}

#[test]
fn depth_limit() {
    assert!(!depth_exceeded(5, None));
    assert!(!depth_exceeded(0, Some(0)));
    assert!(depth_exceeded(1, Some(0)));
}

#[test]
fn classify_repository_root() {
    let listing = vec![entry("src", true, false), entry(".git", true, false)];
    match classify_dir("/r".to_string(), 2, Some(listing)) {
        DirResult::Repo(p) => assert_eq!(p, "/r"),
        DirResult::Subdirs(_) => panic!("expected a repository"),
    }
}

#[test]
fn classify_descends_into_plain_directories() {
    let mut unknown = entry("odd", true, false);
    unknown.kind = None;
    let listing = vec![
        entry("a", true, false),
        entry("file.txt", false, false),
        entry("link", true, true),
        unknown,
        entry("b", true, false),
    ];
    match classify_dir("/r".to_string(), 1, Some(listing)) {
        DirResult::Subdirs(v) => {
            assert_eq!(v, vec![("/r/a".to_string(), 2), ("/r/b".to_string(), 2)]);
        }
        DirResult::Repo(_) => panic!("expected subdirectories"),
    }
    match classify_dir("/r".to_string(), 1, None) {
        DirResult::Subdirs(v) => assert!(v.is_empty()),
        DirResult::Repo(_) => panic!("expected nothing"),
    }
}

#[test]
fn scan_progress_records_results() {
    let mut p = ScanProgress::new();
    let step = p.record(Some(DirResult::Subdirs(vec![("/a".to_string(), 1)])));
    assert_eq!(step.spawn, vec![("/a".to_string(), 1)]);
    assert!(!step.refresh);
    let step = p.record(Some(DirResult::Repo("/a".to_string())));
    assert!(step.spawn.is_empty());
    assert!(step.refresh);
    assert_eq!(p.repos, vec!["/a".to_string()]);
    assert_eq!((p.scanned, p.found), (2, 1));
    for _ in 0..47 {
        assert!(!p.record(None).refresh);
    }
    assert!(p.record(None).refresh);
    assert_eq!(p.scanned, 50);
}

#[test]
fn inferred_dir_is_a_plain_name() {
    for url in ["", "/", "a/b/", "x:y:", "https://h/u/r.git", "r.git", "\\\\srv\\share\\"] {
        let d = infer_repo_dir(url);
        assert!(!d.is_empty());
        assert!(!d.contains('/') && !d.contains('\\') && !d.contains(':'));
    }
}

#[test]
fn older_status_names_the_repository() {
    let s = parse_repo_status("/r", "1\t2\n").ok().expect("status");
    assert_eq!((s.path.as_str(), s.ahead, s.behind), ("/r", 1, 2));
    assert!(matches!(parse_repo_status("/r", "oops"), Err(StatusParseError::NotTwoCounts)));
}

fn child(dir: &str, name: &str, is_dir: bool) -> DirEntryInfo {
    DirEntryInfo {
        name: name.to_string(),
        path: format!("{}/{}", dir, name),
        kind: Some(FileKind { is_dir, is_symlink: false }),
    }
}

fn listing_of(dir: &str) -> Option<Vec<DirEntryInfo>> {
    match dir {
        "/t" => Some(vec![child(dir, "a", true), child(dir, "b", true), child(dir, "f", false)]),
        "/t/a" => Some(vec![child(dir, ".git", true), child(dir, "inner", true)]),
        "/t/a/inner" => Some(vec![child(dir, ".git", true)]),
        "/t/b" => Some(vec![child(dir, "c", true)]),
        "/t/b/c" => Some(vec![child(dir, ".git", false)]),
        _ => None,
    }
}

fn scan_tree(max_depth: Option<usize>) -> Vec<String> {
    let mut progress = ScanProgress::new();
    let mut pending = vec![("/t".to_string(), 0usize)];
    while let Some((dir, depth)) = pending.pop() {
        let result = if depth_exceeded(depth, max_depth) {
            DirResult::Subdirs(Vec::new())
        } else {
            let listing = listing_of(&dir);
            classify_dir(dir, depth, listing)
        };
        pending.extend(progress.record(Some(result)).spawn);
    }
    let mut repos = progress.repos;
    repos.sort();
    repos
}

#[test]
fn scan_of_a_small_tree_finds_each_root_once() {
    assert_eq!(scan_tree(None), vec!["/t/a".to_string(), "/t/b/c".to_string()]);
    assert_eq!(scan_tree(Some(2)), vec!["/t/a".to_string(), "/t/b/c".to_string()]);
    assert_eq!(scan_tree(Some(1)), vec!["/t/a".to_string()]);
    assert!(scan_tree(Some(0)).is_empty());
}
