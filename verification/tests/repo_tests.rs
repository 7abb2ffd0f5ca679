use skills_sync::config::{Config, ConfigError};
use skills_sync::repo::{add_repo, add_repos, remove_repos, AddOutcome, ResolvedPath};

fn ok(input: &str, abs: &str) -> ResolvedPath {
    ResolvedPath { input: input.to_string(), canonical: Ok(abs.to_string()) }
}

fn err(input: &str, e: &str) -> ResolvedPath {
    ResolvedPath { input: input.to_string(), canonical: Err(e.to_string()) }
}

fn with_repos(repos: &[&str]) -> Config {
    let mut c = Config::new();
    c.repos = repos.iter().map(|s| s.to_string()).collect();
    c
}

#[test]
fn add_repos_deduplicates() {
    let mut c = with_repos(&["/a"]);
    let s = add_repos(
        &mut c,
        vec![ok("a", "/a"), ok("b", "/b"), ok("b", "/b"), ok("./b", "/b"), err("zz", "No such file")],
    );
    assert_eq!(c.repos, vec!["/a", "/b"]);
    assert_eq!((s.added, s.already), (1, 2));
    assert_eq!(s.failed, vec![("zz".to_string(), "找不到指定的路径: No such file".to_string())]);
}

#[test]
fn add_repos_skips_repeated_inputs_even_if_failed() {
    let mut c = Config::new();
    let s = add_repos(&mut c, vec![err("x", "e"), err("x", "e")]);
    assert_eq!(s.failed.len(), 1);
    assert_eq!((s.added, s.already), (0, 0));
    assert!(c.repos.is_empty());
}

#[test]
fn add_repos_keeps_order_and_appends() {
    let mut c = with_repos(&["/z", "/y"]);
    let s = add_repos(&mut c, vec![ok("b", "/b"), ok("a", "/a")]);
    assert_eq!(c.repos, vec!["/z", "/y", "/b", "/a"]);
    assert_eq!(s.added, 2);
}

#[test]
fn remove_repos_counts_removed_and_missing() {
    let mut c = with_repos(&["/a", "/b", "/c", "/b"]);
    let s = remove_repos(&mut c, vec![ok("b", "/b"), ok("d", "/d"), ok("b2", "/b"), err("q", "gone")]);
    assert_eq!(c.repos, vec!["/a", "/c"]);
    assert_eq!((s.removed, s.missing), (1, 2));
    assert_eq!(s.failed, vec![("q".to_string(), "找不到指定的路径: gone".to_string())]);
}

#[test]
fn add_repo_single() {
    let mut c = Config::new();
    assert_eq!(add_repo(&mut c, "r".to_string(), Ok("/r".to_string())), Ok(AddOutcome::Added));
    assert_eq!(
        add_repo(&mut c, "./r".to_string(), Ok("/r".to_string())),
        Ok(AddOutcome::AlreadyListed)
    );
    assert_eq!(c.repos, vec!["/r"]);
    assert_eq!(
        add_repo(&mut c, "nope".to_string(), Err("missing".to_string())),
        Err(("nope".to_string(), "找不到指定的路径: missing".to_string()))
    );
    assert_eq!(c.repos, vec!["/r"]);
}

#[test]
fn config_add_repo_method() {
    let mut c = Config::new();
    assert!(c.add_repo("/x".to_string()));
    assert!(!c.add_repo("/x".to_string()));
    assert_eq!(c.repos, vec!["/x"]);
}

#[test]
fn concurrency_default_and_set() {
    let mut c = Config::new();
    assert_eq!(c.get_concurrency(), 20);
    assert_eq!(c.set_concurrency(0), Err(ConfigError::ZeroConcurrency));
    assert_eq!(c.get_concurrency(), 20);
    assert_eq!(c.set_concurrency(5), Ok(()));
    assert_eq!(c.get_concurrency(), 5);
    assert_eq!(c.usable_concurrency(), Ok(5));
    c.concurrency = Some(0);
    assert_eq!(c.usable_concurrency(), Err(ConfigError::ZeroConcurrency));
}

#[test]
fn config_default_is_empty() {
    let c = Config::default();
    assert!(c.repos.is_empty());
    assert!(c.concurrency.is_none());
    assert!(c.ssh_private_key_fallback.is_none());
}

#[test]
fn add_then_remove_restores_list() {
    let mut c = with_repos(&["/keep1", "/keep2"]);
    let batch = || vec![ok("n1", "/new1"), ok("n2", "/new2"), err("bad", "e"), ok("n1", "/new1")];
    let s = add_repos(&mut c, batch());
    assert_eq!(s.added, 2);
    assert_eq!(c.repos, vec!["/keep1", "/keep2", "/new1", "/new2"]);
    let r = remove_repos(&mut c, batch());
    assert_eq!(r.removed, 2);
    assert_eq!(c.repos, vec!["/keep1", "/keep2"]);
}

#[test]
fn every_distinct_input_reported_once() {
    let mut c = with_repos(&["/a"]);
    let s = add_repos(&mut c, vec![ok("a", "/a"), ok("b", "/b"), err("c", "x"), ok("a", "/a"), ok("b", "/b")]);
    assert_eq!(s.added + s.already + s.failed.len(), 3);
}
