use skills_sync::commands::{split_clone_outcomes, start_batch, BatchStart};
use skills_sync::config::ConfigError;
use skills_sync::commands::{join_path, order_by_index, plan_clone_targets};

#[test]
fn order_by_index_sorts_and_keeps_items() {
    let items = vec![(2, "c"), (0, "a"), (3, "d"), (1, "b")];
    assert_eq!(order_by_index(items), vec![(0, "a"), (1, "b"), (2, "c"), (3, "d")]);
    let empty: Vec<(usize, String)> = vec![];
    assert!(order_by_index(empty).is_empty());
}

#[test]
fn order_by_index_is_stable() {
    let items = vec![(1, "x"), (0, "y"), (1, "z")];
    assert_eq!(order_by_index(items), vec![(0, "y"), (1, "x"), (1, "z")]);
}

#[test]
fn join_path_adds_one_separator() {
    assert_eq!(join_path("/base", "x", '/'), "/base/x");
    assert_eq!(join_path("/", "x", '/'), "/x");
    assert_eq!(join_path("", "x", '/'), "x");
    assert_eq!(join_path("C:\\base", "x", '\\'), "C:\\base\\x");
    assert_eq!(join_path("C:\\base\\", "x", '\\'), "C:\\base\\x");
    assert_eq!(join_path("C:/base/", "x", '\\'), "C:/base/x");
}

#[test]
fn plan_clone_targets_marks_conflicts() {
    let repos = vec![
        "https://h/a/tool.git".to_string(),
        "git@h:b/other".to_string(),
        "https://h/c/tool".to_string(),
    ];
    let plan = plan_clone_targets("/work", '/', &repos);
    assert_eq!(plan.len(), 3);
    assert_eq!(plan[0].dest, "/work/tool");
    assert_eq!(plan[1].dest, "/work/other");
    assert_eq!(plan[2].dest, "/work/tool");
    assert_eq!(
        plan.iter().map(|t| (t.index, t.conflict)).collect::<Vec<_>>(),
        vec![(0, false), (1, false), (2, true)]
    );
    assert_eq!(plan[2].repo, "https://h/c/tool");
}

#[test]
fn batch_start_checks_the_list_before_the_concurrency() {
    let mut c = skills_sync::config::Config::new();
    c.concurrency = Some(0);
    assert_eq!(start_batch(&c), Ok(BatchStart::Empty));
    c.repos.push("/r".to_string());
    assert_eq!(start_batch(&c), Err(ConfigError::ZeroConcurrency));
    c.concurrency = None;
    assert_eq!(start_batch(&c), Ok(BatchStart::Run(20)));
    c.concurrency = Some(3);
    assert_eq!(start_batch(&c), Ok(BatchStart::Run(3)));
}

#[test]
fn clone_outcomes_split_into_cloned_and_failed() {
    let ordered = vec![
        (0usize, ("u0".to_string(), "/d/a".to_string(), None)),
        (2, ("u2".to_string(), "/d/b".to_string(), Some("exit 128".to_string()))),
        (3, ("u3".to_string(), "/d/c".to_string(), None)),
    ];
    let earlier = vec![("u1".to_string(), "目标目录冲突（同名仓库）".to_string())];
    let report = split_clone_outcomes(&ordered, earlier);
    assert_eq!(report.cloned, vec!["/d/a".to_string(), "/d/c".to_string()]);
    assert_eq!(
        report.failures,
        vec![
            ("u1".to_string(), "目标目录冲突（同名仓库）".to_string()),
            ("u2".to_string(), "exit 128".to_string()),
        ]
    );
}
