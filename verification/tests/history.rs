use code_utils::cochange::{co_change, count_for, row_for, top_partner, CoChange, CoChangeTable};
use code_utils::history::{
    commits, modified_files, ChangedPath, CommitChangeSet, CommitRecord, HistoryMiner, MAX_COMMITS,
};
use code_utils::text::same_text;

fn changed(path: &str) -> ChangedPath {
    ChangedPath { path: path.to_string(), in_head: true }
}

fn gone(path: &str) -> ChangedPath {
    ChangedPath { path: path.to_string(), in_head: false }
}

fn commit(id: &str, paths: &[&str]) -> CommitRecord {
    CommitRecord { id: id.to_string(), diff: Some(paths.iter().map(|p| changed(p)).collect()) }
}

fn root(id: &str) -> CommitRecord {
    CommitRecord { id: id.to_string(), diff: None }
}

fn change_set(commits: &[(&str, &[&str])]) -> CommitChangeSet {
    let mut set = CommitChangeSet::new();
    for (id, files) in commits {
        set.insert(id.to_string(), files.iter().map(|f| f.to_string()).collect());
    }
    set
}

fn names(files: &[&str]) -> Vec<String> {
    files.iter().map(|f| f.to_string()).collect()
}

fn pairs(row: &[CoChange]) -> Vec<(String, usize)> {
    row.iter().map(|c| (c.path.clone(), c.count)).collect()
}

#[test]
fn single_root_commit_gives_empty_mapping() {
    let changes = commits(&vec![root("c0")]);
    assert_eq!(changes.len(), 0);
    assert!(changes.get("c0").is_none());
}

#[test]
fn root_commit_is_skipped_among_others() {
    let walk = vec![commit("c2", &["a", "b"]), commit("c1", &["a"]), root("c0")];
    let changes = commits(&walk);
    assert_eq!(changes.len(), 2);
    assert_eq!(changes.get("c2"), Some(&names(&["a", "b"])));
    assert_eq!(changes.get("c1"), Some(&names(&["a"])));
    assert_eq!(changes.get("c0"), None);
    assert_eq!(changes.entry(0).commit, "c2");
    assert_eq!(changes.entry(1).commit, "c1");
}

#[test]
fn paths_gone_from_head_do_not_count() {
    let diff = vec![changed("kept.rs"), gone("deleted.rs"), changed("also.rs")];
    assert_eq!(modified_files(&diff), names(&["kept.rs", "also.rs"]));
    assert_eq!(modified_files(&vec![gone("x")]), Vec::<String>::new());

    let walk = vec![CommitRecord { id: "c1".to_string(), diff: Some(diff) }];
    let changes = commits(&walk);
    assert_eq!(changes.get("c1"), Some(&names(&["kept.rs", "also.rs"])));
}

#[test]
fn commit_with_only_deleted_paths_keeps_an_empty_entry() {
    let walk = vec![CommitRecord { id: "c1".to_string(), diff: Some(vec![gone("x")]) }];
    let changes = commits(&walk);
    assert_eq!(changes.len(), 1);
    assert_eq!(changes.get("c1"), Some(&Vec::<String>::new()));
}

#[test]
fn walk_stops_at_the_bound() {
    assert_eq!(MAX_COMMITS, 300);
    let walk: Vec<CommitRecord> =
        (0..350).map(|n| commit(&format!("c{}", n), &["a", "b"])).collect();
    let changes = commits(&walk);
    assert_eq!(changes.len(), 300);
    assert!(changes.get("c299").is_some());
    assert!(changes.get("c300").is_none());
    assert!(changes.get("c349").is_none());

    let exact: Vec<CommitRecord> = (0..300).map(|n| commit(&format!("c{}", n), &["a"])).collect();
    assert_eq!(commits(&exact).len(), 300);
}

#[test]
fn roots_count_towards_the_bound() {
    let mut walk: Vec<CommitRecord> = (0..299).map(|n| root(&format!("r{}", n))).collect();
    walk.push(commit("kept", &["a"]));
    walk.push(commit("late", &["b"]));
    let changes = commits(&walk);
    assert_eq!(changes.len(), 1);
    assert!(changes.get("kept").is_some());
    assert!(changes.get("late").is_none());
}

#[test]
fn miner_refuses_commits_past_the_bound() {
    let mut miner = HistoryMiner::new();
    assert_eq!(miner.visited(), 0);
    for n in 0..300 {
        assert!(miner.wants_commit());
        assert!(miner.visit(&commit(&format!("c{}", n), &["a"])));
    }
    assert_eq!(miner.visited(), 300);
    assert!(!miner.wants_commit());
    assert!(!miner.visit(&commit("extra", &["z"])));
    assert_eq!(miner.visited(), 300);
    let changes = miner.finish();
    assert_eq!(changes.len(), 300);
    assert!(changes.get("extra").is_none());
}

#[test]
fn insert_replaces_the_entry_of_a_commit() {
    let mut set = CommitChangeSet::new();
    set.insert("c1".to_string(), names(&["a"]));
    set.insert("c2".to_string(), names(&["b"]));
    set.insert("c1".to_string(), names(&["c", "d"]));
    assert_eq!(set.len(), 2);
    assert_eq!(set.position("c1"), Some(0));
    assert_eq!(set.position("c2"), Some(1));
    assert_eq!(set.position("c3"), None);
    assert_eq!(set.get("c1"), Some(&names(&["c", "d"])));
    assert_eq!(set.entry(1).files, names(&["b"]));
}

#[test]
fn texts_compare_by_content() {
    assert!(same_text("a/b.rs", "a/b.rs"));
    assert!(!same_text("a/b.rs", "a/b.rS"));
    assert!(!same_text("a", "ab"));
    assert!(same_text("", ""));
    assert!(same_text("é✓", "é✓"));
}

#[test]
fn co_change_ranking() {
    let changes = change_set(&[("c3", &["A", "B"]), ("c2", &["A", "B"]), ("c1", &["A", "C"])]);
    assert_eq!(co_change(&changes, "A"), names(&["B"]));
    assert_eq!(
        pairs(&row_for(&changes, "A")),
        vec![("B".to_string(), 2), ("C".to_string(), 1)]
    );
    assert_eq!(co_change(&changes, "B"), names(&["A"]));
    assert_eq!(co_change(&changes, "C"), names(&["A"]));
}

#[test]
fn later_partner_with_higher_count_wins() {
    let changes = change_set(&[("c3", &["A", "C"]), ("c2", &["A", "B"]), ("c1", &["B", "A"])]);
    assert_eq!(
        pairs(&row_for(&changes, "A")),
        vec![("C".to_string(), 1), ("B".to_string(), 2)]
    );
    assert_eq!(co_change(&changes, "A"), names(&["B"]));
}

#[test]
fn ties_go_to_the_partner_seen_first() {
    let changes = change_set(&[("c2", &["x", "A", "y"]), ("c1", &["A", "z"])]);
    assert_eq!(co_change(&changes, "A"), names(&["x"]));
    let changes = change_set(&[("c2", &["A", "z"]), ("c1", &["y", "A", "z", "y"])]);
    assert_eq!(
        pairs(&row_for(&changes, "A")),
        vec![("z".to_string(), 2), ("y".to_string(), 1)]
    );
}

#[test]
fn unknown_file_has_no_co_change() {
    let changes = change_set(&[("c1", &["A", "B"])]);
    assert_eq!(co_change(&changes, "nowhere"), Vec::<String>::new());
    assert_eq!(co_change(&CommitChangeSet::new(), "A"), Vec::<String>::new());
}

#[test]
fn file_changed_alone_has_no_co_change() {
    let changes = change_set(&[("c2", &["A"]), ("c1", &["A", "A"])]);
    assert_eq!(co_change(&changes, "A"), Vec::<String>::new());
    assert!(row_for(&changes, "A").is_empty());
}

#[test]
fn a_file_listed_twice_in_a_commit_counts_once() {
    let changes = change_set(&[("c1", &["A", "B", "B", "A"])]);
    assert_eq!(pairs(&row_for(&changes, "A")), vec![("B".to_string(), 1)]);
    assert_eq!(pairs(&row_for(&changes, "B")), vec![("A".to_string(), 1)]);
}

#[test]
fn table_is_symmetric_without_self_pairs() {
    let changes = change_set(&[
        ("c4", &["A", "B", "C"]),
        ("c3", &["A", "B"]),
        ("c2", &["C"]),
        ("c1", &["A", "C", "D"]),
    ]);
    let table = CoChangeTable::build(&changes);
    assert_eq!(table.len(), 4);
    assert_eq!(table.entry(0).file, "A");
    assert_eq!(table.entry(3).file, "D");
    let files = ["A", "B", "C", "D", "E"];
    for a in files {
        assert_eq!(table.count_of(a, a), 0);
        for b in files {
            assert_eq!(table.count_of(a, b), table.count_of(b, a));
        }
    }
    assert_eq!(table.count_of("A", "B"), 2);
    assert_eq!(table.count_of("A", "C"), 2);
    assert_eq!(table.count_of("A", "D"), 1);
    assert_eq!(table.count_of("B", "C"), 1);
    assert_eq!(table.count_of("B", "D"), 0);
    assert_eq!(table.count_of("C", "D"), 1);
    assert_eq!(table.count_of("E", "A"), 0);
    assert_eq!(table.co_changed("A"), names(&["B"]));
    assert_eq!(table.co_changed("D"), names(&["A"]));
    assert_eq!(table.co_changed("E"), Vec::<String>::new());
    assert_eq!(table.co_changed("A"), co_change(&changes, "A"));
}

#[test]
fn row_helpers() {
    let row = vec![
        CoChange { path: "a".to_string(), count: 2 },
        CoChange { path: "b".to_string(), count: 5 },
        CoChange { path: "c".to_string(), count: 5 },
    ];
    assert_eq!(top_partner(&row), names(&["b"]));
    assert_eq!(top_partner(&Vec::new()), Vec::<String>::new());
    assert_eq!(count_for(&row, "c"), 5);
    assert_eq!(count_for(&row, "d"), 0);
}

#[test]
fn mined_changes_feed_the_ranking() {
    let walk = vec![
        commit("c3", &["lib.rs", "chunk.rs"]),
        commit("c2", &["lib.rs", "chunk.rs", "README.md"]),
        CommitRecord {
            id: "c1".to_string(),
            diff: Some(vec![changed("lib.rs"), gone("old.rs"), changed("README.md")]),
        },
        root("c0"),
    ];
    let changes = commits(&walk);
    assert_eq!(co_change(&changes, "lib.rs"), names(&["chunk.rs"]));
    assert_eq!(co_change(&changes, "old.rs"), Vec::<String>::new());
    let table = CoChangeTable::build(&changes);
    assert_eq!(table.count_of("lib.rs", "README.md"), 2);
    assert_eq!(table.count_of("lib.rs", "old.rs"), 0);
}
