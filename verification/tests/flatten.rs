use organize::collect::{collect_moves, collect_root_names, Entry, EntryKind, PendingMove};
use organize::flatten::{advance, apply_moves, flatten_directory, FlattenPlan, Phase};
use organize::plan::{contains_name, plan_moves, resolve_destination};
use organize::prune::{
    collect_directories, delete_empty_directories, has_leftover, is_below, prune_order,
};

fn path(parts: &[&str]) -> Vec<String> {
    parts.iter().map(|s| s.to_string()).collect()
}

fn file(parts: &[&str]) -> Entry {
    Entry { path: path(parts), kind: EntryKind::File }
}

fn dir(parts: &[&str]) -> Entry {
    Entry { path: path(parts), kind: EntryKind::Directory }
}

fn names(list: &[&str]) -> Vec<String> {
    list.iter().map(|s| s.to_string()).collect()
}

fn pending(source: &[&str], dest: &str) -> PendingMove {
    PendingMove { source: path(source), dest: dest.to_string() }
}

fn pairs(moves: &[PendingMove]) -> Vec<(Vec<String>, String)> {
    moves.iter().map(|m| (m.source.clone(), m.dest.clone())).collect()
}

/// The tree that carrying out `plan` on `entries` leaves.
fn tree_after(entries: &Vec<Entry>, plan: &FlattenPlan) -> Vec<(Vec<String>, EntryKind)> {
    apply_moves(entries, &plan.moves)
        .into_iter()
        .filter(|e| !(e.kind == EntryKind::Directory && plan.removals.contains(&e.path)))
        .map(|e| (e.path, e.kind))
        .collect()
}

fn present(tree: &[(Vec<String>, EntryKind)], parts: &[&str]) -> bool {
    tree.iter().any(|(p, _)| *p == path(parts))
}

fn count_files(tree: &[(Vec<String>, EntryKind)]) -> usize {
    tree.iter().filter(|(_, k)| *k == EntryKind::File).count()
}

fn create_test_structure() -> Vec<Entry> {
    vec![
        dir(&["subdir1"]),
        file(&["subdir1", "file1.txt"]),
        dir(&["subdir1", "subsubdir"]),
        file(&["subdir1", "subsubdir", "deep.txt"]),
        dir(&["subdir2"]),
        file(&["subdir2", "file2.txt"]),
        file(&["root.txt"]),
    ]
}

#[test]
fn test_basic_flatten() {
    let entries = create_test_structure();
    let plan = flatten_directory(&entries, false, false);
    let tree = tree_after(&entries, &plan);

    assert!(present(&tree, &["root.txt"]));
    assert!(present(&tree, &["file1.txt"]));
    assert!(present(&tree, &["deep.txt"]));
    assert!(present(&tree, &["file2.txt"]));
}

#[test]
fn basic_flatten_leaves_exactly_four_files_and_all_directories() {
    let entries = create_test_structure();
    let plan = flatten_directory(&entries, false, false);
    let tree = tree_after(&entries, &plan);

    let mut root_files: Vec<String> = tree
        .iter()
        .filter(|(p, k)| p.len() == 1 && *k == EntryKind::File)
        .map(|(p, _)| p[0].clone())
        .collect();
    root_files.sort();
    assert_eq!(root_files, names(&["deep.txt", "file1.txt", "file2.txt", "root.txt"]));
    assert_eq!(count_files(&tree), 4);
    assert!(plan.removals.is_empty());
    assert!(present(&tree, &["subdir1"]));
    assert!(present(&tree, &["subdir1", "subsubdir"]));
    assert!(present(&tree, &["subdir2"]));
    assert_eq!(
        pairs(&plan.moves),
        vec![
            (path(&["subdir1", "file1.txt"]), "file1.txt".to_string()),
            (path(&["subdir1", "subsubdir", "deep.txt"]), "deep.txt".to_string()),
            (path(&["subdir2", "file2.txt"]), "file2.txt".to_string()),
        ]
    );
}

#[test]
fn test_flatten_with_rename() {
    let entries = vec![
        dir(&["photos"]),
        dir(&["photos", "vacation"]),
        dir(&["photos", "birthday"]),
        file(&["photos", "vacation", "img1.jpg"]),
        file(&["photos", "birthday", "img1.jpg"]),
    ];
    let plan = flatten_directory(&entries, true, false);
    let tree = tree_after(&entries, &plan);

    assert!(present(&tree, &["vacation_img1.jpg"]));
    assert!(present(&tree, &["birthday_img1.jpg"]));
}

#[test]
fn test_flatten_with_delete() {
    let entries = create_test_structure();
    let plan = flatten_directory(&entries, false, true);
    let tree = tree_after(&entries, &plan);

    assert!(present(&tree, &["root.txt"]));
    assert!(present(&tree, &["file1.txt"]));
    assert!(present(&tree, &["deep.txt"]));
    assert!(present(&tree, &["file2.txt"]));

    assert!(!present(&tree, &["subdir1"]));
    assert!(!present(&tree, &["subdir2"]));
    assert_eq!(
        plan.removals,
        vec![path(&["subdir1", "subsubdir"]), path(&["subdir1"]), path(&["subdir2"])]
    );
}

#[test]
fn test_flatten_with_rename_and_delete() {
    let entries = vec![
        dir(&["a"]),
        dir(&["a", "b"]),
        dir(&["a", "b", "c"]),
        file(&["a", "b", "c", "file.txt"]),
        dir(&["x"]),
        dir(&["x", "y"]),
        file(&["x", "y", "file.txt"]),
    ];
    let plan = flatten_directory(&entries, true, true);
    let tree = tree_after(&entries, &plan);

    assert!(present(&tree, &["c_file.txt"]));
    assert!(present(&tree, &["y_file.txt"]));

    assert!(!present(&tree, &["a"]));
    assert!(!present(&tree, &["x"]));
    assert_eq!(tree.len(), 2);
}

#[test]
fn test_flatten_handles_conflicts() {
    let entries = vec![dir(&["subdir"]), file(&["file.txt"]), file(&["subdir", "file.txt"])];
    let plan = flatten_directory(&entries, false, false);
    let tree = tree_after(&entries, &plan);

    assert!(present(&tree, &["file.txt"]));
    assert!(present(&tree, &["file_1.txt"]));
    assert_eq!(
        pairs(&plan.moves),
        vec![(path(&["subdir", "file.txt"]), "file_1.txt".to_string())]
    );
}

#[test]
fn test_flatten_already_flat() {
    let entries = vec![file(&["flat.txt"])];
    let plan = flatten_directory(&entries, false, false);
    let tree = tree_after(&entries, &plan);

    assert!(present(&tree, &["flat.txt"]));
    assert!(plan.moves.is_empty());
    assert!(plan.removals.is_empty());
    assert_eq!(tree, vec![(path(&["flat.txt"]), EntryKind::File)]);
}

#[test]
fn flat_input_is_untouched_under_every_flag() {
    let entries = vec![file(&["a.txt"]), file(&["b"]), file(&["a_1.txt"])];
    for rename in [false, true] {
        for delete in [false, true] {
            let plan = flatten_directory(&entries, rename, delete);
            assert!(plan.moves.is_empty());
            assert!(plan.removals.is_empty());
            assert_eq!(tree_after(&entries, &plan).len(), 3);
        }
    }
}

#[test]
fn test_delete_empty_directories() {
    let entries = vec![dir(&["empty1"]), dir(&["empty1", "empty2"])];
    let gone = delete_empty_directories(&entries);

    assert!(gone.contains(&path(&["empty1"])));
    assert!(gone.contains(&path(&["empty1", "empty2"])));
    assert_eq!(gone, vec![path(&["empty1", "empty2"]), path(&["empty1"])]);
}

#[test]
fn test_delete_preserves_non_empty() {
    let entries = vec![dir(&["non_empty"]), file(&["non_empty", "file.txt"]), dir(&["empty"])];
    let gone = delete_empty_directories(&entries);

    assert!(!gone.contains(&path(&["non_empty"])));
    assert!(gone.contains(&path(&["empty"])));
    assert_eq!(gone, vec![path(&["empty"])]);
}

#[test]
fn a_file_deep_below_keeps_every_directory_above_it() {
    let entries = vec![
        dir(&["a"]),
        dir(&["a", "b"]),
        Entry { path: path(&["a", "b", "socket"]), kind: EntryKind::Other },
        dir(&["a", "c"]),
        dir(&["ab"]),
    ];
    let plan = flatten_directory(&entries, false, true);
    assert!(plan.moves.is_empty());
    assert_eq!(plan.removals, vec![path(&["a", "c"]), path(&["ab"])]);
}

#[test]
fn collect_skips_root_files_and_directories() {
    let entries = create_test_structure();
    for rename in [false, true] {
        let moves = collect_moves(&entries, rename);
        assert_eq!(moves.len(), 3);
        assert!(moves.iter().all(|m| m.source.len() >= 2));
        assert!(moves.iter().all(|m| m.source != path(&["root.txt"])));
    }
    assert_eq!(collect_root_names(&entries), names(&["subdir1", "subdir2", "root.txt"]));
    assert_eq!(
        collect_directories(&entries),
        vec![path(&["subdir1"]), path(&["subdir1", "subsubdir"]), path(&["subdir2"])]
    );
}

#[test]
fn rename_uses_only_the_immediate_parent() {
    let entries = vec![
        dir(&["P"]),
        dir(&["P", "Q"]),
        file(&["P", "Q", "file.ext"]),
        file(&["P", "top.ext"]),
    ];
    let moves = collect_moves(&entries, true);
    assert_eq!(
        pairs(&moves),
        vec![
            (path(&["P", "Q", "file.ext"]), "Q_file.ext".to_string()),
            (path(&["P", "top.ext"]), "P_top.ext".to_string()),
        ]
    );
    let plain = collect_moves(&entries, false);
    assert_eq!(plain[0].dest, "file.ext");
    assert_eq!(plain[1].dest, "top.ext");
}

#[test]
fn resolve_keeps_a_free_name_and_numbers_a_taken_one() {
    let taken = names(&["file.txt", "file_1.txt", "other"]);
    assert!(contains_name(&taken, &"file_1.txt".to_string()));
    assert!(!contains_name(&taken, &"file_2.txt".to_string()));
    assert_eq!(resolve_destination(&"new.txt".to_string(), &taken), "new.txt");
    assert_eq!(resolve_destination(&"file.txt".to_string(), &taken), "file_2.txt");
    assert_eq!(resolve_destination(&"other".to_string(), &taken), "other_1");
    assert_eq!(resolve_destination(&"x".to_string(), &Vec::new()), "x");
}

#[test]
fn resolve_counts_past_nine() {
    let mut taken = names(&["f.txt"]);
    for k in 1..=10 {
        taken.push(format!("f_{}.txt", k));
    }
    assert_eq!(resolve_destination(&"f.txt".to_string(), &taken), "f_11.txt");
}

#[test]
fn colliding_moves_get_distinct_names() {
    let moves = vec![
        pending(&["a", "x.txt"], "x.txt"),
        pending(&["b", "x.txt"], "x.txt"),
        pending(&["c", "x.txt"], "x.txt"),
        pending(&["c", "x_1.txt"], "x_1.txt"),
    ];
    let plan = plan_moves(&moves, &names(&["a", "b", "c"]));
    assert_eq!(
        pairs(&plan),
        vec![
            (path(&["a", "x.txt"]), "x.txt".to_string()),
            (path(&["b", "x.txt"]), "x_1.txt".to_string()),
            (path(&["c", "x.txt"]), "x_2.txt".to_string()),
            (path(&["c", "x_1.txt"]), "x_1_1.txt".to_string()),
        ]
    );
}

#[test]
fn a_move_never_takes_the_name_of_a_root_directory() {
    let entries = vec![dir(&["data"]), dir(&["inner"]), file(&["inner", "data"])];
    let plan = flatten_directory(&entries, false, false);
    assert_eq!(pairs(&plan.moves), vec![(path(&["inner", "data"]), "data_1".to_string())]);
}

#[test]
fn no_file_is_lost_under_any_flags() {
    let entries = vec![
        file(&["file.txt"]),
        file(&["file_1.txt"]),
        dir(&["a"]),
        file(&["a", "file.txt"]),
        dir(&["a", "a"]),
        file(&["a", "a", "file.txt"]),
        dir(&["b"]),
        file(&["b", "file.txt"]),
    ];
    for rename in [false, true] {
        for delete in [false, true] {
            let plan = flatten_directory(&entries, rename, delete);
            let tree = tree_after(&entries, &plan);
            assert_eq!(count_files(&tree), 5);
            assert!(present(&tree, &["file.txt"]));
            assert!(present(&tree, &["file_1.txt"]));
            let mut dests: Vec<String> = plan.moves.iter().map(|m| m.dest.clone()).collect();
            dests.sort();
            dests.dedup();
            assert_eq!(dests.len(), 3);
            assert!(!dests.contains(&"file.txt".to_string()));
            assert!(!dests.contains(&"file_1.txt".to_string()));
            assert_eq!(plan.removals.len(), if delete { 3 } else { 0 });
        }
    }
    let plain = flatten_directory(&entries, false, false);
    let got: Vec<String> = plain.moves.iter().map(|m| m.dest.clone()).collect();
    assert_eq!(got, names(&["file_2.txt", "file_3.txt", "file_4.txt"]));
    let renamed = flatten_directory(&entries, true, false);
    let got: Vec<String> = renamed.moves.iter().map(|m| m.dest.clone()).collect();
    assert_eq!(got, names(&["a_file.txt", "a_file_1.txt", "b_file.txt"]));
}

#[test]
fn prune_order_is_deepest_first_and_stable() {
    let dirs = vec![
        path(&["a"]),
        path(&["a", "b", "c"]),
        path(&["z"]),
        path(&["a", "b"]),
        path(&["m", "n", "o"]),
        path(&["m", "n"]),
        path(&["m"]),
    ];
    assert_eq!(
        prune_order(&dirs),
        vec![
            path(&["a", "b", "c"]),
            path(&["m", "n", "o"]),
            path(&["a", "b"]),
            path(&["m", "n"]),
            path(&["a"]),
            path(&["z"]),
            path(&["m"]),
        ]
    );
    assert!(prune_order(&Vec::new()).is_empty());
}

#[test]
fn below_means_a_proper_prefix_of_components() {
    assert!(is_below(&path(&["a", "b"]), &path(&["a"])));
    assert!(is_below(&path(&["a", "b", "c"]), &path(&["a"])));
    assert!(!is_below(&path(&["a"]), &path(&["a"])));
    assert!(!is_below(&path(&["ab", "c"]), &path(&["a"])));
    assert!(!is_below(&path(&["a"]), &path(&["a", "b"])));
    assert!(is_below(&path(&["a"]), &path(&[])));

    let entries = vec![dir(&["a"]), dir(&["a", "b"]), file(&["a", "b", "f"]), dir(&["c"])];
    assert!(has_leftover(&entries, &path(&["a"])));
    assert!(has_leftover(&entries, &path(&["a", "b"])));
    assert!(!has_leftover(&entries, &path(&["c"])));
}

#[test]
fn phases_follow_in_turn_and_failure_is_final() {
    assert_eq!(advance(Phase::Start, true, false), Phase::Collecting);
    assert_eq!(advance(Phase::Collecting, true, true), Phase::Moving);
    assert_eq!(advance(Phase::Moving, true, true), Phase::Pruning);
    assert_eq!(advance(Phase::Moving, true, false), Phase::Done);
    assert_eq!(advance(Phase::Pruning, true, true), Phase::Done);
    for phase in [Phase::Start, Phase::Collecting, Phase::Moving, Phase::Pruning] {
        assert_eq!(advance(phase, false, true), Phase::Failed);
        assert_eq!(advance(phase, false, false), Phase::Failed);
    }
    assert_eq!(advance(Phase::Failed, true, true), Phase::Failed);
    assert_eq!(advance(Phase::Done, false, true), Phase::Done);
}
