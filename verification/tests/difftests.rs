use repo_commit::casecheck::{case_conflict_in_tree, check_case_conflicts};
use repo_commit::casefold::check_case_conflicts as list_case_conflicts;
use repo_commit::diff::{compute_added_files, compute_changed_files};
use repo_commit::errors::ErrorKind;
use repo_commit::hash::NodeHash;
use repo_commit::order::mercurial_mpath_comparator;
use repo_commit::path::{MPath, MPathElement};
use repo_commit::tree::Tree;

fn mp(s: &str) -> MPath {
    MPath::new(s.as_bytes()).expect("invalid path")
}

fn elem(s: &str) -> MPathElement {
    MPathElement::new(s.as_bytes().to_vec()).expect("invalid element")
}

fn h(n: u8) -> NodeHash {
    NodeHash::new(vec![n; 20])
}

fn names(paths: &[MPath]) -> Vec<String> {
    paths.iter().map(|p| String::from_utf8(p.to_vec()).unwrap()).collect()
}

#[test]
fn test_mercurial_mpath_comparator() {
    let mut paths = vec![
        "foo/bar/baz/a.test",
        "foo/bar/baz-boo/a.test",
        "foo-faz/bar/baz/a.test",
    ];

    let mut mpaths: Vec<_> = paths
        .iter()
        .map(|path| MPath::new(path.as_bytes()).expect("invalid path"))
        .collect();

    {
        mpaths.sort_unstable();
        let result: Vec<_> = mpaths
            .iter()
            .map(|mpath| String::from_utf8(mpath.to_vec()).unwrap())
            .collect();
        assert!(paths == result);
    }

    {
        paths.sort_unstable();
        mpaths.sort_unstable_by(|a, b| mercurial_mpath_comparator(a, b));
        let result: Vec<_> = mpaths
            .iter()
            .map(|mpath| String::from_utf8(mpath.to_vec()).unwrap())
            .collect();
        assert!(paths == result);
    }
}

#[test]
fn invalid_paths_are_rejected() {
    assert!(matches!(MPath::new(b""), Err(ErrorKind::InvalidPath)));
    assert!(matches!(MPath::new(b"/leading"), Err(ErrorKind::InvalidPath)));
    assert!(matches!(MPath::new(b"trailing/"), Err(ErrorKind::InvalidPath)));
    assert!(matches!(MPath::new(b"a//b"), Err(ErrorKind::InvalidPath)));
    assert!(matches!(MPath::new(b"a\0b"), Err(ErrorKind::InvalidPath)));
    assert!(MPath::new(b"just/fine.txt").is_ok());
}

/// A root tree:
///   foo/bar/baz/a.test, foo/bar/baz-boo/a.test, foo-faz/bar/baz/a.test
fn sort_fixture() -> Tree {
    let leaf = |hash: u8| Tree {
        files: vec![(elem("a.test"), h(hash))],
        dirs: vec![],
    };
    Tree {
        files: vec![],
        dirs: vec![
            (
                elem("foo"),
                Tree {
                    files: vec![],
                    dirs: vec![(
                        elem("bar"),
                        Tree {
                            files: vec![],
                            dirs: vec![
                                (elem("baz"), leaf(1)),
                                (elem("baz-boo"), leaf(2)),
                            ],
                        },
                    )],
                },
            ),
            (
                elem("foo-faz"),
                Tree {
                    files: vec![],
                    dirs: vec![(
                        elem("bar"),
                        Tree { files: vec![], dirs: vec![(elem("baz"), leaf(3))] },
                    )],
                },
            ),
        ],
    }
}

#[test]
fn changed_files_sorted_by_raw_bytes() {
    let root = sort_fixture();
    let changed = compute_changed_files(&root, None, None);
    // Raw byte comparison of the joined path bytes puts `-` (0x2d) before
    // the separator `/` (0x2f).
    assert_eq!(
        names(&changed),
        vec![
            "foo-faz/bar/baz/a.test".to_string(),
            "foo/bar/baz-boo/a.test".to_string(),
            "foo/bar/baz/a.test".to_string(),
        ]
    );
}

#[test]
fn zero_parent_reports_every_file() {
    let root = Tree {
        files: vec![(elem("top.txt"), h(1))],
        dirs: vec![(
            elem("dir"),
            Tree { files: vec![(elem("deep.txt"), h(2))], dirs: vec![] },
        )],
    };
    let changed = compute_changed_files(&root, None, None);
    assert_eq!(
        names(&changed),
        vec!["dir/deep.txt".to_string(), "top.txt".to_string()]
    );
}

#[test]
fn one_parent_reports_differences_both_ways() {
    // root: a (same), b (modified); parent also holds c (deleted).
    let root = Tree {
        files: vec![(elem("a"), h(1)), (elem("b"), h(2))],
        dirs: vec![],
    };
    let parent = Tree {
        files: vec![(elem("a"), h(1)), (elem("b"), h(9)), (elem("c"), h(3))],
        dirs: vec![],
    };
    let changed = compute_changed_files(&root, Some(&parent), None);
    assert_eq!(names(&changed), vec!["b".to_string(), "c".to_string()]);
}

#[test]
fn merge_intersection_drops_one_sided_changes() {
    // The file differs from the first parent but is identical to the
    // second: a merge must not report it.
    let root = Tree { files: vec![(elem("f"), h(1))], dirs: vec![] };
    let p1 = Tree { files: vec![(elem("f"), h(2))], dirs: vec![] };
    let p2 = Tree { files: vec![(elem("f"), h(1))], dirs: vec![] };
    let changed = compute_changed_files(&root, Some(&p1), Some(&p2));
    assert!(changed.is_empty());

    // Differing from both parents, it is reported.
    let p2b = Tree { files: vec![(elem("f"), h(3))], dirs: vec![] };
    let changed = compute_changed_files(&root, Some(&p1), Some(&p2b));
    assert_eq!(names(&changed), vec!["f".to_string()]);
}

#[test]
fn added_files_ignores_modified_and_shadowed() {
    let child = Tree {
        files: vec![(elem("kept"), h(1)), (elem("brand_new"), h(2))],
        dirs: vec![(
            elem("newdir"),
            Tree { files: vec![(elem("inner"), h(3))], dirs: vec![] },
        )],
    };
    let parent = Tree { files: vec![(elem("kept"), h(9))], dirs: vec![] };
    let mut added = names(&compute_added_files(&child, Some(&parent)));
    added.sort();
    assert_eq!(
        added,
        vec!["brand_new".to_string(), "newdir/inner".to_string()]
    );

    // Against no parent, everything is newly introduced.
    let mut added = names(&compute_added_files(&child, None));
    added.sort();
    assert_eq!(
        added,
        vec![
            "brand_new".to_string(),
            "kept".to_string(),
            "newdir/inner".to_string(),
        ]
    );
}

#[test]
fn intra_commit_case_conflict_fails() {
    // Committing `Foo.txt` and `foo.txt` together fails.
    let child = Tree {
        files: vec![(elem("Foo.txt"), h(1)), (elem("foo.txt"), h(2))],
        dirs: vec![],
    };
    let r = check_case_conflicts(&child, None);
    match r {
        Err(ErrorKind::CaseConflict(p)) => {
            let name = String::from_utf8(p.to_vec()).unwrap();
            assert!(name == "Foo.txt" || name == "foo.txt");
        }
        _ => panic!("expected a case conflict"),
    }
}

#[test]
fn against_parent_case_conflict_fails() {
    // Committing `Foo.txt` against a parent holding `foo.txt` fails.
    let child = Tree { files: vec![(elem("Foo.txt"), h(1))], dirs: vec![] };
    let parent = Tree { files: vec![(elem("foo.txt"), h(2))], dirs: vec![] };
    let r = check_case_conflicts(&child, Some(&parent));
    match r {
        Err(ErrorKind::CaseConflict(p)) => {
            assert_eq!(String::from_utf8(p.to_vec()).unwrap(), "Foo.txt");
        }
        _ => panic!("expected a case conflict"),
    }
}

#[test]
fn lone_file_without_parent_passes() {
    // Committing `Foo.txt` alone with no parent succeeds.
    let child = Tree { files: vec![(elem("Foo.txt"), h(1))], dirs: vec![] };
    assert!(check_case_conflicts(&child, None).is_ok());

    // And a parent with only unrelated names is no conflict either.
    let parent = Tree { files: vec![(elem("bar.txt"), h(2))], dirs: vec![] };
    assert!(check_case_conflicts(&child, Some(&parent)).is_ok());
}

#[test]
fn case_conflict_walk_sees_directory_levels() {
    // Adding DIR/x.txt against a parent holding dir/y.txt collides at the
    // directory level.
    let parent = Tree {
        files: vec![],
        dirs: vec![(
            elem("dir"),
            Tree { files: vec![(elem("y.txt"), h(1))], dirs: vec![] },
        )],
    };
    assert!(case_conflict_in_tree(&parent, &mp("DIR/x.txt")));
    assert!(!case_conflict_in_tree(&parent, &mp("dir/y.txt")));
    assert!(case_conflict_in_tree(&parent, &mp("dir/Y.txt")));
    assert!(!case_conflict_in_tree(&parent, &mp("other/y.txt")));
}

#[test]
fn list_case_conflicts_names_a_later_offender() {
    let paths = vec![mp("a"), mp("B/c"), mp("b/C")];
    let offender = list_case_conflicts(&paths).expect("expected a conflict");
    assert_eq!(String::from_utf8(offender.to_vec()).unwrap(), "b/C");
    assert!(list_case_conflicts(&vec![mp("a"), mp("b")]).is_none());
}

#[test]
fn changed_files_idempotent_on_same_input() {
    let root = sort_fixture();
    let parent = Tree { files: vec![(elem("other"), h(7))], dirs: vec![] };
    let first = names(&compute_changed_files(&root, Some(&parent), None));
    let second = names(&compute_changed_files(&root, Some(&parent), None));
    assert_eq!(first, second);
}
