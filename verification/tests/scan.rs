use projects::path::ScanPath;
use projects::scanner::DirListing;
use projects::scanner::EntryInfo;
use projects::scanner::VisitDecision;
use projects::scanner::scan_git_repositories;

fn comps(s: &str) -> Vec<Vec<u8>> {
    s.split('/').filter(|c| !c.is_empty()).map(|c| c.as_bytes().to_vec()).collect()
}

fn sp(s: &str) -> ScanPath {
    ScanPath { components: comps(s) }
}

fn path_str(p: &ScanPath) -> String {
    let mut out = String::new();
    for c in &p.components {
        out.push('/');
        out.push_str(std::str::from_utf8(c).unwrap());
    }
    if out.is_empty() {
        out.push('/');
    }
    out
}

fn parent_of(p: &ScanPath) -> ScanPath {
    let mut c = p.components.clone();
    c.pop();
    ScanPath { components: c }
}

/// A directory tree held as plain data: each directory's entries as
/// (name, is_symlink, is_dir), the directories whose listing is denied, and
/// a raw-to-canonical path mapping (identity where absent).
struct SimTree<'a> {
    dirs: Vec<(&'a str, Vec<(&'a str, bool, bool)>)>,
    denied: Vec<&'a str>,
    canon: Vec<(&'a str, &'a str)>,
}

fn canonical_of(tree: &SimTree, p: &ScanPath) -> ScanPath {
    let s = path_str(p);
    for (raw, c) in &tree.canon {
        if *raw == s {
            return sp(c);
        }
    }
    ScanPath { components: p.components.clone() }
}

/// Drive one full scan over the simulated tree, exactly as a filesystem
/// caller would: pop a pending directory, report its canonical form, its
/// parent's canonical form and its listing, and repeat until done.
fn run_scan(tree: &SimTree, root: &str) -> Vec<String> {
    let root_c = canonical_of(tree, &sp(root));
    let mut sc = scan_git_repositories(root_c);
    loop {
        let cur = match sc.take_pending() {
            Some(c) => c,
            None => break,
        };
        let cur_c = canonical_of(tree, &cur);
        let par = parent_of(&cur);
        let par_c = canonical_of(tree, &par);
        let d = sc.visit(&cur, &cur_c, true, &par_c);
        if d == VisitDecision::Descend {
            let s = path_str(&cur);
            if tree.denied.iter().any(|den| *den == s) {
                sc.offer_listing(&cur, DirListing::PermissionDenied);
            } else {
                let mut es: Vec<EntryInfo> = Vec::new();
                for (dp, entries) in &tree.dirs {
                    if *dp == s {
                        for (name, sl, dir) in entries {
                            es.push(EntryInfo {
                                name: name.as_bytes().to_vec(),
                                is_symlink: *sl,
                                is_dir: *dir,
                            });
                        }
                    }
                }
                sc.offer_listing(&cur, DirListing::Entries(es));
            }
        }
    }
    sc.finish().iter().map(path_str).collect()
}

#[test]
fn single_marker_yields_canonical_parent() {
    let tree = SimTree {
        dirs: vec![
            ("/root", vec![("proj", false, true)]),
            ("/root/proj", vec![(".git", false, true), ("src", false, true)]),
            ("/root/proj/src", vec![]),
        ],
        denied: vec![],
        canon: vec![],
    };
    assert_eq!(run_scan(&tree, "/root"), vec!["/root/proj".to_string()]);
}

#[test]
fn two_repositories_sorted() {
    let tree = SimTree {
        dirs: vec![
            ("/root", vec![("proj-b", false, true), ("proj-a", false, true)]),
            ("/root/proj-a", vec![(".git", false, true)]),
            ("/root/proj-b", vec![("sub", false, true)]),
            ("/root/proj-b/sub", vec![(".git", false, true)]),
        ],
        denied: vec![],
        canon: vec![],
    };
    assert_eq!(
        run_scan(&tree, "/root"),
        vec!["/root/proj-a".to_string(), "/root/proj-b/sub".to_string()]
    );
}

#[test]
fn nested_marker_only_outer_root_marker_listed_first() {
    let tree = SimTree {
        dirs: vec![
            ("/root", vec![("outer", false, true)]),
            ("/root/outer", vec![(".git", false, true), ("vendor", false, true)]),
            ("/root/outer/vendor", vec![("inner", false, true)]),
            ("/root/outer/vendor/inner", vec![(".git", false, true)]),
        ],
        denied: vec![],
        canon: vec![],
    };
    assert_eq!(run_scan(&tree, "/root"), vec!["/root/outer".to_string()]);
}

#[test]
fn nested_marker_only_outer_root_marker_listed_last() {
    // The inner marker is reached before the outer one here; the inner root
    // is recorded first and must leave again once the outer root claims it.
    let tree = SimTree {
        dirs: vec![
            ("/root", vec![("outer", false, true)]),
            ("/root/outer", vec![("vendor", false, true), (".git", false, true)]),
            ("/root/outer/vendor", vec![("inner", false, true)]),
            ("/root/outer/vendor/inner", vec![(".git", false, true)]),
        ],
        denied: vec![],
        canon: vec![],
    };
    assert_eq!(run_scan(&tree, "/root"), vec!["/root/outer".to_string()]);
}

#[test]
fn empty_tree_yields_nothing() {
    let tree = SimTree {
        dirs: vec![("/root", vec![("a", false, true), ("b", false, true)]), (
            "/root/a",
            vec![("c", false, true)],
        ), ("/root/a/c", vec![]), ("/root/b", vec![])],
        denied: vec![],
        canon: vec![],
    };
    assert_eq!(run_scan(&tree, "/root"), Vec::<String>::new());
}

#[test]
fn symlink_is_never_followed() {
    // `link` is a symlink into a sibling tree that holds its own marker; the
    // target is found by direct traversal, and nothing through the link.
    let tree = SimTree {
        dirs: vec![
            ("/root", vec![("link", true, true), ("target", false, true)]),
            ("/root/target", vec![(".git", false, true)]),
            ("/root/link", vec![(".git", false, true)]),
        ],
        denied: vec![],
        canon: vec![("/root/link", "/root/target")],
    };
    assert_eq!(run_scan(&tree, "/root"), vec!["/root/target".to_string()]);
}

#[test]
fn permission_denied_subtree_is_empty_but_siblings_survive() {
    let tree = SimTree {
        dirs: vec![
            ("/root", vec![("secret", false, true), ("open", false, true)]),
            ("/root/secret", vec![("hidden", false, true)]),
            ("/root/secret/hidden", vec![(".git", false, true)]),
            ("/root/open", vec![(".git", false, true)]),
        ],
        denied: vec!["/root/secret"],
        canon: vec![],
    };
    assert_eq!(run_scan(&tree, "/root"), vec!["/root/open".to_string()]);
}

#[test]
fn two_paths_with_one_canonical_form_yield_one_root() {
    // Two marker parents canonicalize to the same path: the second record is
    // already covered and the result holds it once.
    let tree = SimTree {
        dirs: vec![
            ("/root", vec![("d1", false, true), ("d2", false, true)]),
            ("/root/d1", vec![(".git", false, true)]),
            ("/root/d2", vec![(".git", false, true)]),
        ],
        denied: vec![],
        canon: vec![("/root/d1", "/root/real"), ("/root/d2", "/root/real")],
    };
    assert_eq!(run_scan(&tree, "/root"), vec!["/root/real".to_string()]);
}

#[test]
fn root_that_is_itself_a_marker_claims_its_parent() {
    let tree = SimTree { dirs: vec![("/repo/.git", vec![])], denied: vec![], canon: vec![] };
    assert_eq!(run_scan(&tree, "/repo/.git"), vec!["/repo".to_string()]);
}

#[test]
fn marker_that_is_a_plain_file_is_ignored() {
    let tree = SimTree {
        dirs: vec![("/root", vec![("proj", false, true)]), ("/root/proj", vec![(
            ".git",
            false,
            false,
        )])],
        denied: vec![],
        canon: vec![],
    };
    assert_eq!(run_scan(&tree, "/root"), Vec::<String>::new());
}

#[test]
fn many_repositories_come_out_sorted_and_unique() {
    let tree = SimTree {
        dirs: vec![
            ("/root", vec![
                ("zeta", false, true),
                ("mid", false, true),
                ("alpha", false, true),
            ]),
            ("/root/zeta", vec![(".git", false, true)]),
            ("/root/mid", vec![("b", false, true), ("a", false, true)]),
            ("/root/mid/a", vec![(".git", false, true)]),
            ("/root/mid/b", vec![(".git", false, true)]),
            ("/root/alpha", vec![(".git", false, true)]),
        ],
        denied: vec![],
        canon: vec![],
    };
    let got = run_scan(&tree, "/root");
    assert_eq!(got, vec![
        "/root/alpha".to_string(),
        "/root/mid/a".to_string(),
        "/root/mid/b".to_string(),
        "/root/zeta".to_string(),
    ]);
    let mut sorted = got.clone();
    sorted.sort();
    sorted.dedup();
    assert_eq!(got, sorted);
}
