use projects::path::ScanPath;
use projects::path::bytes_lt_exec;
use projects::path::path_eq;
use projects::store::Project;
use projects::store::projects_file_path;
use projects::store::update_project_last_accessed;

fn sp(s: &str) -> ScanPath {
    ScanPath {
        components: s.split('/').filter(|c| !c.is_empty()).map(|c| c.as_bytes().to_vec()).collect(),
    }
}

fn path_str(p: &ScanPath) -> String {
    let mut out = String::new();
    for c in &p.components {
        out.push('/');
        out.push_str(std::str::from_utf8(c).unwrap());
    }
    out
}

#[test]
fn projects_file_sits_in_config_dir() {
    let cfg = sp("/home/user/.config/helix");
    let f = projects_file_path(&cfg);
    assert_eq!(path_str(&f), "/home/user/.config/helix/projects.toml");
}

#[test]
fn update_sets_first_match_only() {
    let mut projects = vec![
        Project { path: sp("/raw/one"), name: Some("one".to_string()), last_accessed: None },
        Project { path: sp("/raw/two"), name: None, last_accessed: Some(7) },
        Project { path: sp("/raw/three"), name: None, last_accessed: None },
    ];
    // Both the second and the third record canonicalize to the same path:
    // only the first of them may be touched.
    let canonical = vec![sp("/real/one"), sp("/real/same"), sp("/real/same")];
    update_project_last_accessed(&mut projects, &canonical, &sp("/real/same"), 123);
    assert_eq!(projects[0].last_accessed, None);
    assert_eq!(projects[1].last_accessed, Some(123));
    assert_eq!(projects[2].last_accessed, None);
    assert_eq!(projects[0].name, Some("one".to_string()));
    assert!(path_eq(&projects[1].path, &sp("/raw/two")));
}

#[test]
fn update_without_match_changes_nothing() {
    let mut projects = vec![Project {
        path: sp("/raw/one"),
        name: Some("one".to_string()),
        last_accessed: Some(5),
    }];
    let canonical = vec![sp("/real/one")];
    update_project_last_accessed(&mut projects, &canonical, &sp("/real/elsewhere"), 123);
    assert_eq!(projects.len(), 1);
    assert_eq!(projects[0].last_accessed, Some(5));
    assert_eq!(projects[0].name, Some("one".to_string()));
    assert!(path_eq(&projects[0].path, &sp("/raw/one")));
}

#[test]
fn update_overwrites_an_earlier_timestamp() {
    let mut projects = vec![Project { path: sp("/p"), name: None, last_accessed: Some(1) }];
    let canonical = vec![sp("/p")];
    update_project_last_accessed(&mut projects, &canonical, &sp("/p"), 99);
    assert_eq!(projects[0].last_accessed, Some(99));
}

#[test]
fn paths_order_lexicographically_by_components() {
    assert!(sp("/a/b").lt(&sp("/a/c")));
    assert!(!sp("/a/c").lt(&sp("/a/b")));
    // An ancestor sorts before everything inside it.
    assert!(sp("/a").lt(&sp("/a/b")));
    assert!(!sp("/a/b").lt(&sp("/a")));
    // Equal paths sort before neither side.
    assert!(!sp("/a/b").lt(&sp("/a/b")));
    // Component boundaries win over raw byte order: "a-b" as one component
    // versus the two components "a"/"b".
    assert!(sp("/a/b").lt(&sp("/a-b")));
}

#[test]
fn byte_order_is_strict() {
    assert!(bytes_lt_exec(&b"abc".to_vec(), &b"abd".to_vec()));
    assert!(bytes_lt_exec(&b"ab".to_vec(), &b"abc".to_vec()));
    assert!(!bytes_lt_exec(&b"abc".to_vec(), &b"abc".to_vec()));
    assert!(!bytes_lt_exec(&b"b".to_vec(), &b"a".to_vec()));
}

#[test]
fn path_equality_is_by_components() {
    assert!(path_eq(&sp("/a/b"), &sp("/a/b")));
    assert!(!path_eq(&sp("/a/b"), &sp("/a")));
    assert!(!path_eq(&sp("/a"), &sp("/a/b")));
    assert!(!path_eq(&sp("/a/b"), &sp("/a/c")));
}

#[test]
fn prefix_tests_tell_ancestors_apart() {
    assert!(sp("/a/b/c").starts_with(&sp("/a/b")));
    assert!(sp("/a/b").starts_with(&sp("/a/b")));
    assert!(!sp("/a/b").starts_with(&sp("/a/b/c")));
    assert!(!sp("/a/bb").starts_with(&sp("/a/b")));
    assert!(sp("/a/b/c").strictly_inside(&sp("/a/b")));
    assert!(!sp("/a/b").strictly_inside(&sp("/a/b")));
}
