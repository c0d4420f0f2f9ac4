use fsmirror::system::build_fs_model;
use fsmirror::system::build_nodes;
use fsmirror::system::disown;
use fsmirror::system::prune;
use fsmirror::system::FsTree;
use fsmirror::system::ScanEntry;

fn entry(path: &str, size: u64, is_file: bool) -> ScanEntry {
    ScanEntry { path: path.to_string(), size, is_file }
}

fn sample_tree() -> FsTree {
    // /root holds a.txt (100 bytes) and sub, which holds b.txt (50 bytes).
    build_fs_model(
        "/root".to_string(),
        vec![
            entry("/root/a.txt", 100, true),
            entry("/root/sub", 0, false),
            entry("/root/sub/b.txt", 50, true),
        ],
    )
    .unwrap()
}

#[test]
fn build_aggregates_sizes() {
    // Scenario: root.size == 150 and sub.size == 50 after the build.
    let t = sample_tree();
    assert_eq!(t.nodes[0].path, "/root");
    assert_eq!(t.nodes[0].size, 150);
    assert_eq!(t.nodes[2].name, "sub");
    assert_eq!(t.nodes[2].size, 50);
    assert_eq!(t.nodes[1].name, "a.txt");
    assert_eq!(t.nodes[1].size, 100);
    assert_eq!(t.nodes[1].parent, Some(0));
    assert_eq!(t.nodes[3].parent, Some(2));
}

#[test]
fn build_drops_orphans() {
    let (t, dropped) = build_nodes(
        "/root".to_string(),
        vec![entry("/root/a", 1, true), entry("/elsewhere/x", 2, true)],
    );
    assert_eq!(t.nodes.len(), 2);
    assert_eq!(dropped.len(), 1);
    assert_eq!(dropped[0].path, "/elsewhere/x");
}

#[test]
fn directory_own_size_is_never_used() {
    // A directory entry reporting a metadata size contributes nothing.
    let t = build_fs_model(
        "/r".to_string(),
        vec![entry("/r/d", 4096, false), entry("/r/d/f", 10, true)],
    )
    .unwrap();
    assert_eq!(t.nodes[1].size, 10);
    assert_eq!(t.nodes[0].size, 10);
}

#[test]
fn navigate_by_names() {
    let t = sample_tree();
    let comps = vec!["sub".to_string(), "b.txt".to_string()];
    assert_eq!(t.navigate(0, &comps), Some(3));
    let missing = vec!["nope".to_string()];
    assert_eq!(t.navigate(0, &missing), None);
}

#[test]
fn go_to_is_exact_and_case_sensitive() {
    let t = sample_tree();
    assert_eq!(t.go_to(0, &"sub".to_string()), Some(2));
    assert_eq!(t.go_to(0, &"SUB".to_string()), None);
    assert_eq!(t.go_to(0, &"su".to_string()), None);
}

#[test]
fn detach_updates_parent_aggregate() {
    let mut t = sample_tree();
    t.detach(2);
    assert_eq!(t.nodes[0].size, 100);
    // The stale back-reference lingers, as the weak reference would.
    assert_eq!(t.nodes[2].parent, Some(0));
    assert!(!t.nodes[0].children.contains(&2));
    // Detaching an already unlinked node changes nothing further.
    t.detach(2);
    assert_eq!(t.nodes[0].size, 100);
}

#[test]
fn attach_updates_parent_aggregate() {
    let mut t = sample_tree();
    t.detach(1);
    t.attach(1, 2);
    assert_eq!(t.nodes[2].size, 150);
    assert_eq!(t.nodes[1].parent, Some(2));
    assert!(t.nodes[2].children.contains(&1));
}

#[test]
fn disown_of_root_is_a_no_op() {
    let mut t = sample_tree();
    disown(&mut t, 0);
    assert_eq!(t.nodes[0].size, 150);
    assert_eq!(t.nodes[0].children.len(), 2);
}

#[test]
fn prune_releases_descendants() {
    let mut t = sample_tree();
    prune(&mut t, 2);
    // Every child list in the subtree is drained; back-references linger.
    assert_eq!(t.nodes[2].children.len(), 0);
    assert_eq!(t.nodes[3].children.len(), 0);
    assert_eq!(t.nodes[3].parent, Some(2));
    // Nodes outside the subtree are untouched.
    assert_eq!(t.nodes[0].children.len(), 2);
    assert_eq!(t.nodes[1].size, 100);
}

#[test]
fn remove_child_matches_by_path() {
    let mut t = sample_tree();
    t.remove_child(0, &"/root/a.txt".to_string());
    assert!(!t.nodes[0].children.contains(&1));
    assert_eq!(t.nodes[0].size, 50);
    // A path that matches nothing changes nothing.
    t.remove_child(0, &"/root/zzz".to_string());
    assert_eq!(t.nodes[0].children.len(), 1);
}

#[test]
fn populate_size_runs_bottom_up() {
    let (mut t, dropped) = build_nodes(
        "/r".to_string(),
        vec![
            entry("/r/d", 0, false),
            entry("/r/d/x", 7, true),
            entry("/r/y", 5, true),
        ],
    );
    assert_eq!(dropped.len(), 0);
    assert!(t.populate_size());
    assert_eq!(t.nodes[0].size, 12);
    assert_eq!(t.nodes[1].size, 7);
}
