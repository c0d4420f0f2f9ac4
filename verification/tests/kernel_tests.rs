use fsmirror::kernel::CommitOp;
use fsmirror::kernel::Kernel;
use fsmirror::kernel::KernelAction;
use fsmirror::system::build_fs_model;
use fsmirror::system::ScanEntry;

fn entry(path: &str, size: u64, is_file: bool) -> ScanEntry {
    ScanEntry { path: path.to_string(), size, is_file }
}

fn sample_kernel(action_file: bool, dry: bool) -> Kernel {
    let t = build_fs_model(
        "/root".to_string(),
        vec![
            entry("/root/a.txt", 100, true),
            entry("/root/sub", 0, false),
            entry("/root/sub/b.txt", 50, true),
        ],
    )
    .unwrap();
    Kernel::new(t, action_file, dry)
}

#[test]
fn format_size_binary_units() {
    let k = sample_kernel(false, false);
    assert_eq!(k.format_size(0), "0 bytes");
    assert_eq!(k.format_size(500), "500 bytes");
    assert_eq!(k.format_size(1023), "1023 bytes");
    assert_eq!(k.format_size(1024), "1.00 KB");
    assert_eq!(k.format_size(1536), "1.50 KB");
    assert_eq!(k.format_size(1024 * 1024), "1.00 MB");
    assert_eq!(k.format_size(3 * 1024 * 1024 * 1024 / 2), "1.50 GB");
    assert_eq!(k.format_size(1024 * 1024 * 1024 * 1024), "1.00 TB");
}

#[test]
fn display_lists_unmarked_children() {
    let k = sample_kernel(false, false);
    let expected = "\nCurrent Directory: /root\n\
        [0] a.txt (100 bytes [File])\n\
        [1] sub (50 bytes [Directory])\n\
        Total storage used: 150 bytes\n";
    assert_eq!(k.display(0), expected);
}

#[test]
fn display_hides_marked_but_keeps_indexes() {
    let mut k = sample_kernel(false, false);
    k.mark_for_deletion(0, 0);
    let expected = "\nCurrent Directory: /root\n\
        [1] sub (50 bytes [Directory])\n\
        Total storage used: 150 bytes\n";
    assert_eq!(k.display(0), expected);
}

#[test]
fn navigation_getters() {
    let k = sample_kernel(false, false);
    assert_eq!(k.get_parent(1), Some(0));
    assert_eq!(k.get_parent(0), None);
    // Navigation refuses files and bad indexes.
    assert_eq!(k.get_child(0, 0), None);
    assert_eq!(k.get_child(0, 1), Some(2));
    assert_eq!(k.get_child(0, 9), None);
    assert_eq!(k.get_index(0, "/root/sub".to_string()), Some(1));
    assert_eq!(k.get_index(0, "/root/zzz".to_string()), None);
}

#[test]
fn go_to_resolves_full_and_relative_paths() {
    let k = sample_kernel(false, false);
    assert_eq!(k.go_to("/root/sub/b.txt".to_string()), Some(3));
    assert_eq!(k.go_to("sub".to_string()), Some(2));
    assert_eq!(k.go_to("/root/nope".to_string()), None);
}

#[test]
fn mark_and_status_report_savings() {
    // Scenario: one pending delete of 100 bytes.
    let mut k = sample_kernel(false, false);
    k.mark_for_deletion(0, 0);
    assert!(k.tree.nodes[1].to_be_deleted);
    assert_eq!(k.actions.len(), 1);
    let expected = "The following are marked for action: \n \
        [0] DELETE: /root/a.txt (100 bytes) \n\
        Total space saved: 100 bytes";
    assert_eq!(k.get_status(), expected);
}

#[test]
fn status_is_idempotent() {
    let mut k = sample_kernel(false, false);
    k.mark_for_deletion(0, 0);
    assert_eq!(k.get_status(), k.get_status());
}

#[test]
fn commit_and_apply_remove_from_graph() {
    // Scenario: committing the delete removes a.txt and lowers root to 50.
    let mut k = sample_kernel(false, false);
    k.mark_for_deletion(0, 0);
    let (ops, audit) = k.commit_actions();
    assert_eq!(k.actions.len(), 0);
    assert_eq!(audit.len(), 0);
    assert_eq!(ops.len(), 1);
    match &ops[0] {
        CommitOp::DeleteFile { path, target } => {
            assert_eq!(path, "/root/a.txt");
            assert_eq!(*target, 1);
        },
        _ => panic!("expected a file deletion"),
    }
    k.apply_deletion(1);
    assert_eq!(k.tree.nodes[0].size, 50);
    assert!(!k.tree.nodes[0].children.contains(&1));
    // The removed node keeps its record, stale back-reference included.
    assert_eq!(k.tree.nodes[1].parent, Some(0));
}

#[test]
fn undo_restores_visibility_without_size_change() {
    // Scenario: undo at index 0 clears the mark and leaves sizes alone.
    let mut k = sample_kernel(false, false);
    k.mark_for_deletion(0, 0);
    k.undo_deletion(0);
    assert_eq!(k.actions.len(), 0);
    assert!(!k.tree.nodes[1].to_be_deleted);
    assert_eq!(k.tree.nodes[0].size, 150);
    assert!(k.display(0).contains("[0] a.txt (100 bytes [File])"));
    let expected = "The following are marked for action: \n  \n\
        Total space saved: 0 bytes";
    assert_eq!(k.get_status(), expected);
}

#[test]
fn create_queues_action_and_adds_node() {
    // Scenario: create(root, "new", false) adds an unmarked empty child.
    let mut k = sample_kernel(false, false);
    k.create(0, "new".to_string(), false);
    assert_eq!(k.actions.len(), 1);
    match &k.actions[0] {
        KernelAction::CREATE { path, is_file } => {
            assert_eq!(path, "/root/new");
            assert!(!is_file);
        },
        _ => panic!("expected a queued create"),
    }
    let new_idx = k.go_to("/root/new".to_string()).unwrap();
    assert_eq!(k.tree.nodes[new_idx].name, "new");
    assert_eq!(k.tree.nodes[new_idx].size, 0);
    assert!(!k.tree.nodes[new_idx].to_be_deleted);
    assert!(!k.tree.nodes[new_idx].is_file);
}

#[test]
fn create_synthesises_intermediate_directories() {
    let mut k = sample_kernel(false, false);
    k.create(0, "x/y/z.txt".to_string(), true);
    let x = k.go_to("/root/x".to_string()).unwrap();
    let y = k.go_to("/root/x/y".to_string()).unwrap();
    let z = k.go_to("/root/x/y/z.txt".to_string()).unwrap();
    assert!(!k.tree.nodes[x].is_file);
    assert!(!k.tree.nodes[y].is_file);
    assert!(k.tree.nodes[z].is_file);
    assert_eq!(k.tree.nodes[z].path, "/root/x/y/z.txt");
}

#[test]
fn move_item_reparents_and_rewrites_path() {
    // Scenario: moving /root/sub under a created /root/new shifts 50 bytes.
    let mut k = sample_kernel(false, false);
    k.move_item("/root/sub".to_string(), "/root/new".to_string());
    assert_eq!(k.tree.nodes[0].size, 100);
    let new_idx = k.go_to("/root/new".to_string()).unwrap();
    assert_eq!(k.tree.nodes[new_idx].size, 50);
    assert_eq!(k.tree.nodes[2].path, "/root/new/sub");
    assert_eq!(k.tree.nodes[2].name, "sub");
    assert_eq!(k.tree.nodes[2].parent, Some(new_idx));
    assert_eq!(k.actions.len(), 1);
    match &k.actions[0] {
        KernelAction::MOVE { original_path, new_path } => {
            assert_eq!(original_path, "/root/sub");
            assert_eq!(new_path, "/root/new/sub");
        },
        _ => panic!("expected a queued move"),
    }
}

#[test]
fn move_of_unresolvable_source_is_a_no_op() {
    let mut k = sample_kernel(false, false);
    k.move_item("/root/ghost".to_string(), "/root/new".to_string());
    assert_eq!(k.actions.len(), 0);
    assert_eq!(k.tree.nodes.len(), 4);
    assert_eq!(k.tree.nodes[0].size, 150);
}

#[test]
fn audit_lines_follow_the_queue() {
    let mut k = sample_kernel(true, true);
    k.create(0, "new".to_string(), false);
    k.mark_for_deletion(0, 0);
    k.move_item("/root/sub".to_string(), "/root/new".to_string());
    let (ops, audit) = k.commit_actions();
    // A dry run performs nothing but still audits everything, in order.
    assert_eq!(ops.len(), 0);
    assert_eq!(audit, vec![
        "CREATE /root/new".to_string(),
        "DELETE /root/a.txt".to_string(),
        "MOVE /root/sub > /root/new/sub".to_string(),
    ]);
}

#[test]
fn open_target_resolves_child_paths() {
    let k = sample_kernel(false, false);
    assert_eq!(k.open_target(0, 0), Some("/root/a.txt".to_string()));
    assert_eq!(k.open_target(0, 5), None);
}

#[test]
fn suggestions_round_trip_through_the_kernel() {
    let mut k = sample_kernel(false, false);
    let payload = "[{\"delete_file\": {\"path\": \"/root/a.txt\"}}, \
        {\"create_directory\": {\"path\": \"fresh\"}}]";
    k.set_suggestion(payload.to_string());
    assert_eq!(k.get_suggestion(), payload);
    k.convert_suggestions(0);
    assert_eq!(k.actions.len(), 2);
    assert!(k.tree.nodes[1].to_be_deleted);
    assert!(k.go_to("/root/fresh".to_string()).is_some());
}

#[test]
fn malformed_suggestions_apply_nothing() {
    // Scenario: a malformed payload yields zero queued actions.
    let mut k = sample_kernel(false, false);
    k.set_suggestion("{not valid json".to_string());
    k.convert_suggestions(0);
    assert_eq!(k.actions.len(), 0);
    assert_eq!(k.tree.nodes.len(), 4);
    assert!(!k.tree.nodes[1].to_be_deleted);
}

#[test]
fn recorded_paths_resolve_back() {
    // Every node's recorded path leads navigation back to that node.
    let k = sample_kernel(false, false);
    for i in 0..k.tree.nodes.len() {
        assert_eq!(k.go_to(k.tree.nodes[i].path.clone()), Some(i));
    }
}

#[test]
fn status_renders_moves_and_creates() {
    let mut k = sample_kernel(false, false);
    k.create(0, "new".to_string(), false);
    k.move_item("/root/sub".to_string(), "/root/new".to_string());
    let expected = "The following are marked for action: \n \
        [0] CREATE: /root/new\n\
        [1] MOVE: /root/sub -> /root/new/sub \n\
        Total space saved: 0 bytes";
    assert_eq!(k.get_status(), expected);
}

#[test]
fn format_size_rounds_ties_to_even() {
    let k = sample_kernel(false, false);
    // 1535/1024 = 1.4990...: rounds up.
    assert_eq!(k.format_size(1535), "1.50 KB");
    // 1176/1024 = 1.1484...: rounds up to 1.15.
    assert_eq!(k.format_size(1176), "1.15 KB");
    // 1152/1024 = 1.125 exactly: the tie goes to the even digit.
    assert_eq!(k.format_size(1152), "1.12 KB");
    // 2047/1024 = 1.9990...: the carry rolls into the integer part.
    assert_eq!(k.format_size(2047), "2.00 KB");
}
