use fsmirror::ai::parse_ai;
use fsmirror::ai::AICommand;
use fsmirror::command::parse_command;
use fsmirror::command::Command;
use fsmirror::enumerate::Enumerator;
use fsmirror::enumerate::RawEntry;
use fsmirror::system::build_fs_model;

fn raw(name: &str, size: u64, is_file: bool) -> RawEntry {
    RawEntry { name: name.to_string(), size, is_file }
}

#[test]
fn ai_payload_with_all_three_kinds() {
    let payload = r#"[
        {"delete_file": { "path": "/d/old.log" }},
        {"move_item": {"original_location": "/d/a", "new_location": "/d/b"}},
        {"create_directory": {"path": "/d/fresh"}}
    ]"#;
    let cmds = parse_ai(payload);
    assert_eq!(cmds.len(), 3);
    match &cmds[0] {
        AICommand::DeleteFile { delete_file } => assert_eq!(delete_file.path, "/d/old.log"),
        _ => panic!("expected a delete"),
    }
    match &cmds[1] {
        AICommand::MoveItem { move_item } => {
            assert_eq!(move_item.original_location, "/d/a");
            assert_eq!(move_item.new_location, "/d/b");
        },
        _ => panic!("expected a move"),
    }
    match &cmds[2] {
        AICommand::CreateDirectory { create_directory } => {
            assert_eq!(create_directory.path, "/d/fresh")
        },
        _ => panic!("expected a directory creation"),
    }
}

#[test]
fn ai_payload_field_order_is_free() {
    let payload =
        r#"[{"move_item": {"new_location": "/b", "original_location": "/a"}}]"#;
    let cmds = parse_ai(payload);
    assert_eq!(cmds.len(), 1);
    match &cmds[0] {
        AICommand::MoveItem { move_item } => {
            assert_eq!(move_item.original_location, "/a");
            assert_eq!(move_item.new_location, "/b");
        },
        _ => panic!("expected a move"),
    }
}

#[test]
fn ai_malformed_payload_yields_nothing() {
    assert_eq!(parse_ai("{not valid json").len(), 0);
    assert_eq!(parse_ai("").len(), 0);
    assert_eq!(parse_ai("[{\"delete_file\": {\"path\": 3}}]").len(), 0);
    assert_eq!(parse_ai("[{\"unknown\": {\"path\": \"/x\"}}]").len(), 0);
    assert_eq!(parse_ai("[{\"delete_file\": {\"path\": \"/x\"}}] trailing").len(), 0);
    // One bad element poisons the whole payload.
    assert_eq!(
        parse_ai("[{\"delete_file\": {\"path\": \"/x\"}}, {\"delete_file\": {}}]").len(),
        0
    );
}

#[test]
fn ai_empty_array_is_zero_suggestions() {
    assert_eq!(parse_ai("[]").len(), 0);
    assert_eq!(parse_ai("  [ ]  ").len(), 0);
}

#[test]
fn ai_unicode_escapes() {
    let payload = r#"[{"delete_file": {"path": "\u0041\u00e9"}}]"#;
    let cmds = parse_ai(payload);
    assert_eq!(cmds.len(), 1);
    match &cmds[0] {
        AICommand::DeleteFile { delete_file } => assert_eq!(delete_file.path, "A\u{e9}"),
        _ => panic!("expected a delete"),
    }
    // A surrogate pair names one supplementary character.
    let pair = r#"[{"delete_file": {"path": "\ud83d\ude00"}}]"#;
    let cmds = parse_ai(pair);
    assert_eq!(cmds.len(), 1);
    match &cmds[0] {
        AICommand::DeleteFile { delete_file } => assert_eq!(delete_file.path, "\u{1f600}"),
        _ => panic!("expected a delete"),
    }
    // A lone surrogate spoils the whole payload.
    assert_eq!(parse_ai(r#"[{"delete_file": {"path": "\ud83d"}}]"#).len(), 0);
    assert_eq!(parse_ai(r#"[{"delete_file": {"path": "\uZZZZ"}}]"#).len(), 0);
}

#[test]
fn ai_string_escapes() {
    let payload = r#"[{"delete_file": {"path": "/tmp/a\"b\\c\nd"}}]"#;
    let cmds = parse_ai(payload);
    assert_eq!(cmds.len(), 1);
    match &cmds[0] {
        AICommand::DeleteFile { delete_file } => {
            assert_eq!(delete_file.path, "/tmp/a\"b\\c\nd")
        },
        _ => panic!("expected a delete"),
    }
}

#[test]
fn command_words() {
    assert!(matches!(parse_command(" .. "), Command::Up));
    assert!(matches!(parse_command("commit"), Command::Commit));
    assert!(matches!(parse_command("status"), Command::Status));
    assert!(matches!(parse_command("display"), Command::Display));
    assert!(matches!(parse_command("help"), Command::Help));
}

#[test]
fn command_indexes() {
    assert!(matches!(parse_command("7"), Command::Down(7)));
    assert!(matches!(parse_command("del 3"), Command::Del(3)));
    assert!(matches!(parse_command("undo 0"), Command::Undo(0)));
    assert!(matches!(parse_command("open 2"), Command::Open(2)));
    match parse_command("del x") {
        Command::Error(m) => assert_eq!(m, "Invalid command"),
        _ => panic!("expected an error"),
    }
}

#[test]
fn command_paths() {
    match parse_command("go to /a/b") {
        Command::GoTo(p) => assert_eq!(p, "/a/b"),
        _ => panic!("expected a navigation"),
    }
    match parse_command("find notes") {
        Command::Find(p) => assert_eq!(p, "notes"),
        _ => panic!("expected a find"),
    }
    match parse_command("create file f.txt") {
        Command::Create(p, f) => {
            assert_eq!(p, "f.txt");
            assert!(f);
        },
        _ => panic!("expected a file creation"),
    }
    match parse_command("create folder d") {
        Command::Create(p, f) => {
            assert_eq!(p, "d");
            assert!(!f);
        },
        _ => panic!("expected a folder creation"),
    }
}

#[test]
fn command_move_needs_one_separator() {
    match parse_command("move a > b") {
        Command::Move(x, y) => {
            assert_eq!(x, "a");
            assert_eq!(y, "b");
        },
        _ => panic!("expected a move"),
    }
    assert!(matches!(parse_command("move a > b > c"), Command::Error(_)));
    assert!(matches!(parse_command("move a b"), Command::Error(_)));
}

#[test]
fn command_garbage_is_invalid() {
    match parse_command("frobnicate") {
        Command::Error(m) => assert_eq!(m, "Invalid command"),
        _ => panic!("expected an error"),
    }
}

#[test]
fn enumerator_rounds_dedup_and_skip_bundles() {
    let mut e = Enumerator::new("/r".to_string());
    let round = e.take_round();
    assert_eq!(round, vec!["/r".to_string()]);
    e.ingest(
        "/r".to_string(),
        vec![raw("a.txt", 5, true), raw("d", 0, false), raw("App.framework", 0, false)],
    );
    let round2 = e.take_round();
    // The bundle directory is remembered but never queried.
    assert_eq!(round2, vec!["/r/d".to_string()]);
    e.ingest("/r/d".to_string(), vec![raw("b.txt", 7, true)]);
    assert!(e.done());
    let round3 = e.take_round();
    assert_eq!(round3.len(), 0);
    let results = e.into_results();
    assert_eq!(results.len(), 4);
    assert_eq!(results[0].path, "/r/a.txt");
    assert_eq!(results[1].path, "/r/d");
    assert_eq!(results[2].path, "/r/App.framework");
    assert_eq!(results[3].path, "/r/d/b.txt");
}

#[test]
fn enumerator_feeds_the_builder() {
    let mut e = Enumerator::new("/r".to_string());
    let _ = e.take_round();
    e.ingest("/r".to_string(), vec![raw("a", 5, true), raw("d", 0, false)]);
    let _ = e.take_round();
    e.ingest("/r/d".to_string(), vec![raw("b", 7, true)]);
    let t = build_fs_model("/r".to_string(), e.into_results()).unwrap();
    assert_eq!(t.nodes[0].size, 12);
}

#[test]
fn enumerator_never_requeries_a_directory() {
    let mut e = Enumerator::new("/r".to_string());
    let _ = e.take_round();
    // A hard-link loop reports the same directory twice.
    e.ingest("/r".to_string(), vec![raw("d", 0, false)]);
    e.ingest("/r".to_string(), vec![raw("d", 0, false)]);
    let round = e.take_round();
    assert_eq!(round, vec!["/r/d".to_string()]);
}

use fsmirror::enumerate::parse_bulk_buffer;

fn le32(v: &mut Vec<u8>, x: u32) {
    v.extend_from_slice(&x.to_le_bytes());
}

#[test]
fn bulk_buffer_one_entry() {
    // One 43-byte record: header, attribute set announcing name, object
    // type and total size, the name reference, the two words, and the
    // NUL-terminated name bytes at offset 40.
    let mut b: Vec<u8> = Vec::new();
    le32(&mut b, 43); // record length
    le32(&mut b, 1 | 8); // commonattr: name and object type returned
    le32(&mut b, 0); // volattr
    le32(&mut b, 0); // dirattr
    le32(&mut b, 512); // fileattr: total size returned
    le32(&mut b, 0); // forkattr
    le32(&mut b, 16); // name data offset, relative to the reference
    le32(&mut b, 3); // name length
    le32(&mut b, 1); // object type: regular file
    le32(&mut b, 100); // total size
    b.extend_from_slice(b"ab\0");
    assert_eq!(b.len(), 43);
    let entries = parse_bulk_buffer(&b, 1);
    assert_eq!(entries.len(), 1);
    assert_eq!(entries[0].name, b"ab");
    assert_eq!(entries[0].size, 100);
    assert!(entries[0].is_file);
}

#[test]
fn bulk_buffer_directory_and_count() {
    let mut b: Vec<u8> = Vec::new();
    le32(&mut b, 36);
    le32(&mut b, 1 | 8);
    le32(&mut b, 0);
    le32(&mut b, 0);
    le32(&mut b, 0); // no size attribute for a directory
    le32(&mut b, 0);
    le32(&mut b, 12); // name data offset: just past the object type word
    le32(&mut b, 3);
    le32(&mut b, 2); // object type: directory
    b.extend_from_slice(b"d\0\0");
    assert_eq!(b.len(), 39);
    // Only one record is reported even though more bytes follow.
    let entries = parse_bulk_buffer(&b, 1);
    assert_eq!(entries.len(), 1);
    assert_eq!(entries[0].name, b"d");
    assert_eq!(entries[0].size, 0);
    assert!(!entries[0].is_file);
}

#[test]
fn bulk_buffer_corrupt_length_stops_quietly() {
    let mut b: Vec<u8> = Vec::new();
    le32(&mut b, 0);
    assert_eq!(parse_bulk_buffer(&b, 5).len(), 0);
    let tiny: Vec<u8> = vec![1, 2];
    assert_eq!(parse_bulk_buffer(&tiny, 1).len(), 0);
}
