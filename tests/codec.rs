use scratch_notes::codec::{abs_path_from_id, id_from_abs_path, InvalidId};

#[test]
fn encode_plain_and_nested() {
    assert_eq!(id_from_abs_path("/notes", "/notes/a.md"), Some("a".to_string()));
    assert_eq!(id_from_abs_path("/notes/", "/notes/dir/sub/b.md"), Some("dir/sub/b".to_string()));
}

#[test]
fn encode_keeps_dots_in_stem() {
    assert_eq!(
        id_from_abs_path("/notes", "/notes/meeting.2024-01-15.md"),
        Some("meeting.2024-01-15".to_string())
    );
}

#[test]
fn encode_refuses_excluded() {
    assert_eq!(id_from_abs_path("/notes", "/notes/.scratch/x.md"), None);
    assert_eq!(id_from_abs_path("/notes", "/notes/assets/x.md"), None);
    assert_eq!(id_from_abs_path("/notes", "/notes/x.txt"), None);
    assert_eq!(id_from_abs_path("/notes", "/other/x.md"), None);
    assert_eq!(id_from_abs_path("/notes", "/notesx/x.md"), None);
    assert_eq!(id_from_abs_path("/notes", "/notes/.md"), None);
    assert_eq!(id_from_abs_path("/notes", "/notes/a\\b.md"), None);
}

#[test]
fn decode_appends_suffix() {
    assert_eq!(abs_path_from_id("/notes", "a"), Ok("/notes/a.md".to_string()));
    assert_eq!(abs_path_from_id("/notes/", "d/meeting.2024"), Ok("/notes/d/meeting.2024.md".to_string()));
}

#[test]
fn decode_refuses_traversal() {
    assert_eq!(abs_path_from_id("/notes", "../x"), Err(InvalidId::ParentDir));
    assert_eq!(abs_path_from_id("/notes", "a/../../x"), Err(InvalidId::ParentDir));
    assert_eq!(abs_path_from_id("/notes", "a\\b"), Err(InvalidId::Backslash));
    assert_eq!(abs_path_from_id("/notes", "/etc/passwd"), Err(InvalidId::Absolute));
    assert_eq!(abs_path_from_id("/notes", "C:/x"), Err(InvalidId::Absolute));
    assert_eq!(abs_path_from_id("/notes", "./x"), Err(InvalidId::CurDir));
    assert_eq!(abs_path_from_id("/notes", "a//b"), Err(InvalidId::Empty));
    assert_eq!(abs_path_from_id("/notes", ""), Err(InvalidId::Empty));
}

#[test]
fn round_trip_of_note_paths() {
    for p in ["/notes/a.md", "/notes/x/y/z.md", "/notes/v1.2.md"] {
        let id = id_from_abs_path("/notes", p).unwrap();
        assert_eq!(abs_path_from_id("/notes", &id), Ok(p.to_string()));
    }
}

#[test]
fn invalid_id_messages() {
    assert_eq!(InvalidId::ParentDir.message(), "Invalid note ID: parent directory references not allowed");
}

#[test]
fn drive_like_names_agree_both_ways() {
    assert_eq!(id_from_abs_path("/notes", "/notes/C:x.md"), None);
    assert_eq!(abs_path_from_id("/notes", "C:x"), Err(InvalidId::Absolute));
    let id = id_from_abs_path("/notes", "/notes/dir/C:x.md").unwrap();
    assert_eq!(id, "dir/C:x");
    assert_eq!(abs_path_from_id("/notes", &id), Ok("/notes/dir/C:x.md".to_string()));
}
