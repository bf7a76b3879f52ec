use scratch_notes::store::{
    continue_after, note_from_file, plan_create, plan_delete, plan_save, save_actions, save_index_ops, CreateError, FsAction,
    IndexOp,
};
use scratch_notes::codec::InvalidId;

#[test]
fn save_new_note_reads_back() {
    let content = "# Hello\n\nBody";
    let plan = plan_save("/notes", None, content, &vec![]).unwrap();
    assert_eq!(plan.id, "Hello");
    assert_eq!(plan.title, "Hello");
    assert_eq!(plan.path, "/notes/Hello.md");
    assert!(plan.old_id.is_none());
    let note = note_from_file(plan.id.clone(), plan.path.clone(), content.to_string(), 7);
    assert_eq!(note.content, content);
    assert_eq!(note.title, "Hello");
}

#[test]
fn same_title_in_sequence_gets_suffix() {
    let first = plan_save("/notes", None, "# X\nbody", &vec![]).unwrap();
    assert_eq!(first.id, "X");
    let second = plan_save("/notes", None, "# X\nother", &vec![first.id.clone()]).unwrap();
    assert_eq!(second.id, "X-1");
    let third = plan_save("/notes", None, "# X", &vec!["X".to_string(), "X-1".to_string()]).unwrap();
    assert_eq!(third.id, "X-2");
}

#[test]
fn rename_keeps_directory_and_orders_actions() {
    let taken = vec!["dir/Old".to_string()];
    let plan = plan_save("/n", Some("dir/Old".to_string()), "# New Name\ntext", &taken).unwrap();
    assert_eq!(plan.id, "dir/New Name");
    assert_eq!(plan.path, "/n/dir/New Name.md");
    assert_eq!(plan.old_id, Some("dir/Old".to_string()));
    assert_eq!(plan.old_path, Some("/n/dir/Old.md".to_string()));
    let acts = save_actions(&plan, "# New Name\ntext");
    assert_eq!(acts.len(), 2);
    match &acts[0] {
        FsAction::Write { path, content } => {
            assert_eq!(path, "/n/dir/New Name.md");
            assert_eq!(content, "# New Name\ntext");
        }
        _ => panic!("write must come first"),
    }
    match &acts[1] {
        FsAction::RemoveIfExists { path } => assert_eq!(path, "/n/dir/Old.md"),
        _ => panic!("removal must come second"),
    }
    let ops = save_index_ops(&plan, "# New Name\ntext", 5);
    assert_eq!(ops.len(), 2);
    assert!(matches!(&ops[0], IndexOp::Remove { id } if id == "dir/Old"));
    assert!(matches!(&ops[1], IndexOp::Upsert { id, modified: 5, .. } if id == "dir/New Name"));
}

#[test]
fn rename_onto_taken_name_is_suffixed() {
    let taken = vec!["A".to_string(), "B".to_string()];
    let plan = plan_save("/n", Some("A".to_string()), "# B", &taken).unwrap();
    assert_eq!(plan.id, "B-1");
}

#[test]
fn unchanged_title_keeps_id() {
    let taken = vec!["Same".to_string()];
    let plan = plan_save("/n", Some("Same".to_string()), "# Same\nedited", &taken).unwrap();
    assert_eq!(plan.id, "Same");
    assert!(plan.old_id.is_none());
    assert_eq!(save_actions(&plan, "x").len(), 1);
}

#[test]
fn save_with_bad_id_fails() {
    let r = plan_save("/n", Some("../x".to_string()), "# T", &vec![]);
    assert_eq!(r.err(), Some(InvalidId::ParentDir));
    let r = plan_save("/n", None, "# ..", &vec![]);
    assert_eq!(r.err(), Some(InvalidId::ParentDir));
}

#[test]
fn create_with_suffix() {
    let p = plan_create("/n", "Untitled", false, &vec!["Untitled".to_string()]).unwrap();
    assert_eq!(p.id, "Untitled-1");
    assert_eq!(p.title, "Untitled 1");
    assert_eq!(p.content, "# Untitled 1\n\n");
    assert_eq!(p.path, "/n/Untitled-1.md");
}

#[test]
fn create_with_counter() {
    let taken = vec!["note 1".to_string(), "note 2".to_string()];
    let p = plan_create("/n", "note {counter}", true, &taken).unwrap();
    assert_eq!(p.id, "note 3");
    assert_eq!(p.title, "Note 3");
}

#[test]
fn create_without_free_name() {
    let taken = vec!["fixed".to_string(), "x".to_string()];
    let r = plan_create("/n", "fixed", true, &taken);
    assert!(matches!(r, Err(CreateError::NoFreeName)));
}

#[test]
fn delete_of_missing_note_only_removes_if_present() {
    let plan = plan_delete("/n", "gone/never-existed").unwrap();
    assert_eq!(plan.path, "/n/gone/never-existed.md");
    assert!(matches!(&plan.action, FsAction::RemoveIfExists { path } if path == "/n/gone/never-existed.md"));
    assert!(matches!(&plan.index_op, IndexOp::Remove { id } if id == "gone/never-existed"));
    assert!(plan_delete("/n", "../etc").is_err());
}

#[test]
fn create_with_invalid_name() {
    let r = plan_create("/n", "..", false, &vec![]);
    assert!(matches!(r, Err(CreateError::Invalid(InvalidId::ParentDir))));
}

#[test]
fn hidden_names_are_refused() {
    assert_eq!(plan_save("/n", None, "# .a", &vec![]).err(), Some(InvalidId::Hidden));
    assert_eq!(plan_save("/n", Some(".git/x".to_string()), "# x", &vec![]).err(), Some(InvalidId::Hidden));
    assert_eq!(plan_save("/n", Some("assets/x".to_string()), "# y", &vec![]).err(), Some(InvalidId::Hidden));
    assert!(matches!(plan_create("/n", ".hidden", false, &vec![]), Err(CreateError::Invalid(InvalidId::Hidden))));
    let ok = plan_save("/n", None, "# assets", &vec![]).unwrap();
    assert_eq!(ok.id, "assets");
}

#[test]
fn failed_write_stops_the_save() {
    let w = FsAction::Write { path: "/n/a.md".to_string(), content: "x".to_string() };
    let r = FsAction::RemoveIfExists { path: "/n/b.md".to_string() };
    assert!(!continue_after(&w, false));
    assert!(continue_after(&w, true));
    assert!(continue_after(&r, false));
}
