use scratch_notes::reconcile::{classify, reconcile_op, ChangeKind, Debouncer, RawKind, Reconciler};
use scratch_notes::store::IndexOp;

#[test]
fn events_within_half_second_reconcile_once() {
    let mut d = Debouncer::new();
    assert!(d.let_through("/n/a.md", 1000));
    assert!(!d.let_through("/n/a.md", 1499));
    assert!(d.let_through("/n/a.md", 1500));
    assert!(d.let_through("/n/b.md", 1500));
}

#[test]
fn clock_going_back_is_held() {
    let mut d = Debouncer::new();
    assert!(d.let_through("/n/a.md", 5000));
    assert!(!d.let_through("/n/a.md", 10));
}

#[test]
fn large_table_drops_stale_entries() {
    let mut d = Debouncer::new();
    for i in 0..101u64 {
        assert!(d.let_through(&format!("/n/{}.md", i), 0));
    }
    assert_eq!(d.len(), 101);
    assert!(d.let_through("/n/new.md", 6000));
    assert_eq!(d.len(), 1);
}

#[test]
fn kinds_are_classified() {
    assert_eq!(classify(RawKind::Create, true), Some(ChangeKind::Modified));
    assert_eq!(classify(RawKind::Any, true), Some(ChangeKind::Modified));
    assert_eq!(classify(RawKind::Modify, false), Some(ChangeKind::Deleted));
    assert_eq!(classify(RawKind::Remove, true), Some(ChangeKind::Deleted));
    assert_eq!(classify(RawKind::Other, true), None);
}

#[test]
fn reconciler_maps_and_debounces() {
    let mut r = Reconciler::new("/n".to_string());
    assert!(r.on_event("/n/.git/x.md", RawKind::Modify, 0, true).is_none());
    let c = r.on_event("/n/sub/a.md", RawKind::Modify, 0, true).unwrap();
    assert_eq!(c.id, "sub/a");
    assert_eq!(c.kind, ChangeKind::Modified);
    assert_eq!(c.kind.name(), "modified");
    assert!(r.on_event("/n/sub/a.md", RawKind::Modify, 100, true).is_none());
    let c = r.on_event("/n/sub/a.md", RawKind::Remove, 700, false).unwrap();
    assert_eq!(c.kind, ChangeKind::Deleted);
}

#[test]
fn reconcile_ops_follow_file() {
    let mut r = Reconciler::new("/n".to_string());
    let c = r.on_event("/n/a.md", RawKind::Modify, 0, true).unwrap();
    match reconcile_op(&c, Some("# T\nx".to_string()), true, 9) {
        Some(IndexOp::Upsert { id, title, content, modified }) => {
            assert_eq!(id, "a");
            assert_eq!(title, "T");
            assert_eq!(content, "# T\nx");
            assert_eq!(modified, 9);
        }
        _ => panic!("expected an upsert"),
    }
    assert!(reconcile_op(&c, None, true, 9).is_none());
    assert!(matches!(reconcile_op(&c, None, false, 9), Some(IndexOp::Remove { .. })));
}
