use chrono::NaiveDate;
use treedb::store::{SchemaAction, StoreRw};
use treedb::{Error, Session};

fn ts(y: i32, mo: u32, d: u32, h: u32, mi: u32, s: u32) -> i64 {
    NaiveDate::from_ymd_opt(y, mo, d)
        .unwrap()
        .and_hms_opt(h, mi, s)
        .unwrap()
        .and_utc()
        .timestamp()
}

#[test]
fn add_child() {
    let mut store = StoreRw::new();
    store.add_child(0, "first".to_string()).unwrap();
    store.add_child(1, "second".to_string()).unwrap();

    let kids = store.child_ids(0).unwrap();
    assert_eq!(kids.len(), 1);
    let id = kids[0];
    assert_eq!(id, 1);
    assert_eq!(store.name(id).unwrap(), "first");

    let kids = store.child_ids(1).unwrap();
    assert_eq!(kids.len(), 1);
    let id = kids[0];
    assert_eq!(id, 2);
    assert_eq!(store.name(id).unwrap(), "second");
}

#[test]
fn add_session() {
    let mut store = StoreRw::new();
    let session = Session {
        start: ts(2023, 1, 1, 0, 0, 0),
        end: ts(2023, 1, 1, 10, 0, 0),
    };
    store.add_session(0, session);
    assert_eq!(store.first_session(0).unwrap(), session);
}

#[test]
fn fresh_store_has_root_name() {
    let store = StoreRw::new();
    assert_eq!(store.id, 1);
    assert_eq!(store.name(0).unwrap(), "/");
    assert_eq!(store.name(1), None);
    assert!(store.child_ids(0).unwrap().is_empty());
}

#[test]
fn new_children_prepend() {
    let mut store = StoreRw::new();
    assert_eq!(store.add_child(0, "a".to_string()).unwrap(), 1);
    assert_eq!(store.add_child(0, "b".to_string()).unwrap(), 2);
    assert_eq!(store.add_child(0, "c".to_string()).unwrap(), 3);
    assert_eq!(store.child_ids(0).unwrap(), vec![3, 2, 1]);
}

#[test]
fn move_down_twice_then_noop() {
    let mut store = StoreRw::new();
    store.add_child(0, "a".to_string()).unwrap();
    store.add_child(0, "b".to_string()).unwrap();
    store.add_child(0, "c".to_string()).unwrap();
    assert_eq!(store.child_ids(0).unwrap(), vec![3, 2, 1]);
    store.move_down(0, 3).unwrap();
    assert_eq!(store.child_ids(0).unwrap(), vec![2, 3, 1]);
    store.move_down(0, 3).unwrap();
    assert_eq!(store.child_ids(0).unwrap(), vec![2, 1, 3]);
    store.move_down(0, 3).unwrap();
    assert_eq!(store.child_ids(0).unwrap(), vec![2, 1, 3]);
}

#[test]
fn move_up_reorders_head() {
    let mut store = StoreRw::new();
    store.add_child(0, "a".to_string()).unwrap();
    store.add_child(0, "b".to_string()).unwrap();
    store.add_child(0, "c".to_string()).unwrap();
    store.move_up(0, 1).unwrap();
    assert_eq!(store.child_ids(0).unwrap(), vec![3, 1, 2]);
    store.move_up(0, 1).unwrap();
    assert_eq!(store.child_ids(0).unwrap(), vec![1, 3, 2]);
    store.move_up(0, 1).unwrap();
    assert_eq!(store.child_ids(0).unwrap(), vec![1, 3, 2]);
}

#[test]
fn share_and_cut() {
    let mut store = StoreRw::new();
    store.add_child(0, "first".to_string()).unwrap();
    store.add_child(0, "second".to_string()).unwrap();
    store.add_child(0, "third".to_string()).unwrap();
    assert_eq!(store.child_ids(0).unwrap(), vec![3, 2, 1]);

    assert!(store.share(1, 3).unwrap());
    assert_eq!(store.child_ids(3).unwrap(), vec![1]);
    assert_eq!(store.child_ids(0).unwrap(), vec![3, 2, 1]);

    assert!(store.cut(0, 1, 2).unwrap());
    assert_eq!(store.child_ids(0).unwrap(), vec![3, 2]);
    assert_eq!(store.child_ids(2).unwrap(), vec![1]);
    assert_eq!(store.child_ids(3).unwrap(), vec![1]);

    // a cycle 1 -> ... -> 3 -> 1 would form
    assert!(!store.share(3, 1).unwrap());
    // already a direct child
    assert!(!store.share(1, 2).unwrap());
    // self-share refused
    assert!(!store.share(2, 2).unwrap());
}

#[test]
fn delete_keeps_shared_node_until_last_parentage() {
    let mut store = StoreRw::new();
    store.add_child(0, "first".to_string()).unwrap();
    store.add_child(0, "second".to_string()).unwrap();
    store.add_child(0, "third".to_string()).unwrap();
    store.share(1, 3).unwrap();
    store.cut(0, 1, 2).unwrap();
    store.set_due_date(1, ts(2024, 6, 1, 0, 0, 0));
    store.add_session(
        1,
        Session { start: ts(2024, 1, 1, 9, 0, 0), end: ts(2024, 1, 1, 10, 0, 0) },
    );

    store.delete(3, 1).unwrap();
    assert_eq!(store.name(1).unwrap(), "first");
    assert_eq!(store.child_ids(2).unwrap(), vec![1]);
    assert!(store.child_ids(3).unwrap().is_empty());

    store.delete(2, 1).unwrap();
    assert_eq!(store.name(1), None);
    assert_eq!(store.due_date(1), None);
    assert!(store.sessions(1).is_empty());
    assert!(store.child_ids(2).unwrap().is_empty());
}

#[test]
fn delete_cascades_through_descendants() {
    let mut store = StoreRw::new();
    store.add_child(0, "parent".to_string()).unwrap();
    store.add_child(1, "kid".to_string()).unwrap();
    store.add_child(2, "grandkid".to_string()).unwrap();
    store.delete(0, 1).unwrap();
    assert_eq!(store.name(1), None);
    assert_eq!(store.name(2), None);
    assert_eq!(store.name(3), None);
    assert!(store.child_ids(0).unwrap().is_empty());
}

#[test]
fn delete_missing_parentage_is_corrupted() {
    let mut store = StoreRw::new();
    assert_eq!(store.delete(0, 99), Err(Error::Corrupted));
    assert_eq!(store.move_up(0, 99), Err(Error::Corrupted));
    assert_eq!(store.move_down(0, 99), Err(Error::Corrupted));
}

#[test]
fn rename_and_due_dates() {
    let mut store = StoreRw::new();
    store.add_child(0, "draft".to_string()).unwrap();
    store.rename(1, "final-name".to_string());
    assert_eq!(store.name(1).unwrap(), "final-name");

    assert_eq!(store.due_date(1), None);
    store.set_due_date(1, ts(2025, 3, 1, 12, 0, 0));
    assert_eq!(store.due_date(1), Some(ts(2025, 3, 1, 12, 0, 0)));
    store.set_due_date(1, ts(2025, 4, 1, 12, 0, 0));
    assert_eq!(store.due_date(1), Some(ts(2025, 4, 1, 12, 0, 0)));
    store.unset_due_date(1);
    assert_eq!(store.due_date(1), None);
    // idempotent on a missing key
    store.unset_due_date(1);
    assert_eq!(store.due_date(1), None);
}

#[test]
fn sessions_are_mirrored_and_ordered() {
    let mut store = StoreRw::new();
    let s1 = Session { start: ts(2023, 1, 2, 0, 0, 0), end: ts(2023, 1, 2, 1, 0, 0) };
    let s2 = Session { start: ts(2023, 1, 1, 0, 0, 0), end: ts(2023, 1, 1, 10, 0, 0) };
    let s3 = Session { start: ts(2023, 1, 1, 0, 0, 0), end: ts(2023, 1, 1, 2, 0, 0) };
    store.add_session(7, s1);
    store.add_session(7, s2);
    store.add_session(7, s3);
    // duplicates collapse
    store.add_session(7, s2);

    assert_eq!(store.sessions(7), vec![s3, s2, s1]);
    assert_eq!(store.first_session(7), Some(s3));
    assert_eq!(store.sessions(8), vec![]);

    // chronological: (start, end, id) ascending
    assert_eq!(store.all_sessions(), vec![(s3, 7), (s2, 7), (s1, 7)]);

    store.delete_session(7, s2);
    assert_eq!(store.sessions(7), vec![s3, s1]);
    assert_eq!(store.all_sessions().len(), 2);
}

#[test]
fn all_names_lists_every_node() {
    let mut store = StoreRw::new();
    store.add_child(0, "one".to_string()).unwrap();
    store.add_child(0, "two".to_string()).unwrap();
    let names = store.all_names();
    assert_eq!(
        names,
        vec![(0, "/".to_string()), (1, "one".to_string()), (2, "two".to_string())]
    );
    // renaming does not disturb the ascending id order
    store.rename(1, "uno".to_string());
    let names = store.all_names();
    assert_eq!(
        names,
        vec![(0, "/".to_string()), (1, "uno".to_string()), (2, "two".to_string())]
    );
}

#[test]
fn ids_are_never_reused() {
    let mut store = StoreRw::new();
    assert_eq!(store.add_child(0, "a".to_string()).unwrap(), 1);
    assert_eq!(store.add_child(0, "b".to_string()).unwrap(), 2);
    store.delete(0, 2).unwrap();
    assert_eq!(store.add_child(0, "c".to_string()).unwrap(), 3);
    assert_eq!(store.id, 4);
}

#[test]
fn refused_share_changes_nothing() {
    let mut store = StoreRw::new();
    store.add_child(0, "first".to_string()).unwrap();
    store.add_child(0, "second".to_string()).unwrap();
    store.add_child(0, "third".to_string()).unwrap();
    store.share(1, 3).unwrap();
    store.cut(0, 1, 2).unwrap();

    let names_before = store.all_names();
    let sessions_before = store.all_sessions();
    let root_kids_before = store.child_ids(0).unwrap();
    let id_before = store.id;

    // would form a cycle: refused with no effect
    assert!(!store.share(3, 1).unwrap());
    // duplicate parentage: refused with no effect
    assert!(!store.share(1, 2).unwrap());

    assert_eq!(store.all_names(), names_before);
    assert_eq!(store.all_sessions(), sessions_before);
    assert_eq!(store.child_ids(0).unwrap(), root_kids_before);
    assert_eq!(store.child_ids(2).unwrap(), vec![1]);
    assert_eq!(store.child_ids(3).unwrap(), vec![1]);
    assert_eq!(store.id, id_before);
}

#[test]
fn cut_to_same_parent_is_refused() {
    let mut store = StoreRw::new();
    store.add_child(0, "only".to_string()).unwrap();
    // the parentage (1, 0) already exists, so the share half refuses
    assert!(!store.cut(0, 1, 0).unwrap());
    assert_eq!(store.child_ids(0).unwrap(), vec![1]);
}

#[test]
fn from_parts_validates_and_mirrors() {
    let s = Session { start: 10, end: 20 };
    // a valid little store: root named "/", node 1 under 0, one session
    let built = StoreRw::from_parts(
        2,
        vec![(0, 1)],
        vec![((1, 0), (0, 0))],
        vec![(0, "/".to_string()), (1, "a".to_string())],
        vec![],
        vec![(1, s)],
    );
    let store = built.unwrap();
    assert_eq!(store.id, 2);
    assert_eq!(store.name(1).unwrap(), "a");
    assert_eq!(store.child_ids(0).unwrap(), vec![1]);
    assert_eq!(store.sessions(1), vec![s]);
    assert_eq!(store.all_sessions(), vec![(s, 1)]);

    // duplicate keys are rejected as invalid
    assert!(StoreRw::from_parts(
        1,
        vec![(0, 1), (0, 2)],
        vec![],
        vec![],
        vec![],
        vec![],
    )
    .is_none());
    assert!(StoreRw::from_parts(
        1,
        vec![],
        vec![((1, 0), (0, 0)), ((1, 0), (2, 2))],
        vec![],
        vec![],
        vec![],
    )
    .is_none());
    assert!(StoreRw::from_parts(1, vec![], vec![], vec![], vec![], vec![(1, s), (1, s)])
        .is_none());
}

#[test]
fn schema_action_is_all_or_nothing() {
    assert_eq!(
        StoreRw::schema_action(true, true, true, true, true, true, true),
        SchemaAction::UseExisting
    );
    assert_eq!(
        StoreRw::schema_action(false, false, false, false, false, false, false),
        SchemaAction::CreateAll
    );
    assert_eq!(
        StoreRw::schema_action(true, false, true, true, true, true, true),
        SchemaAction::Corrupt
    );
    assert_eq!(
        StoreRw::schema_action(false, false, false, false, false, false, true),
        SchemaAction::Corrupt
    );
}
