use task_entry_engine::group::DeleteOutcome;
use task_entry_engine::group::RenameError;
use task_entry_engine::group::TaskGroup;
use task_entry_engine::group::add_similar;
use task_entry_engine::group::delete_group;
use task_entry_engine::group::delete_single;
use task_entry_engine::group::edit_single;
use task_entry_engine::group::refresh;
use task_entry_engine::group::rename_group;
use task_entry_engine::store::EntryStore;
use task_entry_engine::store::StoreError;
use task_entry_engine::time::Precision;
use task_entry_engine::time::Timestamp;
use task_entry_engine::time::parse_timestamp;
use task_entry_engine::transfer::TransferError;
use task_entry_engine::transfer::backup_rows;
use task_entry_engine::transfer::import_rows;
use task_entry_engine::validate::EditRequest;
use task_entry_engine::validate::Rule;
use task_entry_engine::validate::validate_edit;

fn at(text: &str) -> Timestamp {
    parse_timestamp(text, Precision::WithSeconds).unwrap()
}

fn group_of(store: &EntryStore, ids: Vec<u64>, sample_id: u64) -> TaskGroup {
    let e = store.get_one(sample_id).unwrap();
    TaskGroup {
        ids,
        name: e.task_name.clone(),
        tags: e.tags.clone(),
        day: e.start_time.day_of(),
    }
}

#[test]
fn create_then_get_round_trip() {
    let mut store = EntryStore::new();
    let id = store.create(
        "Write",
        "  Work ## urgent #Work",
        at("2024-01-01 09:00:00"),
        at("2024-01-01 09:30:00"),
    );
    let got = store.get_by_ids(&vec![id]);
    assert_eq!(got.len(), 1);
    assert_eq!(got[0].id, id);
    assert_eq!(got[0].task_name, "Write");
    assert_eq!(got[0].tags, vec!["work".to_string(), "urgent".to_string()]);
    assert_eq!(got[0].start_time, at("2024-01-01 09:00:00"));
    assert_eq!(got[0].stop_time, at("2024-01-01 09:30:00"));
}

#[test]
fn rejected_edit_leaves_entry_unchanged() {
    // An entry edited so that its start would fall after its stop is
    // rejected with RangeInvalid and nothing is written.
    let mut store = EntryStore::new();
    let id = store.create(
        "Write",
        "",
        at("2024-01-01 09:00:00"),
        at("2024-01-01 09:30:00"),
    );
    let now = at("2030-01-01 00:00:00");
    let req = EditRequest {
        name: None,
        tags: None,
        start_text: Some("2024-01-01 09:45:00".to_string()),
        stop_text: None,
    };
    let cur = store.get_one(id).unwrap();
    let (cs, ct) = (cur.start_time, cur.stop_time);
    let v = validate_edit(&req, &cs, &ct, &now, Precision::WithSeconds).unwrap_err();
    assert_eq!(v, vec![Rule::RangeInvalid]);
    let got = store.get_by_ids(&vec![id]);
    assert_eq!(got[0].start_time, at("2024-01-01 09:00:00"));
    assert_eq!(got[0].stop_time, at("2024-01-01 09:30:00"));
}

#[test]
fn approved_edit_applies_atomically() {
    let mut store = EntryStore::new();
    let id = store.create(
        "Write",
        "",
        at("2024-01-01 09:00:00"),
        at("2024-01-01 09:30:00"),
    );
    let now = at("2030-01-01 00:00:00");
    let req = EditRequest {
        name: Some("Edit".to_string()),
        tags: Some("#Draft".to_string()),
        start_text: Some("2024-01-01 08:00:00".to_string()),
        stop_text: Some("2024-01-01 08:20:00".to_string()),
    };
    let cur = store.get_one(id).unwrap();
    let (cs, ct) = (cur.start_time, cur.stop_time);
    let patch = validate_edit(&req, &cs, &ct, &now, Precision::WithSeconds).unwrap();
    edit_single(&mut store, id, &patch).unwrap();
    let got = store.get_by_ids(&vec![id]);
    assert_eq!(got[0].task_name, "Edit");
    assert_eq!(got[0].tags, vec!["draft".to_string()]);
    assert_eq!(got[0].start_time, at("2024-01-01 08:00:00"));
    assert_eq!(got[0].stop_time, at("2024-01-01 08:20:00"));
}

#[test]
fn edit_single_unknown_id_is_not_found() {
    let mut store = EntryStore::new();
    let patch = task_entry_engine::validate::EntryPatch {
        name: Some("x".to_string()),
        tags: None,
        start: None,
        stop: None,
    };
    assert_eq!(edit_single(&mut store, 7, &patch), Err(StoreError::NotFound));
}

#[test]
fn update_start_after_stored_stop_is_constraint_error() {
    let mut store = EntryStore::new();
    let id = store.create(
        "Write",
        "",
        at("2024-01-01 09:00:00"),
        at("2024-01-01 09:30:00"),
    );
    let r = store.update_start_time(id, at("2024-01-01 10:00:00"));
    assert_eq!(r, Err(StoreError::Constraint));
    let r = store.update_stop_time(id, at("2024-01-01 08:00:00"));
    assert_eq!(r, Err(StoreError::Constraint));
    assert_eq!(store.update_task_name(99, "x"), Err(StoreError::NotFound));
}

#[test]
fn delete_group_removes_exactly_matching_members() {
    // Three entries share the key; one is renamed away after the group is
    // formed; delete_group must remove only the two still matching.
    let mut store = EntryStore::new();
    let a = store.create("Task", "#work", at("2024-01-01 09:00:00"), at("2024-01-01 09:30:00"));
    let b = store.create("Task", "#work", at("2024-01-01 10:00:00"), at("2024-01-01 10:30:00"));
    let c = store.create("Task", "#work", at("2024-01-01 11:00:00"), at("2024-01-01 11:30:00"));
    let other = store.create("Other", "", at("2024-01-02 09:00:00"), at("2024-01-02 09:30:00"));
    let group = group_of(&store, vec![a, b, c], a);
    store.update_task_name(b, "Moved").unwrap();
    delete_group(&mut store, &group).unwrap();
    let left = store.get_by_ids(&vec![a, b, c, other]);
    let left_ids: Vec<u64> = left.iter().map(|e| e.id).collect();
    assert_eq!(left_ids, vec![b, other]);
}

#[test]
fn refresh_drops_members_that_no_longer_match() {
    let mut store = EntryStore::new();
    let a = store.create("Task", "#work", at("2024-01-01 09:00:00"), at("2024-01-01 09:30:00"));
    let b = store.create("Task", "#work", at("2024-01-01 10:00:00"), at("2024-01-01 10:30:00"));
    let group = group_of(&store, vec![a, b], a);
    store.update_tags(b, "#play").unwrap();
    let refreshed = refresh(&store, &group).unwrap();
    assert_eq!(refreshed.ids, vec![a]);
    store.update_tags(a, "#play").unwrap();
    assert!(refresh(&store, &group).is_none());
}

#[test]
fn rename_moves_entry_into_colliding_group() {
    // Renaming group one so that its entry's key collides with group two:
    // the next refresh reports the entry under group two's key, not under
    // group one's.
    let mut store = EntryStore::new();
    let a = store.create("Alpha", "#a", at("2024-01-01 09:00:00"), at("2024-01-01 09:30:00"));
    let b = store.create("Beta", "#b", at("2024-01-01 10:00:00"), at("2024-01-01 10:30:00"));
    let group_one = group_of(&store, vec![a], a);
    rename_group(&mut store, &group_one, "Beta", "#b").unwrap();
    let old_view = refresh(&store, &group_one);
    assert!(old_view.is_none());
    let group_two = group_of(&store, vec![a, b], b);
    let new_view = refresh(&store, &group_two).unwrap();
    assert_eq!(new_view.ids, vec![a, b]);
}

#[test]
fn rename_group_rejects_empty_name_without_writing() {
    let mut store = EntryStore::new();
    let a = store.create("Task", "", at("2024-01-01 09:00:00"), at("2024-01-01 09:30:00"));
    let group = group_of(&store, vec![a], a);
    assert_eq!(
        rename_group(&mut store, &group, "   ", "#x"),
        Err(RenameError::NameRequired)
    );
    assert_eq!(store.get_by_ids(&vec![a])[0].task_name, "Task");
}

#[test]
fn rename_group_normalizes_name_and_tags() {
    let mut store = EntryStore::new();
    let a = store.create("Task", "", at("2024-01-01 09:00:00"), at("2024-01-01 09:30:00"));
    let group = group_of(&store, vec![a], a);
    rename_group(&mut store, &group, "  New Name ", " Work # URGENT #work").unwrap();
    let got = store.get_by_ids(&vec![a]);
    assert_eq!(got[0].task_name, "New Name");
    assert_eq!(got[0].tags, vec!["work".to_string(), "urgent".to_string()]);
}

#[test]
fn rename_group_unknown_member_reports_store_error() {
    let mut store = EntryStore::new();
    let a = store.create("Task", "", at("2024-01-01 09:00:00"), at("2024-01-01 09:30:00"));
    let mut group = group_of(&store, vec![a], a);
    group.ids = vec![a, 999];
    assert_eq!(
        rename_group(&mut store, &group, "New", ""),
        Err(RenameError::Store(StoreError::NotFound))
    );
}

#[test]
fn delete_single_signals_group_state() {
    // On the only member: the group is now empty. On a three-member
    // group: refreshed with the two remaining ids.
    let mut store = EntryStore::new();
    let solo = store.create("Solo", "", at("2024-01-01 09:00:00"), at("2024-01-01 09:30:00"));
    let group = group_of(&store, vec![solo], solo);
    match delete_single(&mut store, &group, solo).unwrap() {
        DeleteOutcome::GroupEmpty => {},
        DeleteOutcome::GroupRefreshed(_) => panic!("expected the group to be empty"),
    }

    let a = store.create("Trio", "#t", at("2024-02-01 09:00:00"), at("2024-02-01 09:30:00"));
    let b = store.create("Trio", "#t", at("2024-02-01 10:00:00"), at("2024-02-01 10:30:00"));
    let c = store.create("Trio", "#t", at("2024-02-01 11:00:00"), at("2024-02-01 11:30:00"));
    let trio = group_of(&store, vec![a, b, c], a);
    match delete_single(&mut store, &trio, b).unwrap() {
        DeleteOutcome::GroupRefreshed(rest) => assert_eq!(rest, vec![a, c]),
        DeleteOutcome::GroupEmpty => panic!("expected two remaining members"),
    }
}

#[test]
fn delete_single_unknown_id_is_not_found() {
    let mut store = EntryStore::new();
    let a = store.create("Task", "", at("2024-01-01 09:00:00"), at("2024-01-01 09:30:00"));
    let group = group_of(&store, vec![a], a);
    assert!(matches!(
        delete_single(&mut store, &group, 42),
        Err(StoreError::NotFound)
    ));
}

#[test]
fn add_similar_clones_name_and_tags() {
    let mut store = EntryStore::new();
    let a = store.create("Task", "#work", at("2024-01-01 09:00:00"), at("2024-01-01 09:30:00"));
    let group = group_of(&store, vec![a], a);
    let now = at("2030-01-01 00:00:00");
    let id = add_similar(
        &mut store,
        &group,
        "2024-01-02 09:00:00",
        "2024-01-02 09:30:00",
        None,
        &now,
        Precision::WithSeconds,
    )
    .unwrap();
    let got = store.get_by_ids(&vec![id]);
    assert_eq!(got[0].task_name, "Task");
    assert_eq!(got[0].tags, vec!["work".to_string()]);
    assert_eq!(got[0].start_time, at("2024-01-02 09:00:00"));
}

#[test]
fn add_similar_with_override_and_violations() {
    let mut store = EntryStore::new();
    let a = store.create("Task", "#work", at("2024-01-01 09:00:00"), at("2024-01-01 09:30:00"));
    let group = group_of(&store, vec![a], a);
    let now = at("2024-06-01 12:00:00");
    let over = "#Extra #extra".to_string();
    let id = add_similar(
        &mut store,
        &group,
        "2024-01-02 09:00:00",
        "2024-01-02 09:30:00",
        Some(&over),
        &now,
        Precision::WithSeconds,
    )
    .unwrap();
    assert_eq!(store.get_by_ids(&vec![id])[0].tags, vec!["extra".to_string()]);

    let v = add_similar(
        &mut store,
        &group,
        "2025-01-02 09:00:00",
        "2024-01-02 08:00:00",
        None,
        &now,
        Precision::WithSeconds,
    )
    .unwrap_err();
    assert_eq!(v, vec![Rule::FutureTime, Rule::RangeInvalid]);

    let v = add_similar(
        &mut store,
        &group,
        "2024-01-02 09:00:00",
        "2024-01-02 08:00:00",
        None,
        &now,
        Precision::WithSeconds,
    )
    .unwrap_err();
    assert_eq!(v, vec![Rule::RangeInvalid]);
}

#[test]
fn delete_many_and_delete_all() {
    let mut store = EntryStore::new();
    let a = store.create("A", "", at("2024-01-01 09:00:00"), at("2024-01-01 09:30:00"));
    let b = store.create("B", "", at("2024-01-01 10:00:00"), at("2024-01-01 10:30:00"));
    let c = store.create("C", "", at("2024-01-01 11:00:00"), at("2024-01-01 11:30:00"));
    store.delete_many(&vec![a, c, 999]).unwrap();
    let left = store.get_by_ids(&vec![a, b, c]);
    assert_eq!(left.len(), 1);
    assert_eq!(left[0].id, b);
    store.delete_all().unwrap();
    assert!(store.get_by_ids(&vec![a, b, c]).is_empty());
    assert_eq!(store.delete(b), Err(StoreError::NotFound));
}

#[test]
fn backup_and_import_round_trip() {
    let mut store = EntryStore::new();
    store.create("A", "#x", at("2024-01-01 09:00:00"), at("2024-01-01 09:30:00"));
    store.create("B", "", at("2024-01-02 10:00:00"), at("2024-01-02 10:30:00"));
    let rows = backup_rows(&store);
    let restored = match import_rows(&rows) {
        Ok(s) => s,
        Err(_) => panic!("import refused a backed-up store"),
    };
    let orig = store.export_all();
    let back = restored.export_all();
    assert_eq!(orig.len(), back.len());
    for (x, y) in orig.iter().zip(back.iter()) {
        assert_eq!(x.id, y.id);
        assert_eq!(x.task_name, y.task_name);
        assert_eq!(x.tags, y.tags);
        assert_eq!(x.start_time, y.start_time);
        assert_eq!(x.stop_time, y.stop_time);
    }
}

#[test]
fn import_rejects_incompatible_rows() {
    let mut store = EntryStore::new();
    store.create("A", "#x", at("2024-01-01 09:00:00"), at("2024-01-01 09:30:00"));
    let mut rows = backup_rows(&store);
    // Duplicate id.
    let mut dup = rows[0].duplicate();
    dup.task_name = "Copy".to_string();
    rows.push(dup);
    assert!(matches!(import_rows(&rows), Err(TransferError::IncompatibleFormat)));
    // Start after stop.
    let mut rows = backup_rows(&store);
    rows[0].stop_time = at("2023-01-01 00:00:00");
    assert!(matches!(import_rows(&rows), Err(TransferError::IncompatibleFormat)));
    // Tags not canonical.
    let mut rows = backup_rows(&store);
    rows[0].tags = vec!["Upper Case".to_string()];
    assert!(matches!(import_rows(&rows), Err(TransferError::IncompatibleFormat)));
}
