use rustproxy::sync::{changed_records, lastsync_value, sync_records, SyncAction, EPOCH};
use rustproxy::{lastsync_path, needs_update, Mapping, MappingTable};

fn row(
    id: &str,
    domain: &str,
    front_uri: &str,
    back_port: u16,
    back_uri: &str,
    backend: Option<&str>,
    created_at: &str,
    updated_at: &str,
) -> Mapping {
    Mapping {
        id: id.to_string(),
        domain: domain.to_string(),
        front_uri: front_uri.to_string(),
        back_port,
        back_uri: back_uri.to_string(),
        backend: backend.map(|b| b.to_string()),
        created_at: created_at.to_string(),
        updated_at: updated_at.to_string(),
    }
}

fn get_mapping(table: &MappingTable, domain: &str, front_uri: &str) -> Option<Mapping> {
    table.first_with_key(domain, front_uri).map(|i| table.row(i).clone())
}

/// Runs one synchronization from `source` into `target` with the marker
/// `since`, as the command-line tool does.
fn sync_databases(target: &mut MappingTable, source: &[Mapping], since: &str) -> (usize, usize, String) {
    let changed = changed_records(&source.to_vec(), since);
    let report = sync_records(target, &changed).unwrap();
    (report.inserted, report.updated, report.marker)
}

#[test]
fn test_first_sync_no_lastsync_copies_all_records() {
    let source = vec![
        row("id1", "example.com", "api/v1", 3000, "v1", None, "2024-01-01 00:00:00", "2024-01-01 00:00:00"),
        row("id2", "test.com", "api/v2", 4000, "v2", Some("http://backend.com"), "2024-01-02 00:00:00", "2024-01-02 00:00:00"),
    ];
    let mut target = MappingTable::new();
    let since = lastsync_value(None);

    let (inserted, updated, _) = sync_databases(&mut target, &source, &since);

    assert_eq!(inserted, 2);
    assert_eq!(updated, 0);
    assert_eq!(target.len(), 2);

    let m1 = get_mapping(&target, "example.com", "api/v1").unwrap();
    assert_eq!(m1.back_port, 3000);
    assert_eq!(m1.back_uri, "v1");
    assert!(m1.backend.is_none());
    assert_ne!(m1.id, "id1");

    let m2 = get_mapping(&target, "test.com", "api/v2").unwrap();
    assert_eq!(m2.back_port, 4000);
    assert_eq!(m2.backend, Some("http://backend.com".to_string()));
    assert_ne!(m2.id, "id2");
}

#[test]
fn test_sync_with_lastsync_only_copies_newer_records() {
    let source = vec![
        row("id1", "old.com", "api", 3000, "api", None, "2024-01-01 00:00:00", "2024-01-01 00:00:00"),
        row("id2", "new.com", "api", 4000, "api", None, "2024-06-01 00:00:00", "2024-06-01 00:00:00"),
    ];
    let mut target = MappingTable::new();

    let (inserted, updated, _) = sync_databases(&mut target, &source, "2024-03-01 00:00:00");

    assert_eq!(inserted, 1);
    assert_eq!(updated, 0);
    assert_eq!(target.len(), 1);
    assert!(get_mapping(&target, "old.com", "api").is_none());
    assert!(get_mapping(&target, "new.com", "api").is_some());
}

#[test]
fn test_sync_updates_existing_records_with_different_fields() {
    let source = vec![row(
        "src-id", "example.com", "api", 5000, "new-api", Some("http://new-backend.com"),
        "2024-01-01 00:00:00", "2024-06-01 00:00:00",
    )];
    let mut target = MappingTable::from_rows(vec![row(
        "tgt-id", "example.com", "api", 3000, "old-api", None, "2024-01-01 00:00:00", "2024-01-01 00:00:00",
    )]);

    let (inserted, updated, _) = sync_databases(&mut target, &source, EPOCH);

    assert_eq!(inserted, 0);
    assert_eq!(updated, 1);
    assert_eq!(target.len(), 1);

    let m = get_mapping(&target, "example.com", "api").unwrap();
    assert_eq!(m.id, "tgt-id");
    assert_eq!(m.back_port, 5000);
    assert_eq!(m.back_uri, "new-api");
    assert_eq!(m.backend, Some("http://new-backend.com".to_string()));
}

#[test]
fn test_sync_does_not_update_identical_records() {
    let source = vec![row("src-id", "example.com", "api", 3000, "api", None, "2024-01-01 00:00:00", "2024-06-01 00:00:00")];
    let mut target = MappingTable::from_rows(vec![row(
        "tgt-id", "example.com", "api", 3000, "api", None, "2024-01-01 00:00:00", "2024-01-01 00:00:00",
    )]);

    let (inserted, updated, _) = sync_databases(&mut target, &source, EPOCH);

    assert_eq!(inserted, 0);
    assert_eq!(updated, 0);
    let m = get_mapping(&target, "example.com", "api").unwrap();
    assert_eq!(m.id, "tgt-id");
}

#[test]
fn test_sync_handles_multiple_domains() {
    let source = vec![
        row("id1", "a.com", "api", 3000, "api", None, "2024-01-01 00:00:00", "2024-06-01 00:00:00"),
        row("id2", "b.com", "api", 4000, "api", Some("http://b.com"), "2024-01-01 00:00:00", "2024-06-01 00:00:00"),
        row("id3", "c.com", "v1", 5000, "v1", None, "2024-01-01 00:00:00", "2024-06-01 00:00:00"),
    ];
    let mut target = MappingTable::from_rows(vec![row(
        "tgt1", "a.com", "api", 3000, "api", None, "2024-01-01 00:00:00", "2024-01-01 00:00:00",
    )]);

    let (inserted, updated, _) = sync_databases(&mut target, &source, EPOCH);

    assert_eq!(inserted, 2);
    assert_eq!(updated, 0);
    assert_eq!(target.len(), 3);
}

#[test]
fn test_sync_same_domain_different_front_uri() {
    let source = vec![
        row("id1", "example.com", "api/v1", 3000, "v1", None, "2024-01-01 00:00:00", "2024-06-01 00:00:00"),
        row("id2", "example.com", "api/v2", 4000, "v2", None, "2024-01-01 00:00:00", "2024-06-01 00:00:00"),
    ];
    let mut target = MappingTable::from_rows(vec![row(
        "tgt1", "example.com", "api/v1", 3000, "v1", None, "2024-01-01 00:00:00", "2024-01-01 00:00:00",
    )]);

    let (inserted, updated, _) = sync_databases(&mut target, &source, EPOCH);

    assert_eq!(inserted, 1);
    assert_eq!(updated, 0);
    assert_eq!(target.len(), 2);
}

#[test]
fn test_sync_updates_backend_field() {
    let source = vec![row(
        "src-id", "example.com", "api", 3000, "api", Some("http://backend.com"),
        "2024-01-01 00:00:00", "2024-06-01 00:00:00",
    )];
    let mut target = MappingTable::from_rows(vec![row(
        "tgt-id", "example.com", "api", 3000, "api", None, "2024-01-01 00:00:00", "2024-01-01 00:00:00",
    )]);

    let (inserted, updated, _) = sync_databases(&mut target, &source, EPOCH);

    assert_eq!(inserted, 0);
    assert_eq!(updated, 1);
    let m = get_mapping(&target, "example.com", "api").unwrap();
    assert_eq!(m.backend, Some("http://backend.com".to_string()));
}

#[test]
fn test_sync_updates_port() {
    let source = vec![row("src-id", "example.com", "api", 9999, "api", None, "2024-01-01 00:00:00", "2024-06-01 00:00:00")];
    let mut target = MappingTable::from_rows(vec![row(
        "tgt-id", "example.com", "api", 3000, "api", None, "2024-01-01 00:00:00", "2024-01-01 00:00:00",
    )]);

    let (inserted, updated, _) = sync_databases(&mut target, &source, EPOCH);

    assert_eq!(inserted, 0);
    assert_eq!(updated, 1);
    let m = get_mapping(&target, "example.com", "api").unwrap();
    assert_eq!(m.back_port, 9999);
}

#[test]
fn test_sync_updates_back_uri() {
    let source = vec![row(
        "src-id", "example.com", "api", 3000, "new-backend-path", None,
        "2024-01-01 00:00:00", "2024-06-01 00:00:00",
    )];
    let mut target = MappingTable::from_rows(vec![row(
        "tgt-id", "example.com", "api", 3000, "old-backend-path", None,
        "2024-01-01 00:00:00", "2024-01-01 00:00:00",
    )]);

    let (inserted, updated, _) = sync_databases(&mut target, &source, EPOCH);

    assert_eq!(inserted, 0);
    assert_eq!(updated, 1);
    let m = get_mapping(&target, "example.com", "api").unwrap();
    assert_eq!(m.back_uri, "new-backend-path");
}

#[test]
fn test_second_sync_only_picks_up_new_changes() {
    let mut source = vec![row("id1", "first.com", "api", 3000, "api", None, "2024-01-01 00:00:00", "2024-01-01 00:00:00")];
    let mut target = MappingTable::new();

    let (inserted, _, marker) = sync_databases(&mut target, &source, EPOCH);
    assert_eq!(inserted, 1);

    let future_ts = "2099-01-01 00:00:00";
    source.push(row("id2", "second.com", "api", 4000, "api", None, future_ts, future_ts));

    let (inserted, updated, _) = sync_databases(&mut target, &source, &marker);
    assert_eq!(inserted, 1);
    assert_eq!(updated, 0);
    assert_eq!(target.len(), 2);
}

#[test]
fn test_empty_source_results_in_no_changes() {
    let mut target = MappingTable::new();
    let (inserted, updated, _) = sync_databases(&mut target, &[], EPOCH);
    assert_eq!(inserted, 0);
    assert_eq!(updated, 0);
    assert_eq!(target.len(), 0);
}

#[test]
fn test_sync_preserves_existing_target_records() {
    let source = vec![row("src-only", "source-only.com", "api", 9090, "api", None, "2024-01-01 00:00:00", "2024-06-01 00:00:00")];
    let mut target = MappingTable::from_rows(vec![row(
        "tgt-only", "target-only.com", "api", 8080, "api", None, "2024-01-01 00:00:00", "2024-01-01 00:00:00",
    )]);

    let (inserted, updated, _) = sync_databases(&mut target, &source, EPOCH);

    assert_eq!(inserted, 1);
    assert_eq!(updated, 0);
    assert_eq!(target.len(), 2);
    assert!(get_mapping(&target, "target-only.com", "api").is_some());
    assert!(get_mapping(&target, "source-only.com", "api").is_some());
}

#[test]
fn test_needs_update_detects_all_field_changes() {
    let base = row("id", "example.com", "api", 3000, "api", None, "2024-01-01 00:00:00", "2024-01-01 00:00:00");

    assert!(!needs_update(&base, &base));

    let mut m = base.clone();
    m.back_port = 9999;
    assert!(needs_update(&base, &m));

    let mut m = base.clone();
    m.back_uri = "different".to_string();
    assert!(needs_update(&base, &m));

    let mut m = base.clone();
    m.backend = Some("http://backend.com".to_string());
    assert!(needs_update(&base, &m));

    let mut m = base.clone();
    m.domain = "other.com".to_string();
    assert!(needs_update(&base, &m));

    let mut m = base.clone();
    m.front_uri = "other".to_string();
    assert!(needs_update(&base, &m));

    let mut m = base.clone();
    m.id = "different-id".to_string();
    assert!(!needs_update(&base, &m));

    let mut m = base.clone();
    m.created_at = "2025-01-01 00:00:00".to_string();
    m.updated_at = "2025-01-01 00:00:00".to_string();
    assert!(!needs_update(&base, &m));
}

#[test]
fn test_read_lastsync_returns_epoch_when_no_file() {
    let result = lastsync_value(None);
    assert_eq!(result, EPOCH);
}

#[test]
fn test_read_lastsync_returns_stored_timestamp() {
    let ts = "2024-06-15 12:30:00";
    let result = lastsync_value(Some(ts));
    assert_eq!(result, ts);
}

#[test]
fn lastsync_value_trims_whitespace() {
    assert_eq!(lastsync_value(Some("  2024-06-15 12:30:00\n")), "2024-06-15 12:30:00");
    assert_eq!(lastsync_value(Some(" \t\n")), "");
}

#[test]
fn test_insert_mapping_generates_new_uuid() {
    let m = row("original-id", "example.com", "api", 3000, "api", None, "2024-01-01 00:00:00", "2024-01-01 00:00:00");
    let mut target = MappingTable::new();
    let report = sync_records(&mut target, &vec![m]).unwrap();
    assert_eq!(report.inserted, 1);

    let stored = get_mapping(&target, "example.com", "api").unwrap();
    assert_ne!(stored.id, "original-id");
    assert_eq!(stored.id.len(), 36);
    assert_eq!(stored.domain, "example.com");
    assert_eq!(stored.back_port, 3000);
    match &report.actions[0] {
        SyncAction::Insert(row) => assert_eq!(row.id, stored.id),
        SyncAction::Update { .. } => panic!("expected an insertion"),
    }
}

#[test]
fn test_sync_with_backend_null_and_some_variations() {
    let source = vec![
        row("id1", "null-backend.com", "api", 3000, "api", None, "2024-01-01 00:00:00", "2024-06-01 00:00:00"),
        row("id2", "some-backend.com", "api", 4000, "api", Some("http://remote.com"), "2024-01-01 00:00:00", "2024-06-01 00:00:00"),
    ];
    let mut target = MappingTable::new();

    let (inserted, _, _) = sync_databases(&mut target, &source, EPOCH);
    assert_eq!(inserted, 2);

    let m1 = get_mapping(&target, "null-backend.com", "api").unwrap();
    assert!(m1.backend.is_none());
    let m2 = get_mapping(&target, "some-backend.com", "api").unwrap();
    assert_eq!(m2.backend, Some("http://remote.com".to_string()));
}

#[test]
fn second_run_with_same_changes_does_nothing() {
    let source = vec![
        row("id1", "a.com", "api", 3000, "api", None, "2024-01-01 00:00:00", "2099-06-01 00:00:00"),
        row("id2", "a.com", "web", 3001, "", Some("http://x"), "2024-01-01 00:00:00", "2099-06-02 00:00:00"),
    ];
    let mut target = MappingTable::from_rows(vec![row(
        "t1", "a.com", "api", 1, "old", None, "2024-01-01 00:00:00", "2024-01-01 00:00:00",
    )]);
    let (inserted, updated, marker) = sync_databases(&mut target, &source, EPOCH);
    assert_eq!((inserted, updated), (1, 1));
    let before: Vec<Mapping> = target.rows().clone();
    let (inserted, updated, _) = sync_databases(&mut target, &source, &marker);
    assert_eq!((inserted, updated), (0, 0));
    let after: Vec<Mapping> = target.rows().clone();
    assert_eq!(before.len(), after.len());
    for (b, a) in before.iter().zip(after.iter()) {
        assert_eq!(b.id, a.id);
        assert_eq!(b.back_port, a.back_port);
    }
}

#[test]
fn changed_records_are_ordered_by_stamp() {
    let source = vec![
        row("a", "a.com", "x", 1, "", None, "", "2024-05-01 00:00:00"),
        row("b", "b.com", "x", 2, "", None, "", "2024-01-01 00:00:00"),
        row("c", "c.com", "x", 3, "", None, "", "2023-01-01 00:00:00"),
    ];
    let changed = changed_records(&source, "2023-06-01 00:00:00");
    let ids: Vec<&str> = changed.iter().map(|m| m.id.as_str()).collect();
    assert_eq!(ids, vec!["b", "a"]);
}

#[test]
fn lastsync_path_joins_directory() {
    assert_eq!(lastsync_path("/tmp/sync"), "/tmp/sync/.lastsync");
    assert_eq!(lastsync_path("/tmp/sync/"), "/tmp/sync/.lastsync");
    assert_eq!(lastsync_path(""), ".lastsync");
}

#[test]
fn actions_record_each_change_in_order() {
    let source = vec![
        row("s1", "a.com", "api", 5000, "v2", None, "2024-01-01 00:00:00", "2024-06-01 00:00:00"),
        row("s2", "b.com", "api", 6000, "", None, "2024-01-01 00:00:00", "2024-06-02 00:00:00"),
        row("s3", "a.com", "api", 5000, "v2", None, "2024-01-01 00:00:00", "2024-06-03 00:00:00"),
    ];
    let mut target = MappingTable::from_rows(vec![row(
        "t1", "a.com", "api", 3000, "v1", None, "2024-01-01 00:00:00", "2024-01-01 00:00:00",
    )]);
    let report = sync_records(&mut target, &source).unwrap();
    assert_eq!((report.inserted, report.updated), (1, 1));
    assert_eq!(report.actions.len(), 2);
    match &report.actions[0] {
        SyncAction::Update { target_id, source } => {
            assert_eq!(target_id, "t1");
            assert_eq!(source.id, "s1");
        }
        SyncAction::Insert(_) => panic!("expected an update first"),
    }
    match &report.actions[1] {
        SyncAction::Insert(m) => {
            assert_eq!(m.domain, "b.com");
            assert_eq!(m.back_port, 6000);
            assert_eq!(m.id.len(), 36);
            assert_ne!(m.id, "t1");
            assert_eq!(target.row(1).id, m.id);
        }
        SyncAction::Update { .. } => panic!("expected an insertion second"),
    }
    let updated = target.row(0);
    assert_eq!(updated.id, "t1");
    assert_eq!(updated.created_at, "2024-01-01 00:00:00");
    assert_eq!(updated.updated_at, "2024-06-01 00:00:00");
}
