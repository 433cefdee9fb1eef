use rustproxy::mapping::normalize_uri;
use rustproxy::store::{new_mapping, RowOrder, StoreError};
use rustproxy::MappingTable;

#[test]
fn test_add_and_find_mapping() {
    let mut db = MappingTable::new();

    db.add_mapping("example.com", "api/v1", 3000, "v1", None).unwrap();

    let mapping = db.find_mapping("example.com", "/api/v1/users");
    assert!(mapping.is_some());
    let mapping = mapping.unwrap();
    assert_eq!(mapping.domain, "example.com");
    assert_eq!(mapping.front_uri, "api/v1");
    assert_eq!(mapping.back_port, 3000);
}

#[test]
fn test_longest_match_first() {
    let mut db = MappingTable::new();

    db.add_mapping("example.com", "api", 3000, "", None).unwrap();
    db.add_mapping("example.com", "api/v1", 3001, "v1", None).unwrap();

    let mapping = db.find_mapping("example.com", "/api/v1/users");
    assert!(mapping.is_some());
    assert_eq!(mapping.unwrap().back_port, 3001);

    let mapping = db.find_mapping("example.com", "/api/v2/users");
    assert!(mapping.is_some());
    assert_eq!(mapping.unwrap().back_port, 3000);
}

#[test]
fn test_database_operations() {
    let mut db = MappingTable::new();

    let mapping = db.add_mapping("test.com", "api", 3000, "v1", None).unwrap();
    assert_eq!(mapping.domain, "test.com");
    assert_eq!(mapping.front_uri, "api");
    assert_eq!(mapping.back_port, 3000);
    assert_eq!(mapping.back_uri, "v1");

    let mappings = db.list_mappings(None);
    assert_eq!(mappings.len(), 1);

    let found = db.find_mapping("test.com", "/api/users");
    assert!(found.is_some());

    assert!(db.domain_exists("test.com"));
    assert!(!db.domain_exists("unknown.com"));

    let deleted = db.delete_mapping("test.com", Some("api"));
    assert_eq!(deleted, 1);

    let mappings = db.list_mappings(None);
    assert_eq!(mappings.len(), 0);
}

#[test]
fn add_normalizes_prefixes_and_generates_ids() {
    let mut db = MappingTable::new();
    let a = db.add_mapping("a.com", "//api/v1/", 3000, "/v1/", Some("http://b")).unwrap();
    assert_eq!(a.front_uri, "api/v1");
    assert_eq!(a.back_uri, "v1");
    assert_eq!(a.backend, Some("http://b".to_string()));
    assert_eq!(a.id.len(), 36);
    let b = db.add_mapping("a.com", "x", 1, "", None).unwrap();
    assert_ne!(a.id, b.id);
    assert_eq!(db.len(), 2);
}

#[test]
fn normalize_uri_strips_slashes() {
    assert_eq!(normalize_uri("/api/v1/"), "api/v1");
    assert_eq!(normalize_uri("///"), "");
    assert_eq!(normalize_uri(""), "");
    assert_eq!(normalize_uri("a//b"), "a//b");
}

#[test]
fn empty_front_prefix_matches_any_path() {
    let mut db = MappingTable::new();
    db.add_mapping("a.com", "", 4000, "", None).unwrap();
    assert_eq!(db.find_mapping("a.com", "/anything/here").unwrap().back_port, 4000);
    assert!(db.find_mapping("b.com", "/anything").is_none());
}

#[test]
fn unmapped_host_finds_nothing() {
    let mut db = MappingTable::new();
    db.add_mapping("a.com", "api", 3000, "", None).unwrap();
    assert!(db.find_mapping("unknown.example.com", "/api").is_none());
    assert!(db.find_mapping("a.com", "/other").is_none());
}

#[test]
fn equal_prefixes_pick_one_of_them() {
    let mut db = MappingTable::new();
    db.add_mapping("a.com", "api", 1, "", None).unwrap();
    db.add_mapping("a.com", "api", 2, "", None).unwrap();
    let port = db.find_mapping("a.com", "/api/x").unwrap().back_port;
    assert!(port == 1 || port == 2);
}

#[test]
fn added_row_is_found_under_its_prefix() {
    let mut db = MappingTable::new();
    db.add_mapping("a.com", "", 1, "", None).unwrap();
    let m = db.add_mapping("a.com", "shop", 2, "", None).unwrap();
    let found = db.find_mapping("a.com", "/shop/cart").unwrap();
    assert_eq!(found.id, m.id);
}

#[test]
fn find_by_domain_and_uri_normalizes() {
    let mut db = MappingTable::new();
    let m = db.add_mapping("a.com", "api", 3000, "", None).unwrap();
    assert_eq!(db.find_by_domain_and_uri("a.com", "/api/").unwrap().id, m.id);
    assert!(db.find_by_domain_and_uri("a.com", "ap").is_none());
    assert_eq!(db.get_mapping_by_id(&m.id).unwrap().front_uri, "api");
    assert!(db.get_mapping_by_id("missing").is_none());
}

#[test]
fn update_changes_only_supplied_fields() {
    let mut db = MappingTable::new();
    let m = db.add_mapping("a.com", "api", 3000, "v1", None).unwrap();
    assert!(!db.update_mapping(&m.id, None, None, None, None));
    assert!(db.update_mapping(&m.id, None, Some("/v2/"), Some(4000), None));
    let u = db.get_mapping_by_id(&m.id).unwrap();
    assert_eq!(u.front_uri, "api");
    assert_eq!(u.back_uri, "v2");
    assert_eq!(u.back_port, 4000);
    assert_eq!(u.backend, None);
    assert!(db.update_mapping(&m.id, Some("/shop"), None, None, Some("http://x")));
    let u = db.get_mapping_by_id(&m.id).unwrap();
    assert_eq!(u.front_uri, "shop");
    assert_eq!(u.backend, Some("http://x".to_string()));
    assert!(db.update_mapping("no-such-id", Some("x"), None, None, None));
    assert_eq!(db.get_mapping_by_id(&m.id).unwrap().front_uri, "shop");
}

#[test]
fn delete_whole_domain_and_last_row() {
    let mut db = MappingTable::new();
    db.add_mapping("a.com", "x", 1, "", None).unwrap();
    db.add_mapping("a.com", "y", 2, "", None).unwrap();
    db.add_mapping("b.com", "x", 3, "", None).unwrap();
    assert_eq!(db.delete_mapping("a.com", Some("/x/")), 1);
    assert!(db.domain_exists("a.com"));
    assert_eq!(db.delete_mapping("a.com", Some("y")), 1);
    assert!(!db.domain_exists("a.com"));
    assert_eq!(db.delete_mapping("b.com", None), 1);
    assert_eq!(db.delete_mapping("b.com", None), 0);
    assert_eq!(db.list_mappings(None).len(), 0);
}

#[test]
fn list_is_ordered_by_domain_then_front() {
    let mut db = MappingTable::new();
    db.add_mapping("b.com", "z", 1, "", None).unwrap();
    db.add_mapping("a.com", "y", 2, "", None).unwrap();
    db.add_mapping("b.com", "a", 3, "", None).unwrap();
    db.add_mapping("a.com", "", 4, "", None).unwrap();
    let ports: Vec<u16> = db.list_mappings(None).iter().map(|m| m.back_port).collect();
    assert_eq!(ports, vec![4, 2, 3, 1]);
    let ports: Vec<u16> = db.list_mappings(Some("b.com")).iter().map(|m| m.back_port).collect();
    assert_eq!(ports, vec![3, 1]);
}

#[test]
fn duplicate_id_is_refused() {
    let mut db = MappingTable::new();
    let m = new_mapping("a.com", "x", 1, "", None);
    let id = m.id.clone();
    assert!(db.insert_row(m.clone()).is_ok());
    let mut again = new_mapping("b.com", "y", 2, "", None);
    again.id = id;
    assert_eq!(db.insert_row(again), Err(StoreError::DuplicateId));
    assert_eq!(db.len(), 1);
}

#[test]
fn sort_by_update_stamp() {
    let mut rows = Vec::new();
    for (i, stamp) in ["2024-03-01 00:00:00", "2024-01-01 00:00:00", "2024-02-01 00:00:00"].iter().enumerate() {
        let mut m = new_mapping("a.com", "x", i as u16, "", None);
        m.updated_at = stamp.to_string();
        rows.push(m);
    }
    let sorted = rustproxy::store::sort_rows(rows, RowOrder::UpdatedAt);
    let ports: Vec<u16> = sorted.iter().map(|m| m.back_port).collect();
    assert_eq!(ports, vec![1, 2, 0]);
}

#[test]
fn equal_keys_keep_table_order_in_listing() {
    let mut db = MappingTable::new();
    db.add_mapping("a.com", "x", 1, "", None).unwrap();
    db.add_mapping("b.com", "x", 2, "", None).unwrap();
    db.add_mapping("a.com", "x", 3, "", None).unwrap();
    db.add_mapping("a.com", "", 4, "", None).unwrap();
    let all: Vec<u16> = db.list_mappings(None).iter().map(|m| m.back_port).collect();
    assert_eq!(all, vec![4, 1, 3, 2]);
    let a: Vec<u16> = db.list_mappings(Some("a.com")).iter().map(|m| m.back_port).collect();
    assert_eq!(a, vec![4, 1, 3]);
}

#[test]
fn rows_to_delete_names_the_removed_rows() {
    let mut db = MappingTable::new();
    let x = db.add_mapping("a.com", "x", 1, "", None).unwrap();
    db.add_mapping("a.com", "y", 2, "", None).unwrap();
    let doomed = db.rows_to_delete("a.com", Some("/x"));
    assert_eq!(doomed.len(), 1);
    assert_eq!(doomed[0].id, x.id);
    assert_eq!(db.rows_to_delete("a.com", None).len(), 2);
    assert_eq!(db.delete_mapping("a.com", Some("/x")), 1);
}
