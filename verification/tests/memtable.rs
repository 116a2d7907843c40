use dirty_memtable::memtable::{Kind, Memtable, ValTomb, KV, VT};

fn value(v: &str) -> ValTomb {
    ValTomb { kind: Kind::Value, value: v.to_string() }
}

fn tombstone() -> ValTomb {
    ValTomb { kind: Kind::Tombstone, value: String::new() }
}

fn absent() -> ValTomb {
    ValTomb { kind: Kind::Absent, value: String::new() }
}

#[test]
fn query_after_update_returns_the_value() {
    let mut table = Memtable::new();
    table.update("k", "v");
    assert_eq!(table.query("k"), value("v"));
}

#[test]
fn query_after_delete_returns_a_tombstone() {
    let mut table = Memtable::new();
    table.update("k", "v");
    table.delete("k");
    assert_eq!(table.query("k"), tombstone());
}

#[test]
fn delete_of_a_key_never_written_leaves_a_tombstone() {
    let mut table = Memtable::new();
    table.delete("never");
    assert_eq!(table.query("never"), tombstone());
    assert!(!table.is_empty());
    assert_eq!(table.snapshot_entries(), vec![KV("never".to_string(), tombstone())]);
}

#[test]
fn query_of_an_untouched_key_is_absent() {
    let mut table = Memtable::new();
    assert_eq!(table.query("k"), absent());
    table.update("other", "v");
    assert_eq!(table.query("k"), absent());
}

#[test]
fn last_write_wins() {
    let mut table = Memtable::new();
    table.update("k", "1");
    table.update("k", "2");
    assert_eq!(table.query("k"), value("2"));
    table.update("k", "2");
    assert_eq!(table.query("k"), value("2"));
    assert_eq!(table.snapshot_entries().len(), 1);
    table.delete("k");
    table.update("k", "3");
    assert_eq!(table.query("k"), value("3"));
}

#[test]
fn an_empty_value_is_not_a_tombstone() {
    let mut table = Memtable::new();
    table.update("k", "");
    assert_eq!(table.query("k"), value(""));
}

#[test]
fn snapshot_is_in_ascending_key_order() {
    let mut table = Memtable::new();
    assert!(table.is_empty());
    assert!(table.snapshot_entries().is_empty());
    table.update("pear", "3");
    table.update("apple", "1");
    table.delete("fig");
    table.update("banana", "2");
    assert!(!table.is_empty());
    assert_eq!(
        table.snapshot_entries(),
        vec![
            KV("apple".to_string(), value("1")),
            KV("banana".to_string(), value("2")),
            KV("fig".to_string(), tombstone()),
            KV("pear".to_string(), value("3")),
        ]
    );
}

#[test]
fn a_stored_entry_is_shown_with_its_tag() {
    assert_eq!(ValTomb::from(&VT::Value("v".to_string())), value("v"));
    assert_eq!(ValTomb::from(&VT::Tombstone), tombstone());
}
