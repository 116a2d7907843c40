use dirty_memtable::flush::{
    clear, delete, finalize_flush, prepare_flush, query, update, FlushCoordinator, Status,
};
use dirty_memtable::memtable::{Kind, ValTomb, KV};

fn value(v: &str) -> ValTomb {
    ValTomb { kind: Kind::Value, value: v.to_string() }
}

fn tombstone() -> ValTomb {
    ValTomb { kind: Kind::Tombstone, value: String::new() }
}

fn absent() -> ValTomb {
    ValTomb { kind: Kind::Absent, value: String::new() }
}

#[test]
fn end_to_end_flush() {
    let mut c = FlushCoordinator::new();
    update(&mut c, "a", "1");
    update(&mut c, "b", "2");
    delete(&mut c, "a");
    let first = prepare_flush(&mut c);
    assert_eq!(first.status, Status::Proceed);
    assert_eq!(
        first.flushing,
        vec![KV("a".to_string(), tombstone()), KV("b".to_string(), value("2"))]
    );
    assert_eq!(query(&c, "a"), absent());
    finalize_flush(&mut c);
    let second = prepare_flush(&mut c);
    assert_eq!(second.status, Status::Proceed);
    assert!(second.flushing.is_empty());
}

#[test]
fn a_second_prepare_waits_for_the_first_to_be_finalized() {
    let mut c = FlushCoordinator::new();
    update(&mut c, "a", "1");
    let first = prepare_flush(&mut c);
    assert_eq!(first.status, Status::Proceed);
    update(&mut c, "b", "2");
    delete(&mut c, "c");
    let second = prepare_flush(&mut c);
    assert_eq!(second.status, Status::AlreadyInProgress);
    assert!(second.flushing.is_empty());
    assert_eq!(query(&c, "b"), value("2"));
    assert_eq!(query(&c, "c"), tombstone());
    let third = prepare_flush(&mut c);
    assert_eq!(third.status, Status::AlreadyInProgress);
    assert!(third.flushing.is_empty());
    finalize_flush(&mut c);
    let fourth = prepare_flush(&mut c);
    assert_eq!(fourth.status, Status::Proceed);
    assert_eq!(
        fourth.flushing,
        vec![KV("b".to_string(), value("2")), KV("c".to_string(), tombstone())]
    );
}

#[test]
fn writes_after_a_prepare_are_not_in_its_entries() {
    let mut c = FlushCoordinator::new();
    update(&mut c, "a", "1");
    let first = prepare_flush(&mut c);
    update(&mut c, "z", "9");
    update(&mut c, "a", "changed");
    assert_eq!(first.flushing, vec![KV("a".to_string(), value("1"))]);
    assert_eq!(query(&c, "a"), value("changed"));
}

#[test]
fn clear_discards_both_tables() {
    let mut c = FlushCoordinator::new();
    update(&mut c, "a", "1");
    let first = prepare_flush(&mut c);
    assert_eq!(first.status, Status::Proceed);
    update(&mut c, "b", "2");
    clear(&mut c);
    assert_eq!(query(&c, "a"), absent());
    assert_eq!(query(&c, "b"), absent());
    let next = prepare_flush(&mut c);
    assert_eq!(next.status, Status::Proceed);
    assert!(next.flushing.is_empty());
}

#[test]
fn clear_of_an_idle_coordinator_leaves_it_idle() {
    let mut c = FlushCoordinator::new();
    clear(&mut c);
    update(&mut c, "a", "1");
    assert_eq!(query(&c, "a"), value("1"));
}

#[test]
fn finalize_without_a_flush_keeps_the_writes() {
    let mut c = FlushCoordinator::new();
    update(&mut c, "a", "1");
    finalize_flush(&mut c);
    assert_eq!(query(&c, "a"), value("1"));
    let r = prepare_flush(&mut c);
    assert_eq!(r.status, Status::Proceed);
    assert_eq!(r.flushing, vec![KV("a".to_string(), value("1"))]);
}

#[test]
fn a_new_coordinator_is_empty() {
    let c = FlushCoordinator::new();
    assert_eq!(query(&c, "anything"), absent());
}
