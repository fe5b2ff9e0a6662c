use topn_state::chain::{Chain, ChainState, SnapshotFailure};
use topn_state::codec::{decode_datum, encode_cell, encode_cell_key, push_be, read_be};
use topn_state::bytes::compare_bytes;
use topn_state::delta::{DeltaTracker, FlushStatus};
use topn_state::merge::merge_with_deltas;
use topn_state::persist::decode_entries;
use topn_state::row::{DataType, OrderType, OrderedRow, Row, ScalarImpl};
use topn_state::state::{ManagedTopNBottomNState, StateError};
use topn_state::store::{Keyspace, MemoryStateStore, StateStore};

fn row(s: &str, v: i64) -> Row {
    Row(vec![Some(ScalarImpl::Utf8(s.to_string())), Some(ScalarImpl::Int64(v))])
}

fn orders() -> Vec<OrderType> {
    vec![OrderType::Descending, OrderType::Ascending]
}

fn key(s: &str, v: i64) -> OrderedRow {
    OrderedRow::new(row(s, v), &orders())
}

fn int_row(v: i64) -> Row {
    Row(vec![Some(ScalarImpl::Int64(v))])
}

fn int_key(v: i64) -> OrderedRow {
    OrderedRow::new(int_row(v), &[OrderType::Ascending])
}

fn state(cache: Option<usize>) -> ManagedTopNBottomNState<MemoryStateStore> {
    ManagedTopNBottomNState::new(
        cache,
        0,
        Keyspace::executor_root(MemoryStateStore::new(), 7),
        vec![DataType::Varchar, DataType::Int64],
    )
}

fn int_state(cache: Option<usize>, store: MemoryStateStore, count: usize) -> ManagedTopNBottomNState<MemoryStateStore> {
    ManagedTopNBottomNState::new(cache, count, Keyspace::executor_root(store, 7), vec![DataType::Int64])
}

#[test]
fn delta_insert_over_each_state() {
    assert_eq!(FlushStatus::do_insert(None, int_row(1)), FlushStatus::Insert(int_row(1)));
    assert_eq!(
        FlushStatus::do_insert(Some(FlushStatus::Insert(int_row(0))), int_row(1)),
        FlushStatus::Insert(int_row(1))
    );
    assert_eq!(
        FlushStatus::do_insert(Some(FlushStatus::Delete), int_row(1)),
        FlushStatus::DeleteInsert(int_row(1))
    );
    assert_eq!(
        FlushStatus::do_insert(Some(FlushStatus::DeleteInsert(int_row(0))), int_row(1)),
        FlushStatus::DeleteInsert(int_row(1))
    );
}

#[test]
fn delta_delete_over_each_state() {
    assert_eq!(FlushStatus::do_delete(None), Some(FlushStatus::Delete));
    assert_eq!(FlushStatus::do_delete(Some(FlushStatus::Insert(int_row(0)))), None);
    assert_eq!(FlushStatus::do_delete(Some(FlushStatus::Delete)), Some(FlushStatus::Delete));
    assert_eq!(FlushStatus::do_delete(Some(FlushStatus::DeleteInsert(int_row(0)))), Some(FlushStatus::Delete));
}

#[test]
fn tracker_collapses_per_key() {
    let mut t = DeltaTracker::new();
    t.record_insert(int_key(5), int_row(5));
    t.record_delete(int_key(5));
    assert!(t.is_empty());
    t.record_delete(int_key(3));
    t.record_insert(int_key(3), int_row(30));
    t.record_insert(int_key(1), int_row(1));
    assert_eq!(t.len(), 2);
    assert_eq!(t.entry(0), &(int_key(1), FlushStatus::Insert(int_row(1))));
    assert_eq!(t.entry(1), &(int_key(3), FlushStatus::DeleteInsert(int_row(30))));
}

#[test]
fn key_order_follows_directions() {
    // Descending on the string: "abd" sorts before "abc", which sorts before "ab".
    assert_eq!(compare_bytes(key("abd", 3).as_bytes(), key("abc", 3).as_bytes()), -1);
    assert_eq!(compare_bytes(key("abc", 3).as_bytes(), key("ab", 4).as_bytes()), -1);
    // Ascending on the integer within one string.
    assert_eq!(compare_bytes(key("abc", 2).as_bytes(), key("abc", 3).as_bytes()), -1);
    assert_eq!(compare_bytes(int_key(-1).as_bytes(), int_key(0).as_bytes()), -1);
    assert_eq!(compare_bytes(int_key(i64::MIN).as_bytes(), int_key(i64::MAX).as_bytes()), -1);
    let null_key = OrderedRow::new(Row(vec![None]), &[OrderType::Ascending]);
    assert_eq!(compare_bytes(null_key.as_bytes(), int_key(i64::MIN).as_bytes()), -1);
}

#[test]
fn key_encoding_exact_bytes() {
    assert_eq!(int_key(1).as_bytes(), &[1u8, 0x80, 0, 0, 0, 0, 0, 0, 1][..]);
    let k = OrderedRow::new(Row(vec![Some(ScalarImpl::Utf8("a\0".to_string()))]), &[OrderType::Ascending]);
    assert_eq!(k.as_bytes(), &[1u8, b'a', 0, 255, 0, 0][..]);
    let d = OrderedRow::new(Row(vec![Some(ScalarImpl::Bool(true))]), &[OrderType::Descending]);
    assert_eq!(d.as_bytes(), &[254u8, 254][..]);
}

#[test]
fn cell_encoding_round_trips() {
    let cells = vec![
        (None, DataType::Int32),
        (Some(ScalarImpl::Int16(-7)), DataType::Int16),
        (Some(ScalarImpl::Int32(123456)), DataType::Int32),
        (Some(ScalarImpl::Int64(-9_000_000_000)), DataType::Int64),
        (Some(ScalarImpl::Bool(false)), DataType::Boolean),
        (Some(ScalarImpl::Utf8("héllo".to_string())), DataType::Varchar),
    ];
    for (d, t) in cells {
        let b = encode_cell(&d);
        assert_eq!(decode_datum(&b, t), Some(d));
    }
    assert_eq!(encode_cell(&Some(ScalarImpl::Int16(1))), vec![1u8, 0x80, 1]);
    assert_eq!(encode_cell(&Some(ScalarImpl::Utf8("ab".to_string()))), vec![1u8, b'a', b'b']);
    assert_eq!(decode_datum(&[1u8, 0xff], DataType::Varchar), None);
    assert_eq!(decode_datum(&[1u8, 0, 1], DataType::Int32), None);
    assert_eq!(decode_datum(&[2u8], DataType::Int32), None);
}

#[test]
fn big_endian_helpers() {
    let mut out = vec![9u8];
    push_be(&mut out, 0x0102_0304, 4);
    assert_eq!(out, vec![9u8, 1, 2, 3, 4]);
    assert_eq!(read_be(&[1u8, 2, 3, 4]), 0x0102_0304);
    let k = encode_cell_key(&[7u8], &int_key(0), 2);
    assert_eq!(k, vec![7u8, 1, 0x80, 0, 0, 0, 0, 0, 0, 0, 0, 0, 0, 2]);
}

#[test]
fn merge_applies_pending_effects() {
    let storage = vec![
        (int_key(1), int_row(1)),
        (int_key(3), int_row(3)),
        (int_key(5), int_row(5)),
    ];
    let mut t = DeltaTracker::new();
    t.record_delete(int_key(1));
    t.record_delete(int_key(3));
    t.record_insert(int_key(3), int_row(33));
    t.record_insert(int_key(4), int_row(4));
    t.record_insert(int_key(9), int_row(9));
    t.record_delete(int_key(7));
    let merged = merge_with_deltas(&storage, &t);
    assert_eq!(
        merged,
        vec![
            (int_key(3), int_row(33)),
            (int_key(4), int_row(4)),
            (int_key(5), int_row(5)),
            (int_key(9), int_row(9)),
        ]
    );
    assert_eq!(merge_with_deltas(&vec![], &DeltaTracker::new()), vec![]);
}

#[test]
fn decode_rejects_partial_and_unsorted_groups() {
    let types = vec![DataType::Int64];
    let good = vec![
        (encode_cell_key(&[], &int_key(1), 0), encode_cell(&Some(ScalarImpl::Int64(1)))),
        (encode_cell_key(&[], &int_key(2), 0), encode_cell(&Some(ScalarImpl::Int64(2)))),
    ];
    assert_eq!(
        decode_entries(&good, &types),
        Some(vec![(int_key(1), int_row(1)), (int_key(2), int_row(2))])
    );
    let mut unsorted = good.clone();
    unsorted.swap(0, 1);
    assert_eq!(decode_entries(&unsorted, &types), None);
    let two = vec![DataType::Int64, DataType::Int64];
    assert_eq!(decode_entries(&good, &two), None);
    let short = vec![(vec![1u8, 2], vec![0u8])];
    assert_eq!(decode_entries(&short, &types), None);
}

#[test]
fn scenario_without_capacity() {
    let mut s = state(None);
    s.insert(key("ab", 4), row("ab", 4));
    assert_eq!(s.top_element(), Some((&key("ab", 4), &row("ab", 4))));
    assert_eq!(s.bottom_element(), Some((&key("ab", 4), &row("ab", 4))));
    s.insert(key("abd", 3), row("abd", 3));
    assert_eq!(s.top_element(), Some((&key("ab", 4), &row("ab", 4))));
    assert_eq!(s.bottom_element(), Some((&key("abd", 3), &row("abd", 3))));
    s.insert(key("abc", 3), row("abc", 3));
    assert_eq!(s.top_element(), Some((&key("ab", 4), &row("ab", 4))));
    assert_eq!(s.bottom_element(), Some((&key("abd", 3), &row("abd", 3))));
    assert_eq!(s.get_cache_len(), 3);
    s.flush().unwrap();
    assert!(!s.is_dirty());
    assert_eq!(s.total_count(), 3);
    assert_eq!(s.pop_top_element().unwrap(), Some((key("ab", 4), row("ab", 4))));
    assert_eq!(s.total_count(), 2);
}

#[test]
fn scenario_with_capacity_one() {
    let mut s = state(Some(1));
    s.insert(key("ab", 4), row("ab", 4));
    s.retain_both_n();
    assert_eq!(s.top_element(), Some((&key("ab", 4), &row("ab", 4))));
    assert_eq!(s.bottom_element(), Some((&key("ab", 4), &row("ab", 4))));
    s.insert(key("abd", 3), row("abd", 3));
    s.retain_both_n();
    assert_eq!(s.top_element(), Some((&key("ab", 4), &row("ab", 4))));
    assert_eq!(s.bottom_element(), Some((&key("abd", 3), &row("abd", 3))));
    s.insert(key("abc", 3), row("abc", 3));
    s.retain_both_n();
    assert_eq!(s.top_element(), Some((&key("ab", 4), &row("ab", 4))));
    assert_eq!(s.bottom_element(), Some((&key("abd", 3), &row("abd", 3))));
    // The middle key was evicted from the caches.
    assert_eq!(s.get_cache_len(), 2);
    s.flush().unwrap();
    assert!(!s.is_dirty());
    assert_eq!(s.total_count(), 3);
    assert_eq!(s.pop_top_element().unwrap(), Some((key("ab", 4), row("ab", 4))));
    assert_eq!(s.total_count(), 2);
}

#[test]
fn flush_twice_is_a_no_op() {
    let mut s = int_state(None, MemoryStateStore::new(), 0);
    s.insert(int_key(1), int_row(1));
    s.flush().unwrap();
    assert!(!s.is_dirty());
    let before = s.into_keyspace().into_store();
    let n = before.len();
    let mut s = int_state(None, before, 1);
    s.flush().unwrap();
    assert!(!s.is_dirty());
    s.flush().unwrap();
    assert!(!s.is_dirty());
    assert_eq!(s.into_keyspace().into_store().len(), n);
}

#[test]
fn count_follows_inserts_and_deletes() {
    let mut s = int_state(None, MemoryStateStore::new(), 0);
    for v in 0..5 {
        s.insert(int_key(v), int_row(v));
    }
    assert_eq!(s.total_count(), 5);
    assert_eq!(s.delete(&int_key(2)).unwrap(), Some(int_row(2)));
    assert_eq!(s.delete(&int_key(0)).unwrap(), Some(int_row(0)));
    assert_eq!(s.total_count(), 3);
    assert_eq!(s.pop_bottom_element().unwrap(), Some((int_key(1), int_row(1))));
    assert_eq!(s.total_count(), 2);
}

#[test]
fn caches_stay_apart_through_operations() {
    let mut s = int_state(Some(2), MemoryStateStore::new(), 0);
    for v in [5i64, 1, 9, 3, 7, 2, 8] {
        s.insert(int_key(v), int_row(v));
    }
    s.retain_both_n();
    assert_eq!(s.get_cache_len(), 4);
    assert_eq!(s.bottom_element(), Some((&int_key(1), &int_row(1))));
    assert_eq!(s.top_element(), Some((&int_key(9), &int_row(9))));
    s.flush().unwrap();
    // Drain the caches so that a delete triggers a rebuild from the store.
    assert_eq!(s.pop_top_element().unwrap(), Some((int_key(9), int_row(9))));
    assert_eq!(s.pop_top_element().unwrap(), Some((int_key(8), int_row(8))));
    assert_eq!(s.pop_bottom_element().unwrap(), Some((int_key(1), int_row(1))));
    assert_eq!(s.pop_bottom_element().unwrap(), Some((int_key(2), int_row(2))));
    // Both caches ran dry with three rows left: they were rebuilt.
    assert_eq!(s.total_count(), 3);
    assert_eq!(s.get_cache_len(), 3);
    assert_eq!(s.bottom_element(), Some((&int_key(3), &int_row(3))));
    assert_eq!(s.top_element(), Some((&int_key(7), &int_row(7))));
}

#[test]
fn flushed_state_survives_reconstruction() {
    let mut s = int_state(None, MemoryStateStore::new(), 0);
    for v in [4i64, 2, 6] {
        s.insert(int_key(v), int_row(v));
    }
    s.flush().unwrap();
    let top = s.top_element().map(|(k, r)| (k.clone(), r.clone()));
    let bottom = s.bottom_element().map(|(k, r)| (k.clone(), r.clone()));
    let count = s.total_count();
    let store = s.into_keyspace().into_store();
    let mut s = int_state(None, store, count);
    s.fill_in_cache().unwrap();
    assert_eq!(s.top_element().map(|(k, r)| (k.clone(), r.clone())), top);
    assert_eq!(s.bottom_element().map(|(k, r)| (k.clone(), r.clone())), bottom);
}

#[test]
fn unflushed_writes_are_lost_on_crash() {
    let mut s = int_state(None, MemoryStateStore::new(), 0);
    s.insert(int_key(4), int_row(4));
    s.flush().unwrap();
    s.insert(int_key(10), int_row(10));
    s.insert(int_key(0), int_row(0));
    assert_eq!(s.delete(&int_key(4)).unwrap(), Some(int_row(4)));
    let store = s.into_keyspace().into_store();
    let mut s = int_state(None, store, 1);
    s.fill_in_cache().unwrap();
    assert_eq!(s.top_element(), Some((&int_key(4), &int_row(4))));
    assert_eq!(s.bottom_element(), Some((&int_key(4), &int_row(4))));
    assert_eq!(s.get_cache_len(), 1);
}

#[test]
fn corrupted_store_is_reported() {
    let mut store = MemoryStateStore::new();
    let mut prefix = vec![0x65u8];
    push_be(&mut prefix, 7, 4);
    let mut k = prefix.clone();
    k.extend_from_slice(&[1, 2, 3]);
    store.ingest_batch(vec![(k, Some(vec![9u8]))]).unwrap();
    let mut s = int_state(None, store, 1);
    assert_eq!(s.fill_in_cache(), Err(StateError::Corrupted));
    assert_eq!(s.get_cache_len(), 0);
}

#[test]
fn empty_state_reports_nothing() {
    let mut s = int_state(Some(3), MemoryStateStore::new(), 0);
    assert_eq!(s.top_element(), None);
    assert_eq!(s.bottom_element(), None);
    assert_eq!(s.pop_top_element().unwrap(), None);
    assert_eq!(s.pop_bottom_element().unwrap(), None);
    assert!(!s.is_dirty());
    s.flush().unwrap();
}

#[test]
fn chain_switches_on_end_of_snapshot() {
    let mut c = Chain::new(1u8, 2u8);
    assert_eq!(c.state(), ChainState::ReadingSnapshot);
    assert_eq!(c.on_snapshot_failure(false), SnapshotFailure::Propagate);
    assert_eq!(c.state(), ChainState::ReadingSnapshot);
    assert_eq!(c.on_snapshot_failure(true), SnapshotFailure::SwitchToMView);
    assert_eq!(c.state(), ChainState::ReadingMView);
    assert_eq!((c.snapshot, c.mview), (1u8, 2u8));
}

