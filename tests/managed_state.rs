use topn_state::row::{DataType, OrderType, OrderedRow, Row, ScalarImpl};
use topn_state::state::ManagedTopNBottomNState;
use topn_state::store::{Keyspace, MemoryStateStore, StateStore};

fn create_managed_top_n_bottom_n_state<S: StateStore>(
    store: S,
    row_count: usize,
    data_types: Vec<DataType>,
) -> ManagedTopNBottomNState<S> {
    ManagedTopNBottomNState::new(
        Some(1),
        row_count,
        Keyspace::executor_root(store, 0x2333),
        data_types,
    )
}

fn row(s: &str, v: i64) -> Row {
    Row(vec![Some(ScalarImpl::Utf8(s.to_string())), Some(ScalarImpl::Int64(v))])
}

#[test]
fn test_managed_top_n_bottom_n_state() {
    let data_types = vec![DataType::Varchar, DataType::Int64];
    let order_types = vec![OrderType::Descending, OrderType::Ascending];
    let store = MemoryStateStore::new();
    let mut managed_state = create_managed_top_n_bottom_n_state(store, 0, data_types.clone());
    let row1 = row("abc", 2);
    let row2 = row("abc", 3);
    let row3 = row("abd", 3);
    let row4 = row("ab", 4);
    let rows = vec![row1, row2, row3, row4];
    let ordered_rows = rows
        .clone()
        .into_iter()
        .map(|row| OrderedRow::new(row, &order_types))
        .collect::<Vec<_>>();

    managed_state.insert(ordered_rows[3].clone(), rows[3].clone());
    // now ("ab", 4)

    assert_eq!(managed_state.top_element(), Some((&ordered_rows[3], &rows[3])));
    assert_eq!(managed_state.bottom_element(), Some((&ordered_rows[3], &rows[3])));
    assert!(managed_state.is_dirty());
    assert_eq!(managed_state.get_cache_len(), 1);

    managed_state.insert(ordered_rows[2].clone(), rows[2].clone());
    // now ("abd", 3) -> ("ab", 4)

    assert_eq!(managed_state.top_element(), Some((&ordered_rows[3], &rows[3])));
    assert_eq!(managed_state.bottom_element(), Some((&ordered_rows[2], &rows[2])));
    assert!(managed_state.is_dirty());
    assert_eq!(managed_state.get_cache_len(), 2);

    managed_state.insert(ordered_rows[1].clone(), rows[1].clone());
    // now ("abd", 3) -> ("abc", 3) -> ("ab", 4)

    assert_eq!(managed_state.top_element(), Some((&ordered_rows[3], &rows[3])));
    assert_eq!(managed_state.bottom_element(), Some((&ordered_rows[2], &rows[2])));
    assert_eq!(managed_state.get_cache_len(), 3);
    managed_state.flush().unwrap();
    assert!(!managed_state.is_dirty());
    let row_count = managed_state.total_count();
    assert_eq!(row_count, 3);
    // After flush, all elements should be kept in the cache.
    assert_eq!(managed_state.get_cache_len(), 3);

    let store = managed_state.into_keyspace().into_store();
    let mut managed_state = create_managed_top_n_bottom_n_state(store, row_count, data_types.clone());
    assert_eq!(managed_state.top_element(), None);
    managed_state.fill_in_cache().unwrap();
    // now ("abd", 3) -> ("abc", 3) -> ("ab", 4)
    assert_eq!(managed_state.top_element(), Some((&ordered_rows[3], &rows[3])));
    assert_eq!(managed_state.bottom_element(), Some((&ordered_rows[2], &rows[2])));
    // Right after recovery.
    assert!(!managed_state.is_dirty());
    assert_eq!(managed_state.get_cache_len(), 3);

    assert_eq!(
        managed_state.pop_top_element().unwrap(),
        Some((ordered_rows[3].clone(), rows[3].clone()))
    );
    // now ("abd", 3) -> ("abc", 3)
    assert_eq!(managed_state.top_element(), Some((&ordered_rows[1], &rows[1])));
    assert_eq!(managed_state.bottom_element(), Some((&ordered_rows[2], &rows[2])));
    assert!(managed_state.is_dirty());
    assert_eq!(managed_state.total_count(), 2);
    assert_eq!(managed_state.get_cache_len(), 2);
    assert_eq!(
        managed_state.pop_top_element().unwrap(),
        Some((ordered_rows[1].clone(), rows[1].clone()))
    );
    // now ("abd", 3)
    assert!(managed_state.is_dirty());
    assert_eq!(managed_state.total_count(), 1);
    assert_eq!(managed_state.get_cache_len(), 1);

    assert_eq!(managed_state.top_element(), Some((&ordered_rows[2], &rows[2])));
    assert_eq!(managed_state.bottom_element(), Some((&ordered_rows[2], &rows[2])));
    managed_state.flush().unwrap();
    assert!(!managed_state.is_dirty());

    managed_state.insert(ordered_rows[0].clone(), rows[0].clone());
    // now ("abd", 3) -> ("abc", 2)
    assert_eq!(managed_state.top_element(), Some((&ordered_rows[0], &rows[0])));
    assert_eq!(managed_state.bottom_element(), Some((&ordered_rows[2], &rows[2])));

    // Exclude the last `insert` as the state crashes before recovery.
    let row_count = managed_state.total_count() - 1;
    let store = managed_state.into_keyspace().into_store();
    let mut managed_state = create_managed_top_n_bottom_n_state(store, row_count, data_types.clone());
    managed_state.fill_in_cache().unwrap();
    assert_eq!(managed_state.top_element(), Some((&ordered_rows[2], &rows[2])));
    assert_eq!(managed_state.bottom_element(), Some((&ordered_rows[2], &rows[2])));
}
