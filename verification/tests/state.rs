use lance_inspector::error::{ApiError, RequestError};
use lance_inspector::models::{DatasetInfo, ManifestView};
use lance_inspector::names::TextMap;
use lance_inspector::slots::BlobSlots;
use lance_inspector::state::{
    AppState, ConnectedDataset, IdleEntry, CONNECTION_IDLE_TTL, DISCOVERY_IDLE_TTL,
    MAX_CONNECTIONS,
};
use std::sync::Arc;
use uuid::Uuid;

type State = AppState<Arc<ConnectedDataset<()>>, (Arc<String>, String), Arc<u32>, Arc<u32>>;

fn info(uri: &str, reference: &str) -> Arc<DatasetInfo> {
    Arc::new(DatasetInfo {
        uri: uri.to_string(),
        reference: reference.to_string(),
        version: 1,
        branch: "main".to_string(),
        rows: 0,
        schema: Vec::new(),
        indices: Vec::new(),
        manifest: ManifestView {
            version: 1,
            path: String::new(),
            size: None,
            writer_version: None,
            timestamp_nanos: "0".to_string(),
            reader_feature_flags: 0,
            writer_feature_flags: 0,
            next_row_id: 0,
            max_fragment_id: None,
            transaction_file: None,
            data_storage_format: String::new(),
            config: TextMap::new(),
            table_metadata: TextMap::new(),
            base_paths: TextMap::new(),
        },
        fragments: Vec::new(),
    })
}

fn connection(uri: &str, reference: &str, namespace: u128) -> Arc<ConnectedDataset<()>> {
    Arc::new(ConnectedDataset {
        dataset: (),
        info: info(uri, reference),
        blob_cache_namespace: namespace,
    })
}

fn check_isolation() {
    let mut state = State::new();
    let first_id = Uuid::new_v4().as_u128();
    let second_id = Uuid::new_v4().as_u128();
    state.connect(first_id, connection("memory://first", "main", 1), 0);
    state.connect(second_id, connection("memory://second", "version:1", 2), 0);

    assert_eq!(state.connected(first_id, 1).unwrap().info.uri, "memory://first");
    assert_eq!(state.connected(second_id, 1).unwrap().info.uri, "memory://second");

    let unknown = Uuid::new_v4();
    let error = match state.connected(unknown.as_u128(), 1) {
        Ok(_) => panic!("unknown connection unexpectedly resolved"),
        Err(error) => error,
    };
    assert!(matches!(error, RequestError::UnknownConnection(_)));
    assert_eq!(
        error.message(),
        format!("connection {unknown} was not found or has expired; reconnect the dataset")
    );
    assert_eq!(ApiError::from_request(error).into_response().status, 410);
}

#[test]
fn api_isolates_connections_and_rejects_unknown_ids() {
    check_isolation();
}

#[test]
fn mod_isolates_connections_and_rejects_unknown_ids() {
    check_isolation();
}

#[test]
fn state_isolates_connections_and_rejects_unknown_ids() {
    let mut state = State::new();
    let first = connection("memory://first", "main", 1);
    let second = connection("memory://second", "version:1", 2);
    let first_slot = state.blob_array_slot(&first, "blob", 7, || Arc::new(0));
    assert!(Arc::ptr_eq(&first_slot, &state.blob_array_slot(&first, "blob", 7, || Arc::new(0))));
    assert!(!Arc::ptr_eq(&first_slot, &state.blob_array_slot(&second, "blob", 7, || Arc::new(0))));

    for namespace in 10..17 {
        let other = connection("memory://first", "main", namespace);
        state.blob_array_slot(&other, "blob", 7, || Arc::new(0));
    }
    assert!(!Arc::ptr_eq(&first_slot, &state.blob_array_slot(&first, "blob", 7, || Arc::new(0))));
    check_isolation();
}

#[test]
fn connect_reuses_the_discovered_dataset_root() {
    let mut state = State::new();
    let root = Arc::new("root".to_string());
    state.discover(9, (root.clone(), "memory://x".to_string()), 0);
    let (found, uri) = state.discovered(9, 1).unwrap();
    assert!(Arc::ptr_eq(&found, &root));
    assert_eq!(uri, "memory://x");
}

#[test]
fn forgets_what_is_not_used() {
    let mut state = State::new();
    state.connect(1, connection("a", "main", 1), 0);
    assert!(state.connected(1, CONNECTION_IDLE_TTL - 1).is_ok());
    assert!(state.connected(1, 2 * CONNECTION_IDLE_TTL - 2).is_ok());
    assert!(state.connected(1, 3 * CONNECTION_IDLE_TTL - 2).is_err());
    assert!(state.connected(1, 3 * CONNECTION_IDLE_TTL - 2).is_err());
    state.discover(2, (Arc::new(String::new()), String::new()), 0);
    let error = state.discovered(2, DISCOVERY_IDLE_TTL).unwrap_err();
    let id = Uuid::from_u128(2);
    assert_eq!(
        error.message(),
        format!("dataset discovery {id} was not found or has expired; rediscover the dataset")
    );
    assert_eq!(ApiError::from_request(error).into_response().status, 410);
}

#[test]
fn keeps_cursors_until_they_are_closed() {
    let mut state = State::new();
    state.open_query(5, Arc::new(1));
    assert_eq!(*state.query(5).unwrap(), 1);
    state.close_query(5);
    let error = state.query(5).unwrap_err();
    let id = Uuid::from_u128(5);
    assert_eq!(
        error.message(),
        format!("SQL cursor {id} was not found or has expired; rerun the query")
    );
    assert_eq!(ApiError::from_request(error).into_response().status, 404);
}

#[test]
fn keeps_a_bounded_number_of_sessions() {
    let mut state = State::new();
    for id in 0..=MAX_CONNECTIONS as u128 {
        state.connect(id, connection("a", "main", id), 0);
    }
    assert!(state.connected(0, 0).is_err());
    assert!(state.connected(1, 0).is_ok());
}

#[test]
fn idle_entries_expire() {
    let mut entry = IdleEntry::new("value", 10);
    assert_eq!(entry.access(14, 5), Some("value"));
    assert_eq!(entry.last_accessed, 14);
    assert_eq!(entry.access(19, 5), None);
    assert_eq!(entry.last_accessed, 14);
    assert_eq!(entry.access(3, 5), Some("value"));
}

#[test]
fn slots_tell_columns_and_rows_apart() {
    let mut slots = BlobSlots::new(3);
    assert_eq!(slots.slot(1, "a", 1, || 10), 10);
    assert_eq!(slots.slot(1, "b", 1, || 20), 20);
    assert_eq!(slots.slot(1, "a", 2, || 30), 30);
    assert_eq!(slots.slot(1, "a", 1, || 40), 10);
    assert_eq!(slots.slot(2, "a", 1, || 50), 50);
    assert_eq!(slots.slot(1, "a", 1, || 60), 10);
    assert_eq!(slots.slot(1, "b", 1, || 70), 70);
}
