use lance_inspector::transaction::{
    check_transaction_path, fragment_json, operation_json, transaction_view, Fragment, Json,
    Operation, TransactionRecord,
};

fn fragment() -> Fragment {
    Fragment {
        id: 4,
        physical_rows: Some(10),
        visible_rows: None,
        data_files: vec!["a.lance".to_string()],
        deletion_count: Some(1),
    }
}

fn member<'a>(json: &'a Json, name: &str) -> &'a Json {
    match json {
        Json::Object(members) => {
            let found = members.iter().find(|(key, _)| key == name);
            &found.expect("the member is there").1
        }
        _ => panic!("an object has members"),
    }
}

fn names(json: &Json) -> Vec<&str> {
    match json {
        Json::Object(members) => members.iter().map(|(key, _)| key.as_str()).collect(),
        _ => panic!("an object has members"),
    }
}

#[test]
fn shows_fragments() {
    let json = fragment_json(&fragment());
    assert_eq!(
        names(&json),
        vec!["id", "physical_rows", "visible_rows", "data_files", "deletion_count"]
    );
    assert!(matches!(member(&json, "id"), Json::Number(4)));
    assert!(matches!(member(&json, "visible_rows"), Json::Null));
    assert!(matches!(member(&json, "deletion_count"), Json::Number(1)));
    assert!(matches!(
        member(&json, "data_files"),
        Json::List(files) if matches!(&files[0], Json::Text(path) if path == "a.lance")
    ));
}

#[test]
fn shows_operations() {
    let append = operation_json(&Operation::Append { fragments: vec![fragment(), fragment()] });
    assert!(matches!(member(&append, "fragment_count"), Json::Number(2)));
    assert!(matches!(member(&append, "fragments"), Json::List(list) if list.len() == 2));
    let delete = operation_json(&Operation::Delete {
        updated_fragments: Vec::new(),
        deleted_fragment_ids: vec![3],
        predicate: "x > 1".to_string(),
    });
    assert_eq!(names(&delete), vec!["predicate", "updated_fragments", "deleted_fragment_ids"]);
    assert!(matches!(
        member(&delete, "deleted_fragment_ids"),
        Json::List(list) if matches!(list[0], Json::Number(3))
    ));
    let overwrite = operation_json(&Operation::Overwrite {
        fragments: Vec::new(),
        schema_fields: vec!["id".to_string()],
        config_upsert_values: Some(vec![("k".to_string(), "v".to_string())]),
        initial_bases: None,
    });
    assert!(matches!(
        member(member(&overwrite, "config_upsert_values"), "k"),
        Json::Text(value) if value == "v"
    ));
    assert!(matches!(member(&overwrite, "initial_bases"), Json::Null));
    let clone = operation_json(&Operation::Clone {
        is_shallow: true,
        ref_name: None,
        ref_version: 2,
        ref_path: "p".to_string(),
        branch_name: Some("dev".to_string()),
    });
    assert!(matches!(member(&clone, "is_shallow"), Json::Bool(true)));
    assert!(matches!(member(&clone, "branch_name"), Json::Text(name) if name == "dev"));
    let restore = operation_json(&Operation::Restore { version: 6 });
    assert!(matches!(member(&restore, "restored_version"), Json::Number(6)));
    let reserve = operation_json(&Operation::ReserveFragments { num_fragments: 5 });
    assert!(matches!(member(&reserve, "reserved_fragment_count"), Json::Number(5)));
    let other = operation_json(&Operation::Other {
        summary: "Merge".to_string(),
        details: "Merge { .. }".to_string(),
    });
    assert_eq!(names(&other), vec!["summary", "details"]);
}

#[test]
fn shows_transactions() {
    assert!(check_transaction_path("_transactions/1.txn").is_ok());
    assert_eq!(
        check_transaction_path("data/1.lance").unwrap_err().context,
        "transaction path must end in .txn"
    );
    let view = transaction_view(
        "_transactions/1.txn",
        TransactionRecord {
            read_version: 1,
            uuid: "u".to_string(),
            tag: None,
            properties: Some(vec![
                ("b".to_string(), "2".to_string()),
                ("a".to_string(), "1".to_string()),
            ]),
            operation_type: "Restore".to_string(),
            operation: Operation::Restore { version: 6 },
        },
    );
    assert_eq!(view.path, "_transactions/1.txn");
    assert_eq!(view.properties.entries()[0].0, "a");
    assert_eq!(view.operation_type, "Restore");
    assert!(matches!(member(&view.operation, "restored_version"), Json::Number(6)));
}
