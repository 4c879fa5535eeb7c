use lance_inspector::dataset::{
    after_branches, after_tags, branch_history, branch_order, dataset_location, open_failure,
    parse_reference, requested_reference, tag_views, version_records, version_views,
    BranchContents, DatasetReference, ReferenceStep, TagContents,
};
use lance_inspector::models::TagView;
use lance_inspector::schema::{DataType, Field};
use lance_inspector::snapshot::{
    build_dataset_info, ColumnSnapshot, DataFileSnapshot, DatasetSnapshot, DeletedRows,
    DeletionSnapshot, FragmentSnapshot, IndexSnapshot, ManifestSnapshot,
};

#[test]
fn trims_locations() {
    assert_eq!(dataset_location(" s3://bucket/set \n").unwrap(), "s3://bucket/set");
    let error = dataset_location(" \t").unwrap_err();
    assert_eq!(error.into_response().error, "dataset location cannot be empty");
    assert_eq!(
        open_failure("x", "not found").into_response().error,
        "failed to open Lance dataset x: not found"
    );
}

fn tags() -> Vec<TagView> {
    let contents = |branch: Option<&str>, version| TagContents {
        branch: branch.map(|name| name.to_string()),
        version,
    };
    tag_views(vec![
        ("v2".to_string(), contents(Some("dev"), 3)),
        ("v1".to_string(), contents(None, 3)),
        ("V3".to_string(), contents(None, 3)),
    ])
}

#[test]
fn sorts_tags_by_name() {
    let tags = tags();
    let names: Vec<_> = tags.iter().map(|tag| tag.name.as_str()).collect();
    assert_eq!(names, vec!["V3", "v1", "v2"]);
    assert_eq!(tags[1].branch, "main");
    assert_eq!(tags[2].branch, "dev");
    assert_eq!(tags[2].version, 3);
}

#[test]
fn shows_main_before_other_branches() {
    let order = branch_order(vec!["zeta".to_string(), "dev".to_string(), "alpha".to_string()]);
    assert_eq!(order, vec!["main", "alpha", "dev", "zeta"]);
    assert_eq!(branch_order(Vec::new()), vec!["main"]);
}

#[test]
fn shows_versions_with_their_tags() {
    let records = version_records(vec![2, 3], 3, Some("17".to_string()));
    let views = version_views("main", records, &tags());
    assert_eq!(views[0].version, 2);
    assert_eq!(views[0].total_rows, None);
    assert!(views[0].tags.is_empty());
    assert_eq!(views[1].total_rows, Some(17));
    assert_eq!(views[1].tags, vec!["V3", "v1"]);
    let bad = version_views("dev", version_records(vec![3], 3, Some("many".to_string())), &tags());
    assert_eq!(bad[0].total_rows, None);
    assert_eq!(bad[0].tags, vec!["v2"]);
}

#[test]
fn shows_where_branches_come_from() {
    let contents = BranchContents { parent_branch: Some("main".to_string()), parent_version: 2 };
    let dev = branch_history("dev".to_string(), Some(contents), Vec::new(), &tags());
    assert_eq!(dev.parent_branch.as_deref(), Some("main"));
    assert_eq!(dev.parent_version, Some(2));
    let main = branch_history("main".to_string(), None, version_records(vec![3], 9, None), &tags());
    assert_eq!(main.parent_version, None);
    assert_eq!(main.versions[0].tags, vec!["V3", "v1"]);
}

#[test]
fn defaults_to_main() {
    assert_eq!(requested_reference(None), "main");
    assert_eq!(requested_reference(Some("  ")), "main");
    assert_eq!(requested_reference(Some(" tag:x ")), "tag:x");
}

fn target(reference: &str) -> String {
    match parse_reference(reference).unwrap() {
        ReferenceStep::CheckOut(target) => target.text(),
        ReferenceStep::LookUpBranch => "look up".to_string(),
        ReferenceStep::LookUpTag => panic!("branches come first"),
    }
}

#[test]
fn reads_references() {
    assert_eq!(target("MAIN"), "main");
    assert_eq!(target("12"), "version 12");
    assert_eq!(target("version:7"), "version 7");
    assert_eq!(target("branch:7"), "branch 7");
    assert_eq!(target("tag:a:b"), "tag a:b");
    assert_eq!(target("dev:5"), "dev version 5");
    assert_eq!(target("a:b:5"), "a:b version 5");
    assert_eq!(target("a:b"), "look up");
    assert_eq!(target("release"), "look up");
    let error = parse_reference("version:x").unwrap_err();
    assert_eq!(
        error.into_response().error,
        "invalid version reference version:x: invalid digit found in string"
    );
}

#[test]
fn looks_names_up() {
    let names = |list: &[&str]| list.iter().map(|name| name.to_string()).collect::<Vec<_>>();
    assert!(matches!(
        after_branches("dev", &names(&["x", "dev"])),
        ReferenceStep::CheckOut(DatasetReference::Branch(name)) if name == "dev"
    ));
    assert!(matches!(after_branches("dev", &names(&["x"])), ReferenceStep::LookUpTag));
    assert!(matches!(
        after_tags("v1", &names(&["v1"])),
        Ok(DatasetReference::Tag(name)) if name == "v1"
    ));
    assert_eq!(
        after_tags("v1", &names(&[])).unwrap_err().context,
        "reference 'v1' was not found as a branch or tag; use a numeric version, branch:<name>, or tag:<name>"
    );
    assert_eq!(
        DatasetReference::Version(4).checkout_failure("gone").into_response().error,
        "failed to check out version 4: gone"
    );
}

fn manifest() -> ManifestSnapshot {
    ManifestSnapshot {
        version: 4,
        branch: None,
        path: "_versions/4.manifest".to_string(),
        size: Some(100),
        writer_version: None,
        timestamp_nanos: 18_446_744_073_709_551_616,
        reader_feature_flags: 1,
        writer_feature_flags: 2,
        next_row_id: 3,
        max_fragment_id: Some(9),
        transaction_file: None,
        data_storage_format: "2.1".to_string(),
        config: vec![("b".to_string(), "2".to_string()), ("a".to_string(), "1".to_string())],
        table_metadata: Vec::new(),
        base_paths: Vec::new(),
    }
}

fn file() -> DataFileSnapshot {
    DataFileSnapshot {
        path: "part.lance".to_string(),
        fields: vec![0, 1],
        column_indices: vec![0, 1],
        major_version: 2,
        minor_version: 1,
        size_bytes: Some(50),
        base_id: None,
    }
}

fn deletion(file_type: &str, count: usize, offsets: Vec<u32>) -> DeletionSnapshot {
    DeletionSnapshot {
        file_type: file_type.to_string(),
        read_version: 3,
        id: 8,
        rows: Some(DeletedRows { count, offsets }),
    }
}

fn snapshot(fragments: Vec<FragmentSnapshot>) -> DatasetSnapshot {
    let column = |name: &str, blob: bool| ColumnSnapshot {
        field: Field {
            name: name.to_string(),
            data_type: DataType::LargeBinary,
            nullable: true,
            metadata: if blob {
                vec![("ARROW:extension:name".to_string(), "lance.blob.v2".to_string())]
            } else {
                Vec::new()
            },
        },
        data_type: "LargeBinary".to_string(),
    };
    DatasetSnapshot {
        columns: vec![column("id", false), column("image", true)],
        indices: vec![IndexSnapshot {
            name: "by_id".to_string(),
            index_type: "BTree".to_string(),
            type_url: "/index".to_string(),
            field_ids: vec![0, 42],
            rows_indexed: 5,
            segment_count: 1,
            total_size_bytes: Some(10),
            details: Some("{\"k\": 3}".to_string()),
        }],
        fields: vec![(0, "id".to_string()), (1, "image".to_string())],
        fragments,
        manifest: manifest(),
    }
}

#[test]
fn shows_what_is_in_a_dataset() {
    let fragments = vec![
        FragmentSnapshot { id: 1, physical_rows: 10, files: vec![file()], deletion: None },
        FragmentSnapshot {
            id: 2,
            physical_rows: 5,
            files: Vec::new(),
            deletion: Some(deletion("Array", 2, vec![0, 4])),
        },
    ];
    let info = build_dataset_info(snapshot(fragments), "s3://set", "tag:x").unwrap();
    assert_eq!(info.uri, "s3://set");
    assert_eq!(info.reference, "tag:x");
    assert_eq!(info.version, 4);
    assert_eq!(info.branch, "main");
    assert_eq!(info.rows, 13);
    assert!(!info.schema[0].media);
    assert!(info.schema[1].media);
    assert_eq!(
        info.schema[1].metadata.get("ARROW:extension:name").map(|name| name.as_str()),
        Some("lance.blob.v2")
    );
    assert_eq!(info.indices[0].fields, vec!["id", "#42"]);
    assert_eq!(info.indices[0].details.as_ref().unwrap()["k"], 3);
    assert_eq!(info.manifest.timestamp_nanos, "18446744073709551616");
    let config: Vec<_> = info.manifest.config.entries().iter().map(|(key, _)| key.as_str()).collect();
    assert_eq!(config, vec!["a", "b"]);
    assert_eq!(info.fragments[0].files[0].path, "data/part.lance");
    assert_eq!(info.fragments[0].files[0].format, "2.1");
    assert_eq!(info.fragments[0].visible_rows, Some(10));
    let deleted = info.fragments[1].deletion.as_ref().unwrap();
    assert_eq!(deleted.path, "_deletions/2-3-8.arrow");
    assert_eq!(deleted.offsets, vec![0, 4]);
    assert!(!deleted.offsets_truncated);
    assert_eq!(info.fragments[1].visible_rows, Some(3));
}

#[test]
fn cuts_long_lists_of_deleted_rows_off() {
    let fragment = FragmentSnapshot {
        id: 7,
        physical_rows: 9_000,
        files: Vec::new(),
        deletion: Some(deletion("Bitmap", 3_000, (0..3_000).collect())),
    };
    let info = build_dataset_info(snapshot(vec![fragment]), "x", "main").unwrap();
    let deleted = info.fragments[0].deletion.as_ref().unwrap();
    assert_eq!(deleted.path, "_deletions/7-3-8.bin");
    assert_eq!(deleted.count, 3_000);
    assert_eq!(deleted.offsets.len(), 2_000);
    assert!(deleted.offsets_truncated);
    assert_eq!(info.rows, 6_000);
}

#[test]
fn reports_fragments_with_too_many_deleted_rows() {
    let fragment = FragmentSnapshot {
        id: 3,
        physical_rows: 4,
        files: Vec::new(),
        deletion: Some(deletion("Array", 5, Vec::new())),
    };
    let error = build_dataset_info(snapshot(vec![fragment]), "x", "main").unwrap_err();
    assert_eq!(
        error.context,
        "fragment 3 reports 5 deleted rows but only 4 physical rows"
    );
}

#[test]
fn indices_without_readable_details_have_none() {
    let mut given = snapshot(Vec::new());
    given.indices[0].details = Some("{".to_string());
    let info = build_dataset_info(given, "x", "main").unwrap();
    assert!(info.indices[0].details.is_none());
}
