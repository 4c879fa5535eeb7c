use lance_core::datatypes::BLOB_V2_DESC_FIELDS;
use lance_inspector::names::{collect_map, TextMap};
use lance_inspector::schema::{
    dataset_columns, field_with_name, is_blob_array_field, is_blob_field, is_sql_blob_field,
    media_columns, mime_columns, sql_columns, DataType, Field,
};

const BLOB_EXTENSION: &str = "lance.blob.v2";

fn field(name: &str, data_type: DataType, nullable: bool) -> Field {
    Field { name: name.to_string(), data_type, nullable, metadata: Vec::new() }
}

fn blob(name: &str) -> Field {
    Field {
        metadata: vec![("ARROW:extension:name".to_string(), BLOB_EXTENSION.to_string())],
        ..field(name, DataType::LargeBinary, true)
    }
}

/// The members that the storage format gives to descriptions of blobs.
fn descriptor_fields() -> Vec<Field> {
    BLOB_V2_DESC_FIELDS
        .iter()
        .map(|member| {
            let data_type = match member.data_type() {
                arrow_schema::DataType::UInt8 => DataType::UInt8,
                arrow_schema::DataType::UInt32 => DataType::UInt32,
                arrow_schema::DataType::UInt64 => DataType::UInt64,
                arrow_schema::DataType::Utf8 => DataType::Utf8,
                arrow_schema::DataType::LargeBinary => DataType::LargeBinary,
                _ => DataType::Other,
            };
            field(member.name(), data_type, member.is_nullable())
        })
        .collect()
}

fn ids(pairs: &[(&str, i32)]) -> TextMap<i32> {
    collect_map(pairs.iter().map(|(name, id)| (name.to_string(), *id)).collect())
}

#[test]
fn recognizes_sql_blob_array_from_dataset_schema() {
    let dataset_schema = vec![field("image_array", DataType::List(Box::new(blob("item"))), true)];
    let descriptor = field("item", DataType::Struct(descriptor_fields()), true);
    let result_schema = vec![field("image_array", DataType::List(Box::new(descriptor)), true)];

    let columns = sql_columns(
        &result_schema,
        &dataset_schema,
        &vec![Some("image_array".to_string())],
        &ids(&[("image_array", 7)]),
    );

    assert_eq!(columns.media_projections.len(), 1);
    assert_eq!(columns.media_projections[0].column.source_field_id, 7);
}

#[test]
fn ignores_non_blob_alias_collisions() {
    let result = vec![field("blob", DataType::Other, false)];

    let columns = sql_columns(&result, &vec![blob("blob")], &vec![None], &ids(&[("blob", 3)]));

    assert!(columns.media_projections.is_empty());
    assert_eq!(columns.scalar, vec!["blob"]);
}

#[test]
fn recognizes_nested_blob_arrays() {
    let descriptor = field("item", DataType::Struct(descriptor_fields()), true);
    let nested = field(
        "frames",
        DataType::List(Box::new(field(
            "items",
            DataType::LargeList(Box::new(descriptor)),
            true,
        ))),
        true,
    );

    assert!(is_blob_array_field(&nested));
}

#[test]
fn knows_the_layouts_of_blobs() {
    let layout = |members: Vec<Field>| is_blob_field(&field("blob", DataType::Struct(members), true));
    let logical = || vec![field("data", DataType::LargeBinary, true), field("uri", DataType::Utf8, true)];
    assert!(layout(logical()));
    let mut ranged = logical();
    ranged.push(field("position", DataType::UInt64, false));
    assert!(!layout(ranged));
    let mut ranged = logical();
    ranged.push(field("position", DataType::UInt64, false));
    ranged.push(field("size", DataType::UInt64, true));
    assert!(layout(ranged));
    let mut required = logical();
    required[0].nullable = false;
    assert!(!layout(required));
    let prepared = || {
        vec![
            field("kind", DataType::UInt8, true),
            field("data", DataType::LargeBinary, true),
            field("uri", DataType::Utf8, true),
            field("blob_id", DataType::UInt32, true),
            field("blob_size", DataType::UInt64, true),
            field("position", DataType::UInt64, true),
        ]
    };
    assert!(layout(prepared()));
    let mut swapped = prepared();
    swapped.swap(4, 5);
    assert!(!layout(swapped));
    assert!(layout(descriptor_fields()));
    let mut nullable = descriptor_fields();
    nullable[0].nullable = true;
    assert!(layout(nullable));
    let mut other = descriptor_fields();
    other[1].data_type = DataType::Other;
    assert!(!layout(other));
    assert!(!layout(Vec::new()));
}

#[test]
fn goes_by_the_extension_name() {
    assert!(is_blob_field(&blob("b")));
    assert!(!is_blob_array_field(&blob("b")));
    let mut renamed = blob("b");
    renamed.metadata.push(("ARROW:extension:name".to_string(), "other".to_string()));
    assert!(!is_blob_field(&renamed));
    let fixed = field("f", DataType::FixedSizeList(Box::new(blob("item")), 3), true);
    assert!(is_blob_array_field(&fixed));
    assert!(!is_blob_field(&fixed));
}

#[test]
fn sorts_dataset_columns_out() {
    let schema = vec![
        field("id", DataType::Other, false),
        blob("image"),
        field("name", DataType::Utf8, true),
        field("frames", DataType::List(Box::new(blob("item"))), true),
    ];
    let columns = dataset_columns(&schema, &ids(&[("id", 0), ("image", 4), ("name", 5), ("frames", 9)]));
    assert_eq!(columns.projection, vec!["id", "image", "name", "frames"]);
    assert_eq!(columns.scalar, vec!["id", "name"]);
    assert_eq!(columns.media.len(), 2);
    assert_eq!(columns.media[0].result_index, 1);
    assert_eq!(columns.media[0].column.name, "image");
    assert_eq!(columns.media[0].column.source_field_id, 4);
    assert_eq!(columns.media[1].result_index, 3);
    assert_eq!(columns.media[1].column.source_field_id, 9);
    assert_eq!(media_columns(&columns.media)[1].name, "frames");
}

#[test]
fn traces_aliased_media_to_their_source() {
    let result = vec![
        field("preview", DataType::Struct(descriptor_fields()), true),
        field("_rowaddr", DataType::UInt64, false),
    ];
    let columns = sql_columns(
        &result,
        &vec![blob("blob")],
        &vec![Some("blob".to_string())],
        &ids(&[("blob", 2)]),
    );
    assert_eq!(columns.media_projections[0].column.name, "preview");
    assert_eq!(columns.media_projections[0].column.source_field_id, 2);
    assert_eq!(columns.scalar_indices, vec![1]);
    assert_eq!(columns.scalar, vec!["_rowaddr"]);
}

#[test]
fn pairs_media_with_their_type_columns() {
    let schema = vec![
        blob("image"),
        field("image_mime", DataType::Utf8, true),
        blob("audio"),
        field("id", DataType::Other, false),
    ];
    let columns = mime_columns(&schema, &schema);
    assert_eq!(columns.scalar_indices, vec![1, 3]);
    assert_eq!(columns.scalar, vec!["image_mime", "id"]);
    assert_eq!(columns.media[0].name, "image");
    assert_eq!(columns.media[0].mime_column.as_deref(), Some("image_mime"));
    assert_eq!(columns.media[1].name, "audio");
    assert!(columns.media[1].mime_column.is_none());
    let result = field("image", DataType::Other, true);
    assert!(is_sql_blob_field(&result, &schema));
    assert!(!is_sql_blob_field(&field("x", DataType::Other, true), &schema));
    assert!(field_with_name(&schema, "id").is_some());
    assert!(field_with_name(&schema, "none").is_none());
}
