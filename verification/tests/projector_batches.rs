use scan_config::config::FileScanConfig;
use scan_config::error::ScanError;
use scan_config::projector::{PartitionColumnProjector, RecordBatch};
use scan_config::scalar::{
    wrap_partition_type_in_dict, wrap_partition_value_in_dict, DataType, ScalarValue,
};
use scan_config::schema::{Field, Schema};
use scan_config::stats::Statistics;

fn utf8(s: &str) -> ScalarValue {
    ScalarValue::Utf8(Some(s.to_string()))
}

fn int32_col(values: &[i32]) -> Vec<ScalarValue> {
    values.iter().map(|v| ScalarValue::Int32(Some(*v))).collect()
}

/// A batch with three named `Int32` columns.
fn build_table_i32(a: (&str, &[i32]), b: (&str, &[i32]), c: (&str, &[i32])) -> RecordBatch {
    let schema = Schema::new(vec![
        Field::new(a.0.to_string(), DataType::Int32, false),
        Field::new(b.0.to_string(), DataType::Int32, false),
        Field::new(c.0.to_string(), DataType::Int32, false),
    ]);
    RecordBatch::try_new(schema, vec![int32_col(a.1), int32_col(b.1), int32_col(c.1)]).unwrap()
}

fn projector_fixture() -> (PartitionColumnProjector, Vec<String>) {
    let file_batch = build_table_i32(("a", &[0]), ("b", &[0]), ("c", &[0]));
    let partition_cols = vec![
        ("year".to_string(), wrap_partition_type_in_dict(DataType::Utf8)),
        ("month".to_string(), wrap_partition_type_in_dict(DataType::Utf8)),
        ("day".to_string(), wrap_partition_type_in_dict(DataType::Utf8)),
    ];
    let n = file_batch.schema.fields().len();
    let conf = FileScanConfig::new("test:///".to_string(), file_batch.schema)
        .with_projection(Some(vec![0, 1, 2, n, n + 2]))
        .with_table_partition_cols(
            partition_cols
                .iter()
                .map(|(name, dtype)| Field::new(name.clone(), dtype.clone(), false))
                .collect(),
        );
    let (proj_schema, _, _, _) = conf.project();
    let names: Vec<String> = partition_cols.iter().map(|x| x.0.clone()).collect();
    (PartitionColumnProjector::new(proj_schema, &names), names)
}

fn dict_utf8(s: &str) -> ScalarValue {
    wrap_partition_value_in_dict(utf8(s))
}

fn expect_batch(
    batch: &RecordBatch,
    a: &[i32],
    b: &[i32],
    c: &[i32],
    year: &str,
    day: &str,
) {
    assert_eq!(batch.num_columns(), 5);
    let rows = a.len();
    assert_eq!(batch.num_rows(), rows);
    assert_eq!(batch.column(0), &int32_col(a));
    assert_eq!(batch.column(1), &int32_col(b));
    assert_eq!(batch.column(2), &int32_col(c));
    let year_col: Vec<ScalarValue> = (0..rows).map(|_| dict_utf8(year)).collect();
    let day_col: Vec<ScalarValue> = (0..rows).map(|_| dict_utf8(day)).collect();
    assert_eq!(batch.column(3), &year_col);
    assert_eq!(batch.column(4), &day_col);
    let names: Vec<String> =
        batch.schema.fields().iter().map(|f| f.name().clone()).collect();
    assert_eq!(
        names,
        vec![
            "a".to_string(),
            "b".to_string(),
            "c".to_string(),
            "year".to_string(),
            "day".to_string()
        ]
    );
}

#[test]
fn partition_column_projector() {
    let (proj, _) = projector_fixture();

    // project first batch
    let file_batch =
        build_table_i32(("a", &[0, 1, 2]), ("b", &[-2, -1, 0]), ("c", &[10, 11, 12]));
    let projected_batch = proj
        .project(
            file_batch,
            &vec![dict_utf8("2021"), dict_utf8("10"), dict_utf8("26")],
        )
        .expect("Projection of partition columns into record batch failed");
    expect_batch(&projected_batch, &[0, 1, 2], &[-2, -1, 0], &[10, 11, 12], "2021", "26");

    // project another batch that is larger than the previous one
    let file_batch = build_table_i32(
        ("a", &[5, 6, 7, 8, 9]),
        ("b", &[-10, -9, -8, -7, -6]),
        ("c", &[12, 13, 14, 15, 16]),
    );
    let projected_batch = proj
        .project(
            file_batch,
            &vec![dict_utf8("2021"), dict_utf8("10"), dict_utf8("27")],
        )
        .expect("Projection of partition columns into record batch failed");
    expect_batch(
        &projected_batch,
        &[5, 6, 7, 8, 9],
        &[-10, -9, -8, -7, -6],
        &[12, 13, 14, 15, 16],
        "2021",
        "27",
    );

    // project another batch that is smaller than the previous one
    let file_batch =
        build_table_i32(("a", &[0, 1, 3]), ("b", &[2, 3, 4]), ("c", &[4, 5, 6]));
    let projected_batch = proj
        .project(file_batch, &vec![dict_utf8("2021"), dict_utf8("10"), dict_utf8("28")])
        .expect("Projection of partition columns into record batch failed");
    expect_batch(&projected_batch, &[0, 1, 3], &[2, 3, 4], &[4, 5, 6], "2021", "28");

    // forgot to dictionary-wrap the scalar value: the projector re-encodes
    let file_batch =
        build_table_i32(("a", &[0, 1, 2]), ("b", &[-2, -1, 0]), ("c", &[10, 11, 12]));
    let projected_batch = proj
        .project(file_batch, &vec![utf8("2021"), utf8("10"), utf8("26")])
        .expect("Projection of partition columns into record batch failed");
    expect_batch(&projected_batch, &[0, 1, 2], &[-2, -1, 0], &[10, 11, 12], "2021", "26");
}

#[test]
fn projector_is_idempotent_across_identical_calls() {
    let (proj, _) = projector_fixture();
    let values = vec![dict_utf8("2021"), dict_utf8("10"), dict_utf8("26")];
    let batch1 =
        build_table_i32(("a", &[0, 1, 2]), ("b", &[-2, -1, 0]), ("c", &[10, 11, 12]));
    let batch2 =
        build_table_i32(("a", &[0, 1, 2]), ("b", &[-2, -1, 0]), ("c", &[10, 11, 12]));
    let out1 = proj.project(batch1, &values).unwrap();
    let out2 = proj.project(batch2, &values).unwrap();
    assert_eq!(out1, out2);
}

#[test]
fn projector_rejects_wrong_column_count() {
    let (proj, _) = projector_fixture();
    let schema = Schema::new(vec![
        Field::new("a".to_string(), DataType::Int32, false),
        Field::new("b".to_string(), DataType::Int32, false),
    ]);
    let batch =
        RecordBatch::try_new(schema, vec![int32_col(&[1]), int32_col(&[2])]).unwrap();
    let values = vec![dict_utf8("2021"), dict_utf8("10"), dict_utf8("26")];
    let result = proj.project(batch, &values);
    assert_eq!(result, Err(ScanError::UnexpectedBatchColumns { expected: 3, actual: 2 }));
}

#[test]
fn projector_rejects_missing_partition_value() {
    let (proj, _) = projector_fixture();
    let batch = build_table_i32(("a", &[1]), ("b", &[2]), ("c", &[3]));
    // the day column draws from catalog position 2, which is missing
    let result = proj.project(batch, &vec![dict_utf8("2021"), dict_utf8("10")]);
    assert_eq!(result, Err(ScanError::MissingPartitionValue { index: 2 }));
}

#[test]
fn record_batch_rejects_mismatched_columns() {
    let schema = Schema::new(vec![Field::new("a".to_string(), DataType::Int32, false)]);
    let r = RecordBatch::try_new(schema, vec![int32_col(&[1]), int32_col(&[2])]);
    assert!(r.is_err());

    let schema = Schema::new(vec![
        Field::new("a".to_string(), DataType::Int32, false),
        Field::new("b".to_string(), DataType::Int32, false),
    ]);
    let r = RecordBatch::try_new(schema, vec![int32_col(&[1]), int32_col(&[2, 3])]);
    assert!(r.is_err());
}

#[test]
fn statistics_new_unknown_covers_schema() {
    let schema = Schema::new(vec![
        Field::new("a".to_string(), DataType::Int32, false),
        Field::new("b".to_string(), DataType::Utf8, false),
    ]);
    let stats = Statistics::new_unknown(&schema);
    assert_eq!(stats.column_statistics.len(), 2);
}
