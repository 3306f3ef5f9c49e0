use scan_config::config::{FileScanConfig, PartitionedFile};
use scan_config::scalar::{wrap_partition_type_in_dict, DataType, ScalarValue};
use scan_config::schema::{Field, Schema};
use scan_config::sort::{LexOrdering, SortKey};
use scan_config::stats::{ColumnStatistics, Constraint, Constraints, Precision, Statistics};

fn aggr_test_schema() -> Schema {
    let mut fields = Vec::new();
    fields.push(Field::new("c1".to_string(), DataType::Utf8, false));
    fields.push(Field::new("c2".to_string(), DataType::UInt64, false));
    fields.push(Field::new("c3".to_string(), DataType::Int32, false));
    fields.push(Field::new("c4".to_string(), DataType::Int64, false));
    fields.push(Field::new("c5".to_string(), DataType::Int32, false));
    fields.push(Field::new("c6".to_string(), DataType::Int64, false));
    fields.push(Field::new("c7".to_string(), DataType::Int32, false));
    fields.push(Field::new("c8".to_string(), DataType::Int32, false));
    fields.push(Field::new("c9".to_string(), DataType::UInt64, false));
    fields.push(Field::new("c10".to_string(), DataType::UInt64, false));
    fields.push(Field::new("c11".to_string(), DataType::Decimal64(2), false));
    fields.push(Field::new("c12".to_string(), DataType::Decimal64(2), false));
    fields.push(Field::new("c13".to_string(), DataType::Utf8, false));
    Schema::new(fields)
}

fn config_for_projection(
    file_schema: Schema,
    projection: Option<Vec<usize>>,
    statistics: Statistics,
    table_partition_cols: Vec<Field>,
) -> FileScanConfig {
    FileScanConfig::new("test:///".to_string(), file_schema)
        .with_projection(projection)
        .with_statistics(statistics)
        .with_table_partition_cols(table_partition_cols)
}

fn to_partition_cols(cols: Vec<(String, DataType)>) -> Vec<Field> {
    cols.into_iter().map(|(name, dtype)| Field::new(name, dtype, false)).collect()
}

#[test]
fn physical_plan_config_no_projection() {
    let file_schema = aggr_test_schema();
    let n_files = file_schema.fields().len();
    let conf = config_for_projection(
        aggr_test_schema(),
        None,
        Statistics::new_unknown(&file_schema),
        to_partition_cols(vec![(
            "date".to_string(),
            wrap_partition_type_in_dict(DataType::Utf8),
        )]),
    );

    let (proj_schema, _, proj_statistics, _) = conf.project();
    assert_eq!(proj_schema.fields().len(), n_files + 1);
    assert_eq!(
        proj_schema.field(n_files).name().as_str(),
        "date",
        "partition columns are the last columns"
    );
    assert_eq!(proj_statistics.column_statistics.len(), n_files + 1);

    let col_names = conf.projected_file_column_names();
    assert_eq!(col_names, None);

    let col_indices = conf.file_column_projection_indices();
    assert_eq!(col_indices, None);
}

#[test]
fn physical_plan_config_no_projection_tab_cols_as_field() {
    let file_schema = aggr_test_schema();
    let n_files = file_schema.fields().len();

    let table_partition_col =
        Field::new("date".to_string(), wrap_partition_type_in_dict(DataType::Utf8), true)
            .with_metadata(vec![("key_whatever".to_string(), "value_whatever".to_string())]);

    let conf = config_for_projection(
        aggr_test_schema(),
        None,
        Statistics::new_unknown(&file_schema),
        vec![table_partition_col.clone()],
    );

    let (proj_schema, _, _, _) = conf.project();
    assert_eq!(proj_schema.fields().len(), n_files + 1);
    assert_eq!(
        *proj_schema.field(n_files),
        table_partition_col,
        "partition columns are the last columns and must have all values defined in created field"
    );
}

#[test]
fn physical_plan_config_with_projection() {
    let file_schema = aggr_test_schema();
    let n_files = file_schema.fields().len();
    let conf = config_for_projection(
        aggr_test_schema(),
        Some(vec![n_files, 0]),
        Statistics {
            num_rows: Precision::Inexact(10),
            column_statistics: (0..n_files)
                .map(|i| ColumnStatistics {
                    distinct_count: Precision::Inexact(i),
                    ..Default::default()
                })
                .collect(),
            total_byte_size: Precision::Absent,
        },
        to_partition_cols(vec![(
            "date".to_string(),
            wrap_partition_type_in_dict(DataType::Utf8),
        )]),
    );

    let (proj_schema, _, proj_statistics, _) = conf.project();
    let columns: Vec<String> =
        proj_schema.fields().iter().map(|f| f.name().clone()).collect();
    assert_eq!(columns, vec!["date".to_string(), "c1".to_string()]);
    let proj_stat_cols = proj_statistics.column_statistics;
    assert_eq!(proj_stat_cols.len(), 2);
    assert_eq!(proj_stat_cols[1].distinct_count, Precision::Inexact(0));

    let col_names = conf.projected_file_column_names();
    assert_eq!(col_names, Some(vec!["c1".to_string()]));

    let col_indices = conf.file_column_projection_indices();
    assert_eq!(col_indices, Some(vec![0]));
}

#[test]
fn test_projected_file_schema_with_partition_col() {
    let schema = aggr_test_schema();
    let n = schema.fields().len();
    let partition_cols = vec![
        ("part1".to_string(), wrap_partition_type_in_dict(DataType::Utf8)),
        ("part2".to_string(), wrap_partition_type_in_dict(DataType::Utf8)),
    ];

    let projection = config_for_projection(
        aggr_test_schema(),
        Some(vec![0, 3, 5, n]),
        Statistics::new_unknown(&schema),
        to_partition_cols(partition_cols),
    )
    .projected_file_schema();

    let expected_columns = vec!["c1", "c4", "c6"];
    let actual_columns: Vec<String> =
        projection.fields().iter().map(|f| f.name().clone()).collect();
    assert_eq!(expected_columns, actual_columns);
}

#[test]
fn test_projected_file_schema_without_projection() {
    let schema = aggr_test_schema();
    let partition_cols = vec![
        ("part1".to_string(), wrap_partition_type_in_dict(DataType::Utf8)),
        ("part2".to_string(), wrap_partition_type_in_dict(DataType::Utf8)),
    ];

    let projection = config_for_projection(
        aggr_test_schema(),
        None,
        Statistics::new_unknown(&schema),
        to_partition_cols(partition_cols),
    )
    .projected_file_schema();

    assert_eq!(projection.fields(), schema.fields());
}

#[test]
fn projection_identity_without_partition_cols() {
    let file_schema = aggr_test_schema();
    let stats = Statistics::new_unknown(&file_schema);
    let orderings = vec![LexOrdering::new(vec![SortKey::asc(0)])];
    let conf = FileScanConfig::new("test:///".to_string(), aggr_test_schema())
        .with_statistics(Statistics::new_unknown(&file_schema))
        .with_output_ordering(orderings);

    let (proj_schema, constraints, proj_stats, proj_orderings) = conf.project();
    assert_eq!(proj_schema, file_schema);
    assert!(constraints.is_empty());
    assert_eq!(constraints, Constraints::empty());
    assert_eq!(proj_stats, stats);
    assert_eq!(proj_orderings, vec![LexOrdering::new(vec![SortKey::asc(0)])]);
}

#[test]
fn projection_remaps_constraints_and_orderings() {
    let file_schema = aggr_test_schema();
    let n = file_schema.fields().len();
    let constraints = Constraints::new(vec![
        Constraint::PrimaryKey(vec![0, n]),
        Constraint::Unique(vec![2]),
    ]);
    let orderings = vec![
        LexOrdering::new(vec![SortKey::asc(0), SortKey::desc(2)]),
        LexOrdering::new(vec![SortKey::asc(2)]),
    ];
    let conf = config_for_projection(
        aggr_test_schema(),
        Some(vec![n, 0]),
        Statistics::new_unknown(&file_schema),
        to_partition_cols(vec![(
            "date".to_string(),
            wrap_partition_type_in_dict(DataType::Utf8),
        )]),
    )
    .with_constraints(constraints)
    .with_output_ordering(orderings);

    let (_, proj_constraints, _, proj_orderings) = conf.project();
    // the primary key survives with remapped positions; the unique
    // constraint references a dropped column and is dropped
    assert_eq!(
        proj_constraints,
        Constraints::new(vec![Constraint::PrimaryKey(vec![1, 0])])
    );
    // the first ordering keeps only the prefix whose columns survive; the
    // second loses its only column and is dropped
    assert_eq!(proj_orderings, vec![LexOrdering::new(vec![SortKey::asc(1)])]);
}

#[test]
fn projection_statistics_reset_byte_size() {
    let file_schema = aggr_test_schema();
    let n = file_schema.fields().len();
    let conf = config_for_projection(
        aggr_test_schema(),
        Some(vec![0]),
        Statistics {
            num_rows: Precision::Exact(42),
            total_byte_size: Precision::Exact(9000),
            column_statistics: (0..n).map(|_| ColumnStatistics::new_unknown()).collect(),
        },
        vec![],
    );
    let (_, _, proj_stats, _) = conf.project();
    assert_eq!(proj_stats.num_rows, Precision::Exact(42));
    assert_eq!(proj_stats.total_byte_size, Precision::Absent);
    assert_eq!(proj_stats.column_statistics.len(), 1);
}

#[test]
fn projection_preserves_schema_metadata() {
    let fields = vec![Field::new("c1".to_string(), DataType::Utf8, false)];
    let metadata = vec![("origin".to_string(), "listing".to_string())];
    let file_schema = Schema::new_with_metadata(fields, metadata.clone());
    let conf = config_for_projection(
        file_schema,
        Some(vec![0, 1]),
        Statistics {
            num_rows: Precision::Absent,
            total_byte_size: Precision::Absent,
            column_statistics: vec![ColumnStatistics::new_unknown()],
        },
        to_partition_cols(vec![(
            "date".to_string(),
            wrap_partition_type_in_dict(DataType::Utf8),
        )]),
    );
    let (proj_schema, _, _, _) = conf.project();
    assert_eq!(proj_schema.metadata(), &metadata);
}

#[test]
fn wrap_partition_helpers() {
    assert_eq!(
        wrap_partition_type_in_dict(DataType::Utf8),
        DataType::Dictionary(Box::new(DataType::UInt16), Box::new(DataType::Utf8))
    );
    assert!(scan_config::scalar::data_type_eq(
        &wrap_partition_type_in_dict(DataType::Utf8),
        &DataType::Dictionary(Box::new(DataType::UInt16), Box::new(DataType::Utf8))
    ));
    assert!(!scan_config::scalar::data_type_eq(
        &DataType::Int32,
        &DataType::Int64
    ));
    let v = ScalarValue::Utf8(Some("x".to_string()));
    assert_eq!(v.data_type(), DataType::Utf8);
    assert_eq!(
        scan_config::scalar::wrap_partition_value_in_dict(v.clone()),
        ScalarValue::Dictionary(Box::new(DataType::UInt16), Box::new(v))
    );
}

#[test]
fn builders_collect_file_groups() {
    let file_schema = aggr_test_schema();
    let conf = FileScanConfig::new("test:///".to_string(), file_schema)
        .with_file(PartitionedFile::new("a.parquet".to_string(), 10))
        .with_file_group(vec![
            PartitionedFile::new("b.parquet".to_string(), 20),
            PartitionedFile::new("c.parquet".to_string(), 30),
        ])
        .with_limit(Some(1000))
        .with_newlines_in_values(true);
    assert_eq!(conf.file_groups.len(), 2);
    assert_eq!(conf.file_groups[0].len(), 1);
    assert_eq!(conf.file_groups[1].len(), 2);
    assert_eq!(conf.limit, Some(1000));
    assert!(conf.newlines_in_values());
}
