use scan_config::config::{FileScanConfig, PartitionedFile};
use scan_config::error::ScanError;
use scan_config::scalar::{DataType, ScalarValue};
use scan_config::schema::{Field, Schema};
use scan_config::sort::{LexOrdering, SortKey};
use scan_config::stats::{ColumnStatistics, Precision, ScalarPrecision, Statistics};

/// A value column bound written as a fixed-point decimal with two digits of
/// scale: `dec(49)` stands for 0.49.
fn dec(mantissa: i64) -> ScalarValue {
    ScalarValue::Decimal64(Some(mantissa), 2)
}

fn file(name: &str, date: &str, bounds: Option<(i64, i64)>) -> PartitionedFile {
    let column_statistics = vec![match bounds {
        Some((min, max)) => ColumnStatistics {
            min_value: ScalarPrecision::Exact(dec(min)),
            max_value: ScalarPrecision::Exact(dec(max)),
            ..Default::default()
        },
        None => ColumnStatistics::new_unknown(),
    }];
    PartitionedFile {
        path: format!("data/date={}/{}.parquet", date, name),
        size: 0,
        range: None,
        partition_values: vec![ScalarValue::Utf8(Some(date.to_string()))],
        statistics: Some(Statistics {
            num_rows: Precision::Absent,
            total_byte_size: Precision::Absent,
            column_statistics,
        }),
        metadata_size_hint: None,
    }
}

fn table_schema(value_nullable: bool) -> Schema {
    Schema::new(vec![
        Field::new("value".to_string(), DataType::Decimal64(2), value_nullable),
        Field::new("date".to_string(), DataType::Utf8, false),
    ])
}

fn names_of(groups: &Vec<Vec<PartitionedFile>>) -> Vec<Vec<String>> {
    groups
        .iter()
        .map(|g| {
            g.iter()
                .map(|f| {
                    f.path
                        .rsplit('/')
                        .next()
                        .unwrap()
                        .trim_end_matches(".parquet")
                        .to_string()
                })
                .collect()
        })
        .collect()
}

#[test]
fn test_split_groups_by_statistics() {
    // test sort
    let files = vec![
        file("0", "2023-01-01", Some((0, 49))),
        file("1", "2023-01-01", Some((50, 100))),
        file("2", "2023-01-02", Some((0, 100))),
    ];
    let result = FileScanConfig::split_groups_by_statistics(
        &table_schema(false),
        &vec![files],
        &LexOrdering::new(vec![SortKey::asc(0)]),
    )
    .unwrap();
    assert_eq!(
        names_of(&result),
        vec![vec!["0".to_string(), "1".to_string()], vec!["2".to_string()]],
        "test sort"
    );

    // test sort with files ordered differently
    let files = vec![
        file("0", "2023-01-01", Some((0, 49))),
        file("2", "2023-01-02", Some((0, 100))),
        file("1", "2023-01-01", Some((50, 100))),
    ];
    let result = FileScanConfig::split_groups_by_statistics(
        &table_schema(false),
        &vec![files],
        &LexOrdering::new(vec![SortKey::asc(0)]),
    )
    .unwrap();
    assert_eq!(
        names_of(&result),
        vec![vec!["0".to_string(), "1".to_string()], vec!["2".to_string()]],
        "test sort with files ordered differently"
    );

    // reverse sort
    let files = vec![
        file("0", "2023-01-01", Some((0, 49))),
        file("1", "2023-01-01", Some((50, 100))),
        file("2", "2023-01-02", Some((0, 100))),
    ];
    let result = FileScanConfig::split_groups_by_statistics(
        &table_schema(false),
        &vec![files],
        &LexOrdering::new(vec![SortKey::desc(0)]),
    )
    .unwrap();
    assert_eq!(
        names_of(&result),
        vec![vec!["1".to_string(), "0".to_string()], vec!["2".to_string()]],
        "reverse sort"
    );

    // no nullable sort columns
    let files = vec![
        file("0", "2023-01-01", Some((0, 49))),
        file("1", "2023-01-01", Some((50, 100))),
        file("2", "2023-01-02", Some((0, 100))),
    ];
    let result = FileScanConfig::split_groups_by_statistics(
        &table_schema(true),
        &vec![files],
        &LexOrdering::new(vec![SortKey::asc(0)]),
    );
    assert_eq!(
        result,
        Err(ScanError::NullableSortColumn { column: "value".to_string() }),
        "no nullable sort columns"
    );

    // all three non-overlapping
    let files = vec![
        file("0", "2023-01-01", Some((0, 49))),
        file("1", "2023-01-01", Some((50, 99))),
        file("2", "2023-01-02", Some((100, 149))),
    ];
    let result = FileScanConfig::split_groups_by_statistics(
        &table_schema(false),
        &vec![files],
        &LexOrdering::new(vec![SortKey::asc(0)]),
    )
    .unwrap();
    assert_eq!(
        names_of(&result),
        vec![vec!["0".to_string(), "1".to_string(), "2".to_string()]],
        "all three non-overlapping"
    );

    // all three overlapping
    let files = vec![
        file("0", "2023-01-01", Some((0, 49))),
        file("1", "2023-01-01", Some((0, 49))),
        file("2", "2023-01-02", Some((0, 49))),
    ];
    let result = FileScanConfig::split_groups_by_statistics(
        &table_schema(false),
        &vec![files],
        &LexOrdering::new(vec![SortKey::asc(0)]),
    )
    .unwrap();
    assert_eq!(
        names_of(&result),
        vec![
            vec!["0".to_string()],
            vec!["1".to_string()],
            vec!["2".to_string()]
        ],
        "all three overlapping"
    );

    // empty input
    let result = FileScanConfig::split_groups_by_statistics(
        &table_schema(false),
        &vec![vec![]],
        &LexOrdering::new(vec![SortKey::asc(0)]),
    )
    .unwrap();
    assert_eq!(result.len(), 0, "empty input");

    // one file missing statistics
    let files = vec![
        file("0", "2023-01-01", Some((0, 49))),
        file("1", "2023-01-01", Some((0, 49))),
        file("2", "2023-01-02", None),
    ];
    let result = FileScanConfig::split_groups_by_statistics(
        &table_schema(false),
        &vec![files],
        &LexOrdering::new(vec![SortKey::asc(0)]),
    );
    assert_eq!(
        result,
        Err(ScanError::MissingStatistics { column: "value".to_string() }),
        "one file missing statistics"
    );
}

#[test]
fn split_groups_preserves_files_and_order_within_groups() {
    let files = vec![
        file("a", "2023-01-01", Some((0, 10))),
        file("b", "2023-01-01", Some((5, 20))),
        file("c", "2023-01-01", Some((11, 30))),
        file("d", "2023-01-01", Some((25, 40))),
    ];
    let input = vec![files.clone()];
    let result = FileScanConfig::split_groups_by_statistics(
        &table_schema(false),
        &input,
        &LexOrdering::new(vec![SortKey::asc(0)]),
    )
    .unwrap();
    // a[0,10] < c[11,30]; b[5,20] < d[25,40]: two chains
    assert_eq!(
        names_of(&result),
        vec![
            vec!["a".to_string(), "c".to_string()],
            vec!["b".to_string(), "d".to_string()]
        ]
    );
    // no file lost or duplicated
    let mut flat: Vec<String> = result
        .iter()
        .flat_map(|g| g.iter().map(|f| f.path.clone()))
        .collect();
    flat.sort();
    let mut orig: Vec<String> = files.iter().map(|f| f.path.clone()).collect();
    orig.sort();
    assert_eq!(flat, orig);
}

#[test]
fn split_groups_rejects_unknown_sort_column() {
    let files = vec![file("0", "2023-01-01", Some((0, 49)))];
    let result = FileScanConfig::split_groups_by_statistics(
        &table_schema(false),
        &vec![files],
        &LexOrdering::new(vec![SortKey::asc(7)]),
    );
    assert_eq!(result, Err(ScanError::UnknownSortColumn { index: 7 }));
}

#[test]
fn split_groups_sort_on_partition_column_lacks_statistics() {
    // the date column is part of the table schema but files carry
    // statistics only for the base column, so sorting on it fails
    let files = vec![file("0", "2023-01-01", Some((0, 49)))];
    let result = FileScanConfig::split_groups_by_statistics(
        &table_schema(false),
        &vec![files],
        &LexOrdering::new(vec![SortKey::asc(1)]),
    );
    assert_eq!(result, Err(ScanError::MissingStatistics { column: "date".to_string() }));
}

#[test]
fn split_groups_flattens_input_group_boundaries() {
    let g1 = vec![file("0", "2023-01-01", Some((0, 49)))];
    let g2 = vec![file("1", "2023-01-01", Some((50, 99)))];
    let result = FileScanConfig::split_groups_by_statistics(
        &table_schema(false),
        &vec![g1, g2],
        &LexOrdering::new(vec![SortKey::asc(0)]),
    )
    .unwrap();
    assert_eq!(
        names_of(&result),
        vec![vec!["0".to_string(), "1".to_string()]]
    );
}
