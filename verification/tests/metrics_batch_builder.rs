use greptimedb::append_metrics::AppendMetrics;
use greptimedb::batch_builder::{AppendError, MetricRow};
use greptimedb::keyed_map::KeyedMap;
use greptimedb::logical_schemas::{create_or_alter_physical_tables, gather_tags, TableTags};
use greptimedb::metrics_batch_builder::{
    collect_physical_region_metadata, physical_region_ids, table_ids, AppendFailure, CollectError,
    LogicalTables, MetricsBatchBuilder, PhysicalRegion, SchemaData, TableData, TableIdLookup,
};
use greptimedb::region::RegionId;
use greptimedb::rows::{ColumnDataType, SemanticType, RowValue, ValueData};

fn pair(schema: &str, table: &str) -> (String, String) {
    (schema.to_string(), table.to_string())
}

fn row(key: &[u8], timestamp: i64, value: f64) -> MetricRow {
    MetricRow {
        primary_key: Ok(key.to_vec()),
        timestamp: RowValue { value_data: Some(ValueData::TimestampMillisecondValue(timestamp)) },
        value: RowValue { value_data: Some(ValueData::F64Value(value.to_bits())) },
    }
}

fn found(logical_table_id: u32, physical_table_id: u32) -> TableIdLookup {
    TableIdLookup::Found { logical_table_id, physical_table_id }
}

fn region(table_id: u32, columns: &[(&str, u32)]) -> Option<PhysicalRegion> {
    Some(PhysicalRegion {
        region_id: RegionId::new(table_id, 0),
        columns: columns.iter().map(|(name, id)| (name.to_string(), *id)).collect(),
    })
}

/// Tables `cpu` and `mem` of schema `public`, both of the physical table 1.
fn known() -> LogicalTables {
    collect_physical_region_metadata(
        &vec![pair("public", "cpu"), pair("public", "mem")],
        &vec![(10, 1), (11, 1)],
        &vec![region(1, &[("host", 7)])],
    )
    .unwrap()
}

fn data(schema: Option<&str>, tables: Vec<(&str, Vec<MetricRow>)>) -> SchemaData {
    SchemaData {
        schema: schema.map(|s| s.to_string()),
        tables: tables
            .into_iter()
            .map(|(name, rows)| TableData { table_name: name.to_string(), rows })
            .collect(),
    }
}

#[test]
fn region_ids_are_one_number() {
    let id = RegionId::new(3, 5);
    assert_eq!(id.as_u64(), (3u64 << 32) | 5);
    assert_eq!(RegionId::from_u64(id.as_u64()), id);
    assert_ne!(RegionId::new(5, 3).as_u64(), id.as_u64());
}

#[test]
fn table_ids_of_found_tables() {
    let tables = vec![pair("public", "cpu"), pair("public", "mem")];
    assert_eq!(
        table_ids("greptime", &tables, &vec![found(10, 1), found(11, 2)]).unwrap(),
        vec![(10, 1), (11, 2)]
    );
}

#[test]
fn first_lookup_that_fails_says_why() {
    let tables = vec![pair("public", "cpu"), pair("s", "mem")];
    let failed = table_ids("greptime", &tables, &vec![found(10, 1), TableIdLookup::NotFound]);
    assert!(matches!(
        failed,
        Err(CollectError::TableNotFound { catalog, schema, table })
            if catalog == "greptime" && schema == "s" && table == "mem"
    ));
    let failed =
        table_ids("greptime", &tables, &vec![TableIdLookup::TableFailed("x".to_string())]);
    assert!(matches!(failed, Err(CollectError::Operator(reason)) if reason == "x"));
    let failed =
        table_ids("greptime", &tables, &vec![TableIdLookup::RouteFailed("y".to_string())]);
    assert!(matches!(failed, Err(CollectError::CommonMeta(reason)) if reason == "y"));
}

#[test]
fn each_physical_region_is_asked_for_once() {
    let ids = physical_region_ids(&vec![(10, 1), (11, 2), (12, 1)]);
    assert_eq!(ids, vec![RegionId::new(1, 0), RegionId::new(2, 0)]);
}

#[test]
fn metadata_is_collected_by_schema_and_table() {
    let known = known();
    let cpu = known.get(&pair("public", "cpu")).unwrap();
    assert_eq!((cpu.table_id, cpu.region_id), (10, RegionId::new(1, 0)));
    assert_eq!(cpu.name_to_id.get(&"host".to_string()), Some(&7));
    assert_eq!(cpu.name_to_id.get(&"zone".to_string()), None);
    assert!(known.get(&pair("other", "cpu")).is_none());
}

#[test]
fn missing_region_metadata_is_an_error() {
    let failed = collect_physical_region_metadata(
        &vec![pair("public", "cpu")],
        &vec![(10, 1)],
        &vec![region(2, &[]), None],
    );
    assert!(matches!(
        failed,
        Err(CollectError::RegionMetadataNotFound { region_id, table })
            if region_id == RegionId::new(1, 0) && table == "cpu"
    ));
}

#[test]
fn rows_of_tables_of_one_region_share_a_batch() {
    let mut builder = MetricsBatchBuilder::new();
    let tables = vec![data(
        None,
        vec![("mem", vec![row(b"m", 5, 1.0)]), ("cpu", vec![row(b"c", 2, 2.0), row(b"d", 9, 3.0)])],
    )];
    builder.append_rows_to_batch(None, None, &tables, &known()).unwrap();
    let batches = builder.finish();
    assert_eq!(batches.len(), 1);
    assert_eq!(batches[0].0, "public");
    assert_eq!(batches[0].1, RegionId::new(1, 0));
    assert_eq!(batches[0].2.len(), 1);
    assert_eq!(batches[0].2[0].0.num_rows, 3);
    assert_eq!(batches[0].2[0].1, (2, 9));
}

#[test]
fn schema_of_the_data_comes_before_the_current_one() {
    let known = collect_physical_region_metadata(
        &vec![pair("a", "t"), pair("b", "t")],
        &vec![(10, 1), (11, 2)],
        &vec![region(1, &[]), region(2, &[])],
    )
    .unwrap();
    let mut builder = MetricsBatchBuilder::new();
    let tables = vec![
        data(Some("a"), vec![("t", vec![row(b"x", 1, 1.0)])]),
        data(None, vec![("t", vec![row(b"y", 2, 2.0)])]),
    ];
    builder.append_rows_to_batch(None, Some("b"), &tables, &known).unwrap();
    let found: Vec<(String, RegionId)> =
        builder.finish().into_iter().map(|(schema, region, _)| (schema, region)).collect();
    assert_eq!(
        found,
        vec![("a".to_string(), RegionId::new(1, 0)), ("b".to_string(), RegionId::new(2, 0))]
    );
}

#[test]
fn unknown_tables_and_bad_rows_are_errors() {
    let mut builder = MetricsBatchBuilder::new();
    let tables = vec![data(None, vec![("disk", vec![])])];
    let failed = builder.append_rows_to_batch(Some("c"), None, &tables, &known());
    assert!(matches!(
        failed,
        Err(AppendFailure::TableNotFound { catalog, schema, table })
            if catalog == "c" && schema == "public" && table == "disk"
    ));
    let mut bad = row(b"a", 1, 1.0);
    bad.primary_key = Err("e".to_string());
    let tables = vec![data(None, vec![("cpu", vec![bad])])];
    let failed = builder.append_rows_to_batch(None, None, &tables, &known());
    assert!(matches!(
        failed,
        Err(AppendFailure::Rows(AppendError::EncodePrimaryKey(reason))) if reason == "e"
    ));
}

fn tags(physical: &str, logical: &str, tags: &[&str]) -> TableTags {
    TableTags {
        physical_table: physical.to_string(),
        logical_table: logical.to_string(),
        tags: tags.iter().map(|t| t.to_string()).collect(),
    }
}

#[test]
fn tags_of_a_table_are_gathered_once() {
    let items = vec![
        tags("phy", "cpu", &["host", "zone"]),
        tags("phy", "mem", &["host"]),
        tags("phy", "cpu", &["zone", "core"]),
    ];
    let gathered = gather_tags(&items);
    assert_eq!(
        gathered.get(&pair("phy", "cpu")).unwrap(),
        &vec!["host".to_string(), "zone".to_string(), "core".to_string()]
    );
    assert_eq!(gathered.get(&pair("phy", "mem")).unwrap(), &vec!["host".to_string()]);
}

#[test]
fn logical_schemas_hold_tags_time_and_value() {
    let schemas =
        create_or_alter_physical_tables(&vec![tags("phy", "cpu", &["host"]), tags("p2", "t", &[])]);
    let cpu = &schemas.get(&"phy".to_string()).unwrap()[0];
    assert_eq!(cpu.name, "cpu");
    let columns: Vec<(&str, ColumnDataType, SemanticType)> = cpu
        .columns
        .iter()
        .map(|c| (c.column_name.as_str(), c.datatype, c.semantic_type))
        .collect();
    assert_eq!(
        columns,
        vec![
            ("host", ColumnDataType::Text, SemanticType::Tag),
            (
                "greptime_timestamp",
                ColumnDataType::TimestampMillisecond,
                SemanticType::Timestamp
            ),
            ("greptime_value", ColumnDataType::Float64, SemanticType::Field),
        ]
    );
    assert_eq!(schemas.get(&"p2".to_string()).unwrap().len(), 1);
}

#[test]
fn keyed_map_keeps_the_last_value() {
    let mut map: KeyedMap<String, u32> = KeyedMap::new();
    map.insert("a".to_string(), 1);
    map.insert("b".to_string(), 2);
    map.insert("a".to_string(), 3);
    assert_eq!(map.get(&"a".to_string()), Some(&3));
    assert_eq!(map.index_of(&"b".to_string()), Some(1));
    let mut other: KeyedMap<String, u32> = KeyedMap::new();
    other.insert("b".to_string(), 9);
    other.insert("c".to_string(), 4);
    map.extend(other);
    assert_eq!(map.keys, vec!["a".to_string(), "b".to_string(), "c".to_string()]);
    assert_eq!(map.values, vec![3, 9, 4]);
}

#[test]
fn append_metrics_start_at_zero() {
    let mut metrics = AppendMetrics::default();
    assert!(metrics.observations().iter().all(|(_, nanos)| *nanos == 0));
    metrics.push_row = 7;
    assert_eq!(metrics.observations().len(), 11);
    assert!(metrics.observations().contains(&("push_row", 7)));
}
