//! Builds the record batches of metrics, by schema and physical region.

use vstd::prelude::*;

use crate::batch_builder;
use crate::batch_builder::{
    AppendError, AppendErrorView, BatchEncoder, MetricRow, MetricRowView, PointView,
};
use crate::keyed_map::KeyedMap;
use crate::lists;
use crate::record_batch::{CellView, RecordBatch};
use crate::region::RegionId;
use crate::rows;
use crate::text;

verus! {

/// The catalog that is used where a session names none.
pub const DEFAULT_CATALOG_NAME: &'static str = "greptime";

/// The schema that is used where neither a request nor a session names one.
pub const DEFAULT_SCHEMA_NAME: &'static str = "public";

/// The columns of a physical region.
#[derive(Debug)]
pub struct PhysicalRegion {
    pub region_id: RegionId,
    /// The columns, by name, each with its identifier.
    pub columns: Vec<(String, u32)>,
}

/// What is known of a logical table: its identifier, the region of the physical table that
/// holds its rows, and the identifiers of that region's columns by name.
#[derive(Debug)]
pub struct LogicalTable {
    pub table_id: u32,
    pub region_id: RegionId,
    pub name_to_id: KeyedMap<String, u32>,
}

/// What is known of logical tables, by schema and name.
pub type LogicalTables = KeyedMap<(String, String), LogicalTable>;

/// What was found of a logical table.
#[derive(Debug)]
pub enum TableIdLookup {
    Found { logical_table_id: u32, physical_table_id: u32 },
    NotFound,
    /// The table could not be looked up.
    TableFailed(String),
    /// Its physical table could not be looked up.
    RouteFailed(String),
}

/// Why the metadata of logical tables could not be collected.
#[derive(Debug)]
pub enum CollectError {
    Operator(String),
    CommonMeta(String),
    TableNotFound { catalog: String, schema: String, table: String },
    RegionMetadataNotFound { region_id: RegionId, table: String },
}

/// What a [`CollectError`] says.
pub enum CollectErrorView {
    Operator(Seq<char>),
    CommonMeta(Seq<char>),
    TableNotFound { catalog: Seq<char>, schema: Seq<char>, table: Seq<char> },
    RegionMetadataNotFound { region_id: RegionId, table: Seq<char> },
}

impl View for CollectError {
    type V = CollectErrorView;

    open spec fn view(&self) -> CollectErrorView {
        match self {
            CollectError::Operator(reason) => CollectErrorView::Operator(reason@),
            CollectError::CommonMeta(reason) => CollectErrorView::CommonMeta(reason@),
            CollectError::TableNotFound { catalog, schema, table } => {
                CollectErrorView::TableNotFound {
                    catalog: catalog@,
                    schema: schema@,
                    table: table@,
                }
            },
            CollectError::RegionMetadataNotFound { region_id, table } => {
                CollectErrorView::RegionMetadataNotFound { region_id: *region_id, table: table@ }
            },
        }
    }
}

/// The schema and the name of each table.
pub open spec fn table_keys(tables: Seq<(String, String)>) -> Seq<(Seq<char>, Seq<char>)> {
    tables.map_values(|t: (String, String)| (t.0@, t.1@))
}

/// The lookups came to an end at `k`, which found no table.
pub open spec fn ids_end_at(lookups: Seq<TableIdLookup>, k: int) -> bool {
    &&& 0 <= k < lookups.len()
    &&& !(lookups[k] is Found)
    &&& forall|i: int| 0 <= i < k ==> #[trigger] lookups[i] is Found
}

/// What a lookup that found no table means.
pub open spec fn ids_error(
    catalog: Seq<char>,
    table: (Seq<char>, Seq<char>),
    lookup: TableIdLookup,
) -> CollectErrorView {
    match lookup {
        TableIdLookup::TableFailed(reason) => CollectErrorView::Operator(reason@),
        TableIdLookup::RouteFailed(reason) => CollectErrorView::CommonMeta(reason@),
        _ => CollectErrorView::TableNotFound { catalog, schema: table.0, table: table.1 },
    }
}

/// The logical and the physical identifiers of tables, in order, where all were found. The
/// lookups may end with the first that found none.
pub fn table_ids(
    catalog: &str,
    logical_tables: &Vec<(String, String)>,
    lookups: &Vec<TableIdLookup>,
) -> (r: Result<Vec<(u32, u32)>, CollectError>)
    requires
        lookups@.len() <= logical_tables@.len(),
        lookups@.len() < logical_tables@.len() ==> exists|k: int| ids_end_at(lookups@, k),
    ensures
        match r {
            Ok(ids) => ids@.len() == logical_tables@.len() && ids@.len() == lookups@.len()
                && forall|i: int|
                0 <= i < ids@.len() ==> lookups@[i] == (TableIdLookup::Found {
                    logical_table_id: (#[trigger] ids@[i]).0,
                    physical_table_id: ids@[i].1,
                }),
            Err(e) => exists|k: int| #[trigger]
                ids_end_at(lookups@, k) && e@ == ids_error(
                    catalog@,
                    table_keys(logical_tables@)[k],
                    lookups@[k],
                ),
        },
{
    let mut ids: Vec<(u32, u32)> = Vec::new();
    let mut k: usize = 0;
    while k < lookups.len()
        invariant
            k <= lookups@.len() <= logical_tables@.len(),
            ids@.len() == k,
            forall|i: int|
                0 <= i < k ==> lookups@[i] == (TableIdLookup::Found {
                    logical_table_id: (#[trigger] ids@[i]).0,
                    physical_table_id: ids@[i].1,
                }),
        decreases lookups@.len() - k,
    {
        assert forall|i: int| 0 <= i < k implies #[trigger] lookups@[i] is Found by {
            assert(lookups@[i] == (TableIdLookup::Found {
                logical_table_id: ids@[i].0,
                physical_table_id: ids@[i].1,
            }));
        }
        match &lookups[k] {
            TableIdLookup::Found { logical_table_id, physical_table_id } => {
                ids.push((*logical_table_id, *physical_table_id));
            },
            TableIdLookup::NotFound => {
                assert(ids_end_at(lookups@, k as int));
                return Err(
                    CollectError::TableNotFound {
                        catalog: catalog.to_string(),
                        schema: logical_tables[k].0.clone(),
                        table: logical_tables[k].1.clone(),
                    },
                );
            },
            TableIdLookup::TableFailed(reason) => {
                assert(ids_end_at(lookups@, k as int));
                return Err(CollectError::Operator(reason.clone()));
            },
            TableIdLookup::RouteFailed(reason) => {
                assert(ids_end_at(lookups@, k as int));
                return Err(CollectError::CommonMeta(reason.clone()));
            },
        }
        k = k + 1;
    }
    proof {
        if lookups@.len() < logical_tables@.len() {
            let end = choose|end: int| ids_end_at(lookups@, end);
            assert(lookups@[end] == (TableIdLookup::Found {
                logical_table_id: ids@[end].0,
                physical_table_id: ids@[end].1,
            }));
        }
    }
    Ok(ids)
}

/// The first region of a physical table, whose metadata stands for all.
pub open spec fn region_of(ids: (u32, u32)) -> RegionId {
    RegionId { table_id: ids.1, region_number: 0 }
}

/// The regions whose metadata is needed: the first of each physical table, once.
pub fn physical_region_ids(table_ids: &Vec<(u32, u32)>) -> (r: Vec<RegionId>)
    ensures
        r@.no_duplicates(),
        forall|region: RegionId| #[trigger]
            r@.contains(region) <==> exists|i: int|
                0 <= i < table_ids@.len() && region_of(#[trigger] table_ids@[i]) == region,
{
    let mut regions: Vec<RegionId> = Vec::new();
    let mut i: usize = 0;
    while i < table_ids.len()
        invariant
            i <= table_ids@.len(),
            regions@.no_duplicates(),
            forall|region: RegionId| #[trigger]
                regions@.contains(region) <==> exists|k: int|
                    0 <= k < i && region_of(#[trigger] table_ids@[k]) == region,
        decreases table_ids@.len() - i,
    {
        let region = RegionId::new(table_ids[i].1, 0);
        let ghost before = regions@;
        let mut known: bool = false;
        let mut j: usize = 0;
        while j < regions.len()
            invariant
                j <= regions@.len(),
                regions@ == before,
                known <==> exists|k: int| 0 <= k < j && #[trigger] before[k] == region,
            decreases regions@.len() - j,
        {
            if regions[j] == region {
                known = true;
                assert(before[j as int] == region);
            }
            j = j + 1;
        }
        if !known {
            regions.push(region);
        }
        proof {
            assert(region_of(table_ids@[i as int]) == region);
            assert forall|x: RegionId| #[trigger] regions@.contains(x) <==> exists|k: int|
                0 <= k < i + 1 && region_of(#[trigger] table_ids@[k]) == x by {
                if before.contains(x) {
                    let m = choose|m: int| 0 <= m < before.len() && before[m] == x;
                    assert(regions@[m] == x);
                    let k = choose|k: int| 0 <= k < i && region_of(#[trigger] table_ids@[k]) == x;
                    assert(region_of(table_ids@[k]) == x);
                }
                if x == region {
                    if known {
                        let m = choose|m: int| 0 <= m < before.len() && #[trigger] before[m] == x;
                        assert(regions@[m] == x);
                    } else {
                        assert(regions@[before.len() as int] == x);
                    }
                }
                if regions@.contains(x) && x != region {
                    let m = choose|m: int| 0 <= m < regions@.len() && regions@[m] == x;
                    assert(before[m] == x);
                    assert(before.contains(x));
                }
            }
        }
        i = i + 1;
    }
    regions
}

/// Identifiers by name; of columns of one name the last counts.
pub open spec fn ids_by_name(columns: Seq<(String, u32)>) -> Map<Seq<char>, u32>
    decreases columns.len(),
{
    if columns.len() == 0 {
        Map::empty()
    } else {
        ids_by_name(columns.drop_last()).insert(columns.last().0@, columns.last().1)
    }
}

/// The identifiers of columns by name.
fn name_to_id(columns: &Vec<(String, u32)>) -> (r: KeyedMap<String, u32>)
    ensures
        r.well_formed(),
        r.map() == ids_by_name(columns@),
{
    let mut ids: KeyedMap<String, u32> = KeyedMap::new();
    let mut i: usize = 0;
    assert(columns@.take(0) =~= Seq::<(String, u32)>::empty());
    while i < columns.len()
        invariant
            i <= columns@.len(),
            ids.well_formed(),
            ids.map() == ids_by_name(columns@.take(i as int)),
        decreases columns@.len() - i,
    {
        assert(columns@.take(i + 1).drop_last() =~= columns@.take(i as int));
        assert(columns@.take(i + 1).last() == columns@[i as int]);
        ids.insert(columns[i].0.clone(), columns[i].1);
        i = i + 1;
    }
    assert(columns@.take(i as int) =~= columns@);
    ids
}

/// The last metadata of a region among what was found.
pub open spec fn metadata_of(metadatas: Seq<Option<PhysicalRegion>>, region_id: RegionId) -> Option<
    PhysicalRegion,
>
    decreases metadatas.len(),
{
    if metadatas.len() == 0 {
        None
    } else {
        match metadatas.last() {
            Some(m) => if m.region_id == region_id {
                Some(m)
            } else {
                metadata_of(metadatas.drop_last(), region_id)
            },
            None => metadata_of(metadatas.drop_last(), region_id),
        }
    }
}

/// The last metadata of a region among what was found.
fn find_metadata(metadatas: &Vec<Option<PhysicalRegion>>, region_id: RegionId) -> (r: Option<usize>)
    ensures
        match r {
            Some(i) => i < metadatas@.len() && metadatas@[i as int] is Some && metadata_of(
                metadatas@,
                region_id,
            ) == metadatas@[i as int],
            None => metadata_of(metadatas@, region_id) is None,
        },
{
    let mut end: usize = metadatas.len();
    assert(metadatas@.take(end as int) =~= metadatas@);
    while end > 0
        invariant
            end <= metadatas@.len(),
            metadata_of(metadatas@, region_id) == metadata_of(
                metadatas@.take(end as int),
                region_id,
            ),
        decreases end,
    {
        let i: usize = end - 1;
        assert(metadatas@.take(end as int).last() == metadatas@[i as int]);
        assert(metadatas@.take(end as int).drop_last() =~= metadatas@.take(i as int));
        if let Some(m) = &metadatas[i] {
            if m.region_id == region_id {
                return Some(i);
            }
        }
        end = i;
    }
    None
}

/// `table` is what is known of a table with the identifiers `ids`.
pub open spec fn describes(
    table: LogicalTable,
    ids: (u32, u32),
    metadatas: Seq<Option<PhysicalRegion>>,
) -> bool {
    &&& table.table_id == ids.0
    &&& table.region_id == region_of(ids)
    &&& metadata_of(metadatas, region_of(ids)) matches Some(m)
        && table.name_to_id.map() == ids_by_name(m.columns@)
    &&& table.name_to_id.well_formed()
}

/// What is known of some tables: of tables of one schema and name, the last counts.
pub open spec fn describes_all(
    known: LogicalTables,
    keys: Seq<(Seq<char>, Seq<char>)>,
    ids: Seq<(u32, u32)>,
    metadatas: Seq<Option<PhysicalRegion>>,
) -> bool {
    &&& known.well_formed()
    &&& forall|key: (Seq<char>, Seq<char>)|
        match rows::last_index(keys, key) {
            Some(i) => #[trigger] known.map().contains_key(key) && describes(
                known.map()[key],
                ids[i],
                metadatas,
            ),
            None => !known.map().contains_key(key),
        }
}

/// The metadata of a table's region is missing, and that of no table before it.
pub open spec fn metadata_missing_at(
    ids: Seq<(u32, u32)>,
    metadatas: Seq<Option<PhysicalRegion>>,
    k: int,
) -> bool {
    &&& 0 <= k < ids.len()
    &&& metadata_of(metadatas, region_of(ids[k])) is None
    &&& forall|i: int| 0 <= i < k ==> metadata_of(metadatas, region_of(#[trigger] ids[i])) is Some
}

/// What is known of logical tables, from their identifiers and the metadata of the physical
/// regions that was found: of each its identifier, its region and the identifiers of the
/// region's columns.
pub fn collect_physical_region_metadata(
    logical_tables: &Vec<(String, String)>,
    table_ids: &Vec<(u32, u32)>,
    metadatas: &Vec<Option<PhysicalRegion>>,
) -> (r: Result<LogicalTables, CollectError>)
    requires
        table_ids@.len() == logical_tables@.len(),
    ensures
        match r {
            Ok(known) => describes_all(
                known,
                table_keys(logical_tables@),
                table_ids@,
                metadatas@,
            ) && forall|k: int| !#[trigger] metadata_missing_at(table_ids@, metadatas@, k),
            Err(e) => exists|k: int| #[trigger]
                metadata_missing_at(table_ids@, metadatas@, k) && e@
                    == (CollectErrorView::RegionMetadataNotFound {
                    region_id: region_of(table_ids@[k]),
                    table: logical_tables@[k].1@,
                }),
        },
{
    let ghost keys = table_keys(logical_tables@);
    let mut known: LogicalTables = KeyedMap::new();
    let mut i: usize = 0;
    assert(keys.take(0) =~= Seq::<(Seq<char>, Seq<char>)>::empty());
    while i < logical_tables.len()
        invariant
            i <= logical_tables@.len(),
            table_ids@.len() == logical_tables@.len(),
            keys == table_keys(logical_tables@),
            describes_all(known, keys.take(i as int), table_ids@, metadatas@),
            forall|k: int|
                0 <= k < i ==> metadata_of(metadatas@, region_of(#[trigger] table_ids@[k])) is Some,
        decreases logical_tables@.len() - i,
    {
        let region_id = RegionId::new(table_ids[i].1, 0);
        match find_metadata(metadatas, region_id) {
            None => {
                assert(metadata_missing_at(table_ids@, metadatas@, i as int));
                return Err(
                    CollectError::RegionMetadataNotFound {
                        region_id,
                        table: logical_tables[i].1.clone(),
                    },
                );
            },
            Some(at) => {
                if let Some(m) = &metadatas[at] {
                    let table = LogicalTable {
                        table_id: table_ids[i].0,
                        region_id,
                        name_to_id: name_to_id(&m.columns),
                    };
                    let key = (logical_tables[i].0.clone(), logical_tables[i].1.clone());
                    let ghost before = known.map();
                    known.insert(key, table);
                    proof {
                        let next = keys.take(i + 1);
                        assert(next.drop_last() =~= keys.take(i as int));
                        assert(next.last() == key@);
                        assert forall|k: (Seq<char>, Seq<char>)|
                            match rows::last_index(next, k) {
                                Some(m) => #[trigger] known.map().contains_key(k) && describes(
                                    known.map()[k],
                                    table_ids@[m],
                                    metadatas@,
                                ),
                                None => !known.map().contains_key(k),
                            } by {
                            assert(before.contains_key(k) ==> known.map().contains_key(k));
                            if k != key@ {
                                assert(known.map().contains_key(k) == before.contains_key(k));
                            }
                        }
                    }
                }
            },
        }
        i = i + 1;
    }
    assert(keys.take(i as int) =~= keys);
    Ok(known)
}

/// The rows of a logical table.
#[derive(Debug)]
pub struct TableData {
    pub table_name: String,
    pub rows: Vec<MetricRow>,
}

/// What [`TableData`] holds.
pub struct TableDataView {
    pub table_name: Seq<char>,
    pub rows: Seq<MetricRowView>,
}

impl View for TableData {
    type V = TableDataView;

    open spec fn view(&self) -> TableDataView {
        TableDataView {
            table_name: self.table_name@,
            rows: self.rows@.map_values(|r: MetricRow| r@),
        }
    }
}

/// The rows of logical tables of one schema, which a request may name.
#[derive(Debug)]
pub struct SchemaData {
    pub schema: Option<String>,
    pub tables: Vec<TableData>,
}

/// What [`SchemaData`] holds.
pub struct SchemaDataView {
    pub schema: Option<Seq<char>>,
    pub tables: Seq<TableDataView>,
}

impl View for SchemaData {
    type V = SchemaDataView;

    open spec fn view(&self) -> SchemaDataView {
        SchemaDataView {
            schema: match self.schema {
                Some(s) => Some(s@),
                None => None,
            },
            tables: self.tables@.map_values(|t: TableData| t@),
        }
    }
}

/// Why rows could not be added to their batches.
#[derive(Debug)]
pub enum AppendFailure {
    TableNotFound { catalog: String, schema: String, table: String },
    Rows(AppendError),
}

/// What an [`AppendFailure`] says.
pub enum AppendFailureView {
    TableNotFound { catalog: Seq<char>, schema: Seq<char>, table: Seq<char> },
    Rows(AppendErrorView),
}

impl View for AppendFailure {
    type V = AppendFailureView;

    open spec fn view(&self) -> AppendFailureView {
        match self {
            AppendFailure::TableNotFound { catalog, schema, table } => {
                AppendFailureView::TableNotFound {
                    catalog: catalog@,
                    schema: schema@,
                    table: table@,
                }
            },
            AppendFailure::Rows(e) => AppendFailureView::Rows(e@),
        }
    }
}

/// Builds the batches of the physical regions that rows go to.
#[derive(Debug)]
pub struct MetricsBatchBuilder {
    pub builders: KeyedMap<(String, RegionId), BatchEncoder>,
}

/// What a [`MetricsBatchBuilder`] holds: the schema and the region of each encoder, and the
/// points of its batches.
#[verifier::ext_equal]
pub struct BuildersView {
    pub keys: Seq<(Seq<char>, RegionId)>,
    pub chunks: Seq<Seq<Seq<PointView>>>,
}

impl View for MetricsBatchBuilder {
    type V = BuildersView;

    open spec fn view(&self) -> BuildersView {
        BuildersView {
            keys: self.builders.spec_keys(),
            chunks: self.builders.values@.map_values(|e: BatchEncoder| e@),
        }
    }
}

/// The tables that are known, by schema and name.
pub type KnownTables = Map<(Seq<char>, Seq<char>), LogicalTable>;

/// Some table of a schema is known.
pub open spec fn knows_schema(known: KnownTables, schema: Seq<char>) -> bool {
    exists|table: Seq<char>| #[trigger] known.contains_key((schema, table))
}

impl BuildersView {
    /// The encoder of a region, or a new one.
    pub open spec fn place(self, key: (Seq<char>, RegionId)) -> int {
        match rows::last_index(self.keys, key) {
            Some(i) => i,
            None => self.keys.len() as int,
        }
    }

    /// The builders with an encoder for a region.
    pub open spec fn with(self, key: (Seq<char>, RegionId)) -> BuildersView {
        if self.place(key) < self.keys.len() {
            self
        } else {
            BuildersView {
                keys: self.keys.push(key),
                chunks: self.chunks.push(seq![Seq::<PointView>::empty()]),
            }
        }
    }

    /// Adds rows to the batches of a region.
    pub open spec fn add_rows(self, key: (Seq<char>, RegionId), rows: Seq<MetricRowView>) -> (
        BuildersView,
        Option<AppendErrorView>,
    ) {
        let (chunks, error) = batch_builder::chunks_append(
            self.with(key).chunks[self.place(key)],
            rows,
        );
        (
            BuildersView {
                keys: self.with(key).keys,
                chunks: self.with(key).chunks.update(self.place(key), chunks),
            },
            error,
        )
    }

    /// Adds the rows of a logical table.
    pub open spec fn add_table(
        self,
        known: KnownTables,
        catalog: Seq<char>,
        schema: Seq<char>,
        table: TableDataView,
    ) -> (BuildersView, Option<AppendFailureView>) {
        if known.contains_key((schema, table.table_name)) {
            let (next, error) = self.add_rows(
                (schema, known[(schema, table.table_name)].region_id),
                table.rows,
            );
            (
                next,
                match error {
                    Some(e) => Some(AppendFailureView::Rows(e)),
                    None => None,
                },
            )
        } else {
            (
                self,
                Some(
                    AppendFailureView::TableNotFound { catalog, schema, table: table.table_name },
                ),
            )
        }
    }

    /// Adds the rows of the logical tables of a schema, up to the first that fails.
    pub open spec fn add_tables(
        self,
        known: KnownTables,
        catalog: Seq<char>,
        schema: Seq<char>,
        tables: Seq<TableDataView>,
    ) -> (BuildersView, Option<AppendFailureView>)
        decreases tables.len(),
    {
        if tables.len() == 0 {
            (self, None)
        } else {
            let (before, error) = self.add_tables(known, catalog, schema, tables.drop_last());
            if error is Some {
                (before, error)
            } else {
                before.add_table(known, catalog, schema, tables.last())
            }
        }
    }

    /// Adds the rows of one schema, of which some table must be known.
    pub open spec fn add_schema(
        self,
        known: KnownTables,
        catalog: Seq<char>,
        current_schema: Option<Seq<char>>,
        data: SchemaDataView,
    ) -> (BuildersView, Option<AppendFailureView>) {
        let schema = schema_of(data.schema, current_schema);
        if knows_schema(known, schema) {
            self.add_tables(known, catalog, schema, data.tables)
        } else {
            (
                self,
                Some(AppendFailureView::TableNotFound { catalog, schema, table: ""@ }),
            )
        }
    }

    /// Adds the rows of schema after schema, up to the first that fails.
    pub open spec fn add_all(
        self,
        known: KnownTables,
        catalog: Seq<char>,
        current_schema: Option<Seq<char>>,
        data: Seq<SchemaDataView>,
    ) -> (BuildersView, Option<AppendFailureView>)
        decreases data.len(),
    {
        if data.len() == 0 {
            (self, None)
        } else {
            let (before, error) = self.add_all(known, catalog, current_schema, data.drop_last());
            if error is Some {
                (before, error)
            } else {
                before.add_schema(known, catalog, current_schema, data.last())
            }
        }
    }

    /// The machine can hold the rows of a logical table.
    pub open spec fn table_room(
        self,
        known: KnownTables,
        schema: Seq<char>,
        table: TableDataView,
    ) -> bool {
        known.contains_key((schema, table.table_name)) ==> {
            let key = (schema, known[(schema, table.table_name)].region_id);
            batch_builder::append_room(self.with(key).chunks[self.place(key)], table.rows)
        }
    }

    /// The machine can hold the rows of the logical tables of a schema.
    pub open spec fn tables_room(
        self,
        known: KnownTables,
        catalog: Seq<char>,
        schema: Seq<char>,
        tables: Seq<TableDataView>,
    ) -> bool
        decreases tables.len(),
    {
        tables.len() > 0 ==> {
            let (before, error) = self.add_tables(known, catalog, schema, tables.drop_last());
            &&& self.tables_room(known, catalog, schema, tables.drop_last())
            &&& error is None ==> before.table_room(known, schema, tables.last())
        }
    }

    /// The machine can hold all rows.
    pub open spec fn all_room(
        self,
        known: KnownTables,
        catalog: Seq<char>,
        current_schema: Option<Seq<char>>,
        data: Seq<SchemaDataView>,
    ) -> bool
        decreases data.len(),
    {
        data.len() > 0 ==> {
            let (before, error) = self.add_all(known, catalog, current_schema, data.drop_last());
            &&& self.all_room(known, catalog, current_schema, data.drop_last())
            &&& error is None ==> before.tables_room(
                known,
                catalog,
                schema_of(data.last().schema, current_schema),
                data.last().tables,
            )
        }
    }
}

/// The schema that rows go to: that of the request, else that of the session, else the
/// default.
pub open spec fn schema_of(
    requested: Option<Seq<char>>,
    current_schema: Option<Seq<char>>,
) -> Seq<char> {
    match requested {
        Some(s) => s,
        None => match current_schema {
            Some(s) => s,
            None => DEFAULT_SCHEMA_NAME@,
        },
    }
}

/// What an optional string holds.
pub open spec fn text_view(text: Option<&str>) -> Option<Seq<char>> {
    match text {
        Some(s) => Some(s@),
        None => None,
    }
}

proof fn lemma_tables_room_prefix(
    builders: BuildersView,
    known: KnownTables,
    catalog: Seq<char>,
    schema: Seq<char>,
    tables: Seq<TableDataView>,
    n: int,
)
    requires
        builders.tables_room(known, catalog, schema, tables),
        0 <= n <= tables.len(),
    ensures
        builders.tables_room(known, catalog, schema, tables.take(n)),
    decreases tables.len(),
{
    if n < tables.len() {
        lemma_tables_room_prefix(builders, known, catalog, schema, tables.drop_last(), n);
        assert(tables.drop_last().take(n) =~= tables.take(n));
    } else {
        assert(tables.take(n) =~= tables);
    }
}

proof fn lemma_add_tables_stops(
    builders: BuildersView,
    known: KnownTables,
    catalog: Seq<char>,
    schema: Seq<char>,
    tables: Seq<TableDataView>,
    n: int,
)
    requires
        0 <= n <= tables.len(),
        builders.add_tables(known, catalog, schema, tables.take(n)).1 is Some,
    ensures
        builders.add_tables(known, catalog, schema, tables) == builders.add_tables(
            known,
            catalog,
            schema,
            tables.take(n),
        ),
    decreases tables.len() - n,
{
    if n < tables.len() {
        assert(tables.take(n + 1).drop_last() =~= tables.take(n));
        lemma_add_tables_stops(builders, known, catalog, schema, tables, n + 1);
    } else {
        assert(tables.take(n) =~= tables);
    }
}

proof fn lemma_all_room_prefix(
    builders: BuildersView,
    known: KnownTables,
    catalog: Seq<char>,
    current_schema: Option<Seq<char>>,
    data: Seq<SchemaDataView>,
    n: int,
)
    requires
        builders.all_room(known, catalog, current_schema, data),
        0 <= n <= data.len(),
    ensures
        builders.all_room(known, catalog, current_schema, data.take(n)),
    decreases data.len(),
{
    if n < data.len() {
        lemma_all_room_prefix(builders, known, catalog, current_schema, data.drop_last(), n);
        assert(data.drop_last().take(n) =~= data.take(n));
    } else {
        assert(data.take(n) =~= data);
    }
}

proof fn lemma_add_all_stops(
    builders: BuildersView,
    known: KnownTables,
    catalog: Seq<char>,
    current_schema: Option<Seq<char>>,
    data: Seq<SchemaDataView>,
    n: int,
)
    requires
        0 <= n <= data.len(),
        builders.add_all(known, catalog, current_schema, data.take(n)).1 is Some,
    ensures
        builders.add_all(known, catalog, current_schema, data) == builders.add_all(
            known,
            catalog,
            current_schema,
            data.take(n),
        ),
    decreases data.len() - n,
{
    if n < data.len() {
        assert(data.take(n + 1).drop_last() =~= data.take(n));
        lemma_add_all_stops(builders, known, catalog, current_schema, data, n + 1);
    } else {
        assert(data.take(n) =~= data);
    }
}

impl MetricsBatchBuilder {
    /// No region has two encoders, and every encoder is well formed.
    pub open spec fn well_formed(self) -> bool {
        &&& self.builders.well_formed()
        &&& forall|i: int|
            0 <= i < self.builders.values@.len() ==> (
            #[trigger] self.builders.values@[i]).columns_builder.well_formed()
    }

    /// A builder without encoders.
    pub fn new() -> (r: Self)
        ensures
            r.well_formed(),
            r@ == (BuildersView { keys: Seq::empty(), chunks: Seq::empty() }),
    {
        let r = MetricsBatchBuilder { builders: KeyedMap::new() };
        assert(r@.chunks =~= Seq::<Seq<Seq<PointView>>>::empty());
        r
    }

    /// An encoder for a region that has none.
    fn create_sparse_encoder() -> (r: BatchEncoder)
        ensures
            r.columns_builder.well_formed(),
            r@ == seq![Seq::<PointView>::empty()],
    {
        BatchEncoder::new()
    }

    /// Adds rows to the batches of a region.
    fn add_rows(&mut self, schema: String, region_id: RegionId, rows: &Vec<MetricRow>) -> (r: Result<
        (),
        AppendError,
    >)
        requires
            old(self).well_formed(),
            ({
                let key = (schema@, region_id);
                batch_builder::append_room(
                    old(self)@.with(key).chunks[old(self)@.place(key)],
                    rows@.map_values(|r: MetricRow| r@),
                )
            }),
        ensures
            final(self).well_formed(),
            final(self)@ == old(self)@.add_rows(
                (schema@, region_id),
                rows@.map_values(|r: MetricRow| r@),
            ).0,
            match r {
                Ok(_) => old(self)@.add_rows(
                    (schema@, region_id),
                    rows@.map_values(|r: MetricRow| r@),
                ).1 is None,
                Err(e) => old(self)@.add_rows(
                    (schema@, region_id),
                    rows@.map_values(|r: MetricRow| r@),
                ).1 == Some(e@),
            },
    {
        let ghost start = self@;
        let ghost k = (schema@, region_id);
        let key = (schema, region_id);
        let at: usize = match self.builders.index_of(&key) {
            Some(i) => i,
            None => {
                let encoder = MetricsBatchBuilder::create_sparse_encoder();
                let ghost before = self.builders;
                self.builders.insert(key, encoder);
                proof {
                    assert(before.values@.len() == start.keys.len());
                }
                self.builders.values.len() - 1
            },
        };
        proof {
            assert(self@.keys =~= start.with(k).keys);
            assert(self@.chunks =~= start.with(k).chunks);
            assert(at == start.place(k));
        }
        let ghost chunks = self@.chunks;
        assert(chunks[at as int] == self.builders.values@[at as int]@);
        let outcome = self.builders.values[at].append_rows(rows);
        proof {
            let appended = batch_builder::chunks_append(
                chunks[at as int],
                rows@.map_values(|r: MetricRow| r@),
            ).0;
            assert(self@.chunks =~= chunks.update(at as int, appended));
        }
        outcome
    }

    /// Adds the rows of logical tables of one schema, up to the first that fails.
    fn add_tables(
        &mut self,
        known: &LogicalTables,
        catalog: &str,
        schema: &str,
        tables: &Vec<TableData>,
    ) -> (r: Result<(), AppendFailure>)
        requires
            old(self).well_formed(),
            known.well_formed(),
            old(self)@.tables_room(
                known.map(),
                catalog@,
                schema@,
                tables@.map_values(|t: TableData| t@),
            ),
        ensures
            final(self).well_formed(),
            final(self)@ == old(self)@.add_tables(
                known.map(),
                catalog@,
                schema@,
                tables@.map_values(|t: TableData| t@),
            ).0,
            match r {
                Ok(_) => old(self)@.add_tables(
                    known.map(),
                    catalog@,
                    schema@,
                    tables@.map_values(|t: TableData| t@),
                ).1 is None,
                Err(e) => old(self)@.add_tables(
                    known.map(),
                    catalog@,
                    schema@,
                    tables@.map_values(|t: TableData| t@),
                ).1 == Some(e@),
            },
    {
        let ghost start = self@;
        let ghost all = tables@.map_values(|t: TableData| t@);
        let ghost map = known.map();
        let mut i: usize = 0;
        assert(all.take(0) =~= Seq::<TableDataView>::empty());
        while i < tables.len()
            invariant
                i <= tables@.len(),
                all == tables@.map_values(|t: TableData| t@),
                map == known.map(),
                known.well_formed(),
                start == old(self)@,
                self.well_formed(),
                start.tables_room(map, catalog@, schema@, all),
                start.add_tables(map, catalog@, schema@, all.take(i as int)) == (
                    self@,
                    None::<AppendFailureView>,
                ),
            decreases tables@.len() - i,
        {
            let ghost next = all.take(i + 1);
            let table = &tables[i];
            proof {
                assert(next.drop_last() =~= all.take(i as int));
                assert(next.last() == table@);
                lemma_tables_room_prefix(start, map, catalog@, schema@, all, i + 1);
                if start.add_tables(map, catalog@, schema@, next).1 is Some {
                    lemma_add_tables_stops(start, map, catalog@, schema@, all, i + 1);
                }
            }
            let key = (schema.to_string(), table.table_name.clone());
            assert(key@ == (schema@, table@.table_name));
            let region_id: RegionId = match known.get(&key) {
                Some(found) => found.region_id,
                None => {
                    return Err(
                        AppendFailure::TableNotFound {
                            catalog: catalog.to_string(),
                            schema: schema.to_string(),
                            table: table.table_name.clone(),
                        },
                    );
                },
            };
            match self.add_rows(schema.to_string(), region_id, &table.rows) {
                Ok(_) => {},
                Err(e) => {
                    return Err(AppendFailure::Rows(e));
                },
            }
            i = i + 1;
        }
        assert(all.take(i as int) =~= all);
        Ok(())
    }

    /// Adds the rows of logical tables to the batches of the physical regions that hold
    /// them, up to the first table that is not known or whose rows cannot be added.
    pub fn append_rows_to_batch(
        &mut self,
        current_catalog: Option<&str>,
        current_schema: Option<&str>,
        table_data: &Vec<SchemaData>,
        physical_region_metadata: &LogicalTables,
    ) -> (r: Result<(), AppendFailure>)
        requires
            old(self).well_formed(),
            physical_region_metadata.well_formed(),
            old(self)@.all_room(
                physical_region_metadata.map(),
                catalog_of(text_view(current_catalog)),
                text_view(current_schema),
                table_data@.map_values(|d: SchemaData| d@),
            ),
        ensures
            final(self).well_formed(),
            final(self)@ == old(self)@.add_all(
                physical_region_metadata.map(),
                catalog_of(text_view(current_catalog)),
                text_view(current_schema),
                table_data@.map_values(|d: SchemaData| d@),
            ).0,
            match r {
                Ok(_) => old(self)@.add_all(
                    physical_region_metadata.map(),
                    catalog_of(text_view(current_catalog)),
                    text_view(current_schema),
                    table_data@.map_values(|d: SchemaData| d@),
                ).1 is None,
                Err(e) => old(self)@.add_all(
                    physical_region_metadata.map(),
                    catalog_of(text_view(current_catalog)),
                    text_view(current_schema),
                    table_data@.map_values(|d: SchemaData| d@),
                ).1 == Some(e@),
            },
    {
        let ghost start = self@;
        let ghost all = table_data@.map_values(|d: SchemaData| d@);
        let ghost map = physical_region_metadata.map();
        let ghost given = text_view(current_schema);
        let catalog: &str = match current_catalog {
            Some(catalog) => catalog,
            None => DEFAULT_CATALOG_NAME,
        };
        let mut i: usize = 0;
        assert(all.take(0) =~= Seq::<SchemaDataView>::empty());
        while i < table_data.len()
            invariant
                i <= table_data@.len(),
                all == table_data@.map_values(|d: SchemaData| d@),
                map == physical_region_metadata.map(),
                physical_region_metadata.well_formed(),
                given == text_view(current_schema),
                catalog@ == catalog_of(text_view(current_catalog)),
                start == old(self)@,
                self.well_formed(),
                start.all_room(map, catalog@, given, all),
                start.add_all(map, catalog@, given, all.take(i as int)) == (
                    self@,
                    None::<AppendFailureView>,
                ),
            decreases table_data@.len() - i,
        {
            let ghost next = all.take(i + 1);
            let data = &table_data[i];
            proof {
                assert(next.drop_last() =~= all.take(i as int));
                assert(next.last() == data@);
                lemma_all_room_prefix(start, map, catalog@, given, all, i + 1);
                if start.add_all(map, catalog@, given, next).1 is Some {
                    lemma_add_all_stops(start, map, catalog@, given, all, i + 1);
                }
            }
            let schema: &str = match &data.schema {
                Some(schema) => schema.as_str(),
                None => match current_schema {
                    Some(schema) => schema,
                    None => DEFAULT_SCHEMA_NAME,
                },
            };
            assert(schema@ == schema_of(data@.schema, given));
            if !has_schema(physical_region_metadata, schema) {
                return Err(
                    AppendFailure::TableNotFound {
                        catalog: catalog.to_string(),
                        schema: schema.to_string(),
                        table: "".to_string(),
                    },
                );
            }
            match self.add_tables(physical_region_metadata, catalog, schema, &data.tables) {
                Ok(_) => {},
                Err(e) => {
                    return Err(e);
                },
            }
            i = i + 1;
        }
        assert(all.take(i as int) =~= all);
        Ok(())
    }

    /// The batches of each region, by schema, in the order in which the regions first got
    /// rows.
    pub fn finish(self) -> (r: Vec<(String, RegionId, Vec<(RecordBatch, (i64, i64))>)>)
        requires
            self.well_formed(),
            forall|i: int, j: int|
                0 <= i < self@.chunks.len() && 0 <= j < self@.chunks[i].len() ==> 0 < (
                #[trigger] self@.chunks[i][j]).len() <= u32::MAX,
        ensures
            r@.len() == self@.keys.len(),
            forall|i: int|
                0 <= i < r@.len() ==> self@.keys[i] == ((#[trigger] r@[i]).0@, r@[i].1)
                    && batches_of(self@.chunks[i], r@[i].2@),
    {
        let ghost given = self@;
        let KeyedMap { keys, values } = self.builders;
        let ghost all_keys = keys@;
        let ghost all = values@;
        let mut keys = keys;
        let mut values = values;
        let n: usize = keys.len();
        lists::reverse(&mut keys);
        lists::reverse(&mut values);
        let mut batches: Vec<(String, RegionId, Vec<(RecordBatch, (i64, i64))>)> = Vec::new();
        let mut i: usize = 0;
        while i < n
            invariant
                i <= n,
                n == all.len(),
                n == all_keys.len(),
                given.keys == all_keys.map_values(|k: (String, RegionId)| k@),
                given.chunks == all.map_values(|e: BatchEncoder| e@),
                forall|k: int| 0 <= k < n ==> (#[trigger] all[k]).columns_builder.well_formed(),
                forall|k: int, j: int|
                    0 <= k < given.chunks.len() && 0 <= j < given.chunks[k].len() ==> 0 < (
                    #[trigger] given.chunks[k][j]).len() <= u32::MAX,
                keys@.len() == n - i,
                values@.len() == n - i,
                forall|k: int| 0 <= k < keys@.len() ==> #[trigger] keys@[k] == all_keys[n - 1 - k],
                forall|k: int| 0 <= k < values@.len() ==> #[trigger] values@[k] == all[n - 1 - k],
                batches@.len() == i,
                forall|k: int|
                    0 <= k < i ==> given.keys[k] == ((#[trigger] batches@[k]).0@, batches@[k].1)
                        && batches_of(given.chunks[k], batches@[k].2@),
            decreases n - i,
        {
            if let Some((schema, region_id)) = keys.pop() {
                if let Some(encoder) = values.pop() {
                    assert(encoder == all[i as int]);
                    assert(given.chunks[i as int] == encoder@);
                    assert((schema, region_id) == all_keys[i as int]);
                    batches.push((schema, region_id, encoder.finish()));
                }
            }
            i = i + 1;
        }
        batches
    }
}

/// The catalog that rows go to: that of the session, or the default.
pub open spec fn catalog_of(current_catalog: Option<Seq<char>>) -> Seq<char> {
    match current_catalog {
        Some(s) => s,
        None => DEFAULT_CATALOG_NAME@,
    }
}

/// Each batch holds the points of a chunk, sorted by primary key, with the range of their
/// times.
pub open spec fn batches_of(
    chunks: Seq<Seq<PointView>>,
    batches: Seq<(RecordBatch, (i64, i64))>,
) -> bool {
    &&& batches.len() == chunks.len()
    &&& forall|i: int|
        0 <= i < batches.len() ==> batch_builder::is_sorted_batch(
            chunks[i],
            (#[trigger] batches[i]).0@,
        ) && batches[i].0@.valid() && batch_builder::range_of(batch_builder::times_of(chunks[i]))
            == Some(batches[i].1)
}

/// Whether some table of a schema is known.
pub(crate) fn has_schema(known: &LogicalTables, schema: &str) -> (r: bool)
    requires
        known.well_formed(),
    ensures
        r == knows_schema(known.map(), schema@),
{
    let ghost keys = known.spec_keys();
    let mut i: usize = 0;
    while i < known.keys.len()
        invariant
            i <= known.keys@.len(),
            keys == known.spec_keys(),
            forall|k: int| 0 <= k < i ==> (#[trigger] keys[k]).0 != schema@,
        decreases known.keys@.len() - i,
    {
        assert(keys[i as int] == known.keys@[i as int]@);
        if text::text_equal(known.keys[i].0.as_str(), schema) {
            assert(keys.contains(keys[i as int]));
            assert(known.map().contains_key((schema@, keys[i as int].1)));
            return true;
        }
        i = i + 1;
    }
    proof {
        if knows_schema(known.map(), schema@) {
            let table = choose|table: Seq<char>| #[trigger]
                known.map().contains_key((schema@, table));
            assert(keys.contains((schema@, table)));
            let k = choose|k: int| 0 <= k < keys.len() && keys[k] == (schema@, table);
            assert(keys[k].0 == schema@);
        }
    }
    false
}

impl BuildersView {
    /// There are batches for each region, and no region has two encoders.
    pub open spec fn sound(self) -> bool {
        &&& self.keys.len() == self.chunks.len()
        &&& self.keys.no_duplicates()
        &&& forall|k: int| 0 <= k < self.chunks.len() ==> (#[trigger] self.chunks[k]).len() > 0
    }

    /// The number of points of the first `n` regions.
    pub open spec fn points_of_first(self, n: nat) -> nat
        decreases n,
    {
        if n == 0 {
            0
        } else {
            self.points_of_first((n - 1) as nat) + batch_builder::all_points(
                self.chunks[n - 1],
            ).len()
        }
    }

    /// The number of points of all regions.
    pub open spec fn points(self) -> nat {
        self.points_of_first(self.chunks.len())
    }

    /// A region's batches have a point.
    pub open spec fn has(self, key: (Seq<char>, RegionId), point: PointView) -> bool {
        exists|k: int|
            0 <= k < self.keys.len() && #[trigger] self.keys[k] == key
                && batch_builder::all_points(self.chunks[k]).contains(point)
    }
}

/// The number of rows of tables.
pub open spec fn rows_of(tables: Seq<TableDataView>) -> nat
    decreases tables.len(),
{
    if tables.len() == 0 {
        0
    } else {
        rows_of(tables.drop_last()) + tables.last().rows.len()
    }
}

/// The number of rows of a request.
pub open spec fn rows_of_all(data: Seq<SchemaDataView>) -> nat
    decreases data.len(),
{
    if data.len() == 0 {
        0
    } else {
        rows_of_all(data.drop_last()) + rows_of(data.last().tables)
    }
}

proof fn lemma_points_same(a: BuildersView, b: BuildersView, n: nat)
    requires
        forall|k: int| 0 <= k < n ==> #[trigger] a.chunks[k] == b.chunks[k],
    ensures
        a.points_of_first(n) == b.points_of_first(n),
    decreases n,
{
    if n > 0 {
        lemma_points_same(a, b, (n - 1) as nat);
        assert(a.chunks[n - 1] == b.chunks[n - 1]);
    }
}

proof fn lemma_points_update(a: BuildersView, b: BuildersView, at: int, added: nat, n: nat)
    requires
        0 <= at < n <= a.chunks.len(),
        n <= b.chunks.len(),
        forall|k: int| 0 <= k < n && k != at ==> #[trigger] a.chunks[k] == b.chunks[k],
        batch_builder::all_points(b.chunks[at]).len() == batch_builder::all_points(
            a.chunks[at],
        ).len() + added,
    ensures
        b.points_of_first(n) == a.points_of_first(n) + added,
    decreases n,
{
    if at == n - 1 {
        lemma_points_same(a, b, (n - 1) as nat);
    } else {
        lemma_points_update(a, b, at, added, (n - 1) as nat);
        assert(a.chunks[n - 1] == b.chunks[n - 1]);
    }
}

/// What an encoder for a region changes: nothing but that there is one.
proof fn lemma_with(builders: BuildersView, key: (Seq<char>, RegionId))
    requires
        builders.sound(),
    ensures
        builders.with(key).sound(),
        0 <= builders.place(key) < builders.with(key).keys.len(),
        builders.with(key).keys[builders.place(key)] == key,
        builders.with(key).points() == builders.points(),
        builders.keys.len() <= builders.with(key).keys.len(),
        forall|k: int|
            0 <= k < builders.keys.len() ==> builders.with(key).keys[k] == (
            #[trigger] builders.keys[k]) && builders.with(key).chunks[k] == builders.chunks[k],
{
    rows::lemma_last_index(builders.keys, key);
    let more = builders.with(key);
    let n = builders.keys.len();
    if builders.place(key) == n {
        assert forall|i: int, j: int|
            0 <= i < more.keys.len() && 0 <= j < more.keys.len() && i != j implies more.keys[i]
            != more.keys[j] by {
            if i == n {
                assert(builders.keys.contains(builders.keys[j]));
            } else if j == n {
                assert(builders.keys.contains(builders.keys[i]));
            }
        }
        lemma_points_same(builders, more, n);
        let chunk = seq![Seq::<PointView>::empty()];
        assert(more.chunks[n as int] == chunk);
        assert(chunk.drop_last() =~= Seq::<Seq<PointView>>::empty());
        assert(batch_builder::all_points(chunk.drop_last()).len() == 0);
        assert(batch_builder::all_points(chunk).len() == 0);
        assert(more.chunks.len() == n + 1);
    }
}

/// Rows that are added to a region's batches: what was there stays, and each row is there.
proof fn lemma_add_rows(
    builders: BuildersView,
    key: (Seq<char>, RegionId),
    rows: Seq<MetricRowView>,
)
    requires
        builders.sound(),
        builders.add_rows(key, rows).1 is None,
    ensures
        builders.add_rows(key, rows).0.sound(),
        builders.add_rows(key, rows).0.points() == builders.points() + rows.len(),
        forall|k: (Seq<char>, RegionId), p: PointView| #[trigger]
            builders.has(k, p) ==> builders.add_rows(key, rows).0.has(k, p),
        forall|r: int|
            0 <= r < rows.len() ==> batch_builder::point_of(#[trigger] rows[r]) is Ok
                && builders.add_rows(key, rows).0.has(
                key,
                batch_builder::point_of(rows[r])->Ok_0,
            ),
{
    lemma_with(builders, key);
    let more = builders.with(key);
    let at = builders.place(key);
    let next = builders.add_rows(key, rows).0;
    let before = batch_builder::all_points(more.chunks[at]);
    batch_builder::law_append_keeps_points(more.chunks[at], rows);
    let points = rows.map_values(|r: MetricRowView| batch_builder::point_of(r)->Ok_0);
    let after = batch_builder::all_points(next.chunks[at]);
    assert(after == before + points);
    assert forall|k: int| 0 <= k < next.chunks.len() implies (#[trigger] next.chunks[k]).len() > 0 by {
        if k != at {
            assert(more.chunks[k].len() > 0);
        }
    }
    lemma_points_update(more, next, at, rows.len(), more.chunks.len());
    assert forall|k: (Seq<char>, RegionId), p: PointView| #[trigger]
        builders.has(k, p) implies next.has(k, p) by {
        let m = choose|m: int|
            0 <= m < builders.keys.len() && #[trigger] builders.keys[m] == k
                && batch_builder::all_points(builders.chunks[m]).contains(p);
        assert(next.keys[m] == k);
        if m == at {
            let i = choose|i: int| 0 <= i < before.len() && before[i] == p;
            assert(after[i] == p);
        }
    }
    assert forall|r: int| 0 <= r < rows.len() implies batch_builder::point_of(
        #[trigger] rows[r],
    ) is Ok && next.has(key, batch_builder::point_of(rows[r])->Ok_0) by {
        assert(points[r] == batch_builder::point_of(rows[r])->Ok_0);
        assert(after[before.len() + r] == points[r]);
        assert(next.keys[at] == key);
    }
}

proof fn lemma_add_tables(
    builders: BuildersView,
    known: KnownTables,
    catalog: Seq<char>,
    schema: Seq<char>,
    tables: Seq<TableDataView>,
)
    requires
        builders.sound(),
        builders.add_tables(known, catalog, schema, tables).1 is None,
    ensures
        builders.add_tables(known, catalog, schema, tables).0.sound(),
        builders.add_tables(known, catalog, schema, tables).0.points() == builders.points()
            + rows_of(tables),
        forall|k: (Seq<char>, RegionId), p: PointView| #[trigger]
            builders.has(k, p) ==> builders.add_tables(known, catalog, schema, tables).0.has(k, p),
        forall|t: int, r: int|
            0 <= t < tables.len() && 0 <= r < tables[t].rows.len() ==> known.contains_key(
                (schema, tables[t].table_name),
            ) && batch_builder::point_of(#[trigger] tables[t].rows[r]) is Ok && builders.add_tables(
                known,
                catalog,
                schema,
                tables,
            ).0.has(
                (schema, known[(schema, tables[t].table_name)].region_id),
                batch_builder::point_of(tables[t].rows[r])->Ok_0,
            ),
    decreases tables.len(),
{
    if tables.len() > 0 {
        let rest = tables.drop_last();
        lemma_add_tables(builders, known, catalog, schema, rest);
        let before = builders.add_tables(known, catalog, schema, rest).0;
        let last = tables.last();
        let key = (schema, known[(schema, last.table_name)].region_id);
        lemma_add_rows(before, key, last.rows);
        let after = before.add_rows(key, last.rows).0;
        assert(builders.add_tables(known, catalog, schema, tables).0 == after);
        assert forall|k: (Seq<char>, RegionId), p: PointView| #[trigger]
            builders.has(k, p) implies after.has(k, p) by {
            assert(before.has(k, p));
        }
        assert forall|t: int, r: int|
            0 <= t < tables.len() && 0 <= r < tables[t].rows.len() implies known.contains_key(
            (schema, tables[t].table_name),
        ) && batch_builder::point_of(#[trigger] tables[t].rows[r]) is Ok && after.has(
            (schema, known[(schema, tables[t].table_name)].region_id),
            batch_builder::point_of(tables[t].rows[r])->Ok_0,
        ) by {
            if t < rest.len() {
                assert(rest[t] == tables[t]);
                assert(batch_builder::point_of(rest[t].rows[r]) is Ok);
                assert(before.has(
                    (schema, known[(schema, tables[t].table_name)].region_id),
                    batch_builder::point_of(tables[t].rows[r])->Ok_0,
                ));
            } else {
                assert(last.rows[r] == tables[t].rows[r]);
            }
        }
    }
}

proof fn lemma_add_all(
    builders: BuildersView,
    known: KnownTables,
    catalog: Seq<char>,
    current_schema: Option<Seq<char>>,
    data: Seq<SchemaDataView>,
)
    requires
        builders.sound(),
        builders.add_all(known, catalog, current_schema, data).1 is None,
    ensures
        builders.add_all(known, catalog, current_schema, data).0.sound(),
        builders.add_all(known, catalog, current_schema, data).0.points() == builders.points()
            + rows_of_all(data),
        forall|k: (Seq<char>, RegionId), p: PointView| #[trigger]
            builders.has(k, p) ==> builders.add_all(known, catalog, current_schema, data).0.has(
                k,
                p,
            ),
        forall|d: int, t: int, r: int|
            0 <= d < data.len() && 0 <= t < data[d].tables.len() && 0 <= r
                < data[d].tables[t].rows.len() ==> {
                let schema = schema_of(data[d].schema, current_schema);
                let key = (schema, data[d].tables[t].table_name);
                &&& known.contains_key(key)
                &&& batch_builder::point_of(#[trigger] data[d].tables[t].rows[r]) is Ok
                &&& builders.add_all(known, catalog, current_schema, data).0.has(
                    (schema, known[key].region_id),
                    batch_builder::point_of(data[d].tables[t].rows[r])->Ok_0,
                )
            },
    decreases data.len(),
{
    if data.len() > 0 {
        let rest = data.drop_last();
        lemma_add_all(builders, known, catalog, current_schema, rest);
        let before = builders.add_all(known, catalog, current_schema, rest).0;
        let last = data.last();
        let schema = schema_of(last.schema, current_schema);
        lemma_add_tables(before, known, catalog, schema, last.tables);
        let after = before.add_tables(known, catalog, schema, last.tables).0;
        assert(builders.add_all(known, catalog, current_schema, data).0 == after);
        assert forall|k: (Seq<char>, RegionId), p: PointView| #[trigger]
            builders.has(k, p) implies after.has(k, p) by {
            assert(before.has(k, p));
        }
        assert forall|d: int, t: int, r: int|
            0 <= d < data.len() && 0 <= t < data[d].tables.len() && 0 <= r
                < data[d].tables[t].rows.len() implies ({
            let schema = schema_of(data[d].schema, current_schema);
            let key = (schema, data[d].tables[t].table_name);
            &&& known.contains_key(key)
            &&& batch_builder::point_of(#[trigger] data[d].tables[t].rows[r]) is Ok
            &&& after.has(
                (schema, known[key].region_id),
                batch_builder::point_of(data[d].tables[t].rows[r])->Ok_0,
            )
        }) by {
            if d < rest.len() {
                assert(rest[d] == data[d]);
                assert(batch_builder::point_of(rest[d].tables[t].rows[r]) is Ok);
                let s = schema_of(data[d].schema, current_schema);
                assert(before.has(
                    (s, known[(s, data[d].tables[t].table_name)].region_id),
                    batch_builder::point_of(data[d].tables[t].rows[r])->Ok_0,
                ));
            } else {
                assert(last.tables[t].rows[r] == data[d].tables[t].rows[r]);
            }
        }
    }
}

/// No row is lost, and none goes elsewhere. Where the rows of a request were added, the row at
/// `r` of the table at `t` of the schema at `d` is among the points of the region that is known
/// of that table, with its key, its number, bit by bit, and its time. Its schema is the one that
/// the request names, else that of the session, else `public`. Gives the region's place and the
/// place of the point among the region's points.
pub proof fn law_row_reaches_its_region(
    builders: BuildersView,
    known: KnownTables,
    catalog: Seq<char>,
    current_schema: Option<Seq<char>>,
    data: Seq<SchemaData>,
    d: int,
    t: int,
    r: int,
) -> (place: (int, int))
    requires
        builders.sound(),
        builders.add_all(known, catalog, current_schema, data.map_values(|s: SchemaData| s@)).1 is None,
        0 <= d < data.len(),
        0 <= t < data[d].tables@.len(),
        0 <= r < data[d].tables@[t].rows@.len(),
    ensures
        ({
            let after = builders.add_all(
                known,
                catalog,
                current_schema,
                data.map_values(|s: SchemaData| s@),
            ).0;
            let schema = match (data[d].schema, current_schema) {
                (Some(s), _) => s@,
                (None, Some(s)) => s,
                (None, None) => "public"@,
            };
            let table = data[d].tables@[t];
            let row = table.rows@[r];
            &&& known.contains_key((schema, table.table_name@))
            &&& 0 <= place.0 < after.keys.len()
            &&& after.keys[place.0] == (schema, known[(schema, table.table_name@)].region_id)
            &&& 0 <= place.1 < batch_builder::all_points(after.chunks[place.0]).len()
            &&& row.primary_key matches Ok(key) && key@ == batch_builder::all_points(
                after.chunks[place.0],
            )[place.1].primary_key
            &&& row.value.value_data == Some(
                rows::ValueData::F64Value(
                    batch_builder::all_points(after.chunks[place.0])[place.1].value,
                ),
            )
            &&& row.timestamp.value_data == Some(
                rows::ValueData::TimestampMillisecondValue(
                    batch_builder::all_points(after.chunks[place.0])[place.1].timestamp,
                ),
            )
        }),
{
    let views = data.map_values(|s: SchemaData| s@);
    lemma_add_all(builders, known, catalog, current_schema, views);
    let after = builders.add_all(known, catalog, current_schema, views).0;
    let table = data[d].tables@[t];
    let row = table.rows@[r];
    assert(views[d] == data[d]@);
    assert(views[d].tables[t] == table@);
    assert(views[d].tables[t].rows[r] == row@);
    let schema = schema_of(views[d].schema, current_schema);
    let key = (schema, known[(schema, table.table_name@)].region_id);
    let point = batch_builder::point_of(row@)->Ok_0;
    assert(batch_builder::point_of(views[d].tables[t].rows[r]) is Ok);
    assert(after.has(key, point));
    batch_builder::law_row_becomes_point(row);
    let k = choose|k: int|
        0 <= k < after.keys.len() && #[trigger] after.keys[k] == key && batch_builder::all_points(
            after.chunks[k],
        ).contains(point);
    let all = batch_builder::all_points(after.chunks[k]);
    let p = choose|p: int| 0 <= p < all.len() && all[p] == point;
    (k, p)
}

/// Where the rows of a request were added, there are as many points more as the request has
/// rows.
pub proof fn law_rows_added_are_counted(
    builders: BuildersView,
    known: KnownTables,
    catalog: Seq<char>,
    current_schema: Option<Seq<char>>,
    data: Seq<SchemaDataView>,
)
    requires
        builders.sound(),
        builders.add_all(known, catalog, current_schema, data).1 is None,
    ensures
        builders.add_all(known, catalog, current_schema, data).0.points() == builders.points()
            + rows_of_all(data),
        builders.add_all(known, catalog, current_schema, data).0.sound(),
{
    lemma_add_all(builders, known, catalog, current_schema, data);
}

/// Of the columns of one name the last gives the identifier, and a name that no column has gets
/// none.
proof fn lemma_ids_by_name(columns: Seq<(String, u32)>)
    ensures
        forall|name: Seq<char>| #[trigger]
            ids_by_name(columns).contains_key(name) <==> exists|i: int|
                0 <= i < columns.len() && (#[trigger] columns[i]).0@ == name,
        forall|i: int|
            0 <= i < columns.len() && (forall|j: int|
                i < j < columns.len() ==> (#[trigger] columns[j]).0@ != columns[i].0@)
                ==> ids_by_name(columns)[(#[trigger] columns[i]).0@] == columns[i].1,
    decreases columns.len(),
{
    if columns.len() > 0 {
        let rest = columns.drop_last();
        let last = columns.last();
        lemma_ids_by_name(rest);
        assert forall|name: Seq<char>| #[trigger]
            ids_by_name(columns).contains_key(name) <==> exists|i: int|
                0 <= i < columns.len() && (#[trigger] columns[i]).0@ == name by {
            if ids_by_name(rest).contains_key(name) {
                let i = choose|i: int| 0 <= i < rest.len() && (#[trigger] rest[i]).0@ == name;
                assert(columns[i].0@ == name);
            }
            if name == last.0@ {
                assert(columns[columns.len() - 1].0@ == name);
            }
            if exists|i: int| 0 <= i < columns.len() && (#[trigger] columns[i]).0@ == name {
                let i = choose|i: int|
                    0 <= i < columns.len() && (#[trigger] columns[i]).0@ == name;
                if i < rest.len() {
                    assert(rest[i].0@ == name);
                }
            }
        }
        assert forall|i: int|
            0 <= i < columns.len() && (forall|j: int|
                i < j < columns.len() ==> (#[trigger] columns[j]).0@ != columns[i].0@) implies ids_by_name(
            columns,
        )[(#[trigger] columns[i]).0@] == columns[i].1 by {
            if i < rest.len() {
                assert(columns[columns.len() - 1].0@ != columns[i].0@);
                assert(rest[i] == columns[i]);
                assert forall|j: int| i < j < rest.len() implies (#[trigger] rest[j]).0@
                    != rest[i].0@ by {
                    assert(columns[j] == rest[j]);
                }
                assert(ids_by_name(rest)[rest[i].0@] == rest[i].1);
            }
        }
    }
}

proof fn lemma_metadata_of(metadatas: Seq<Option<PhysicalRegion>>, region_id: RegionId)
    ensures
        metadata_of(metadatas, region_id) matches Some(m) ==> m.region_id == region_id && exists|
            i: int,
        |
            0 <= i < metadatas.len() && #[trigger] metadatas[i] == Some(m) && forall|j: int|
                i < j < metadatas.len() ==> !(#[trigger] metadatas[j] matches Some(l) && l.region_id
                    == region_id),
        metadata_of(metadatas, region_id) is None ==> forall|i: int|
            0 <= i < metadatas.len() ==> !(#[trigger] metadatas[i] matches Some(m) && m.region_id
                == region_id),
    decreases metadatas.len(),
{
    if metadatas.len() > 0 {
        let rest = metadatas.drop_last();
        let n = metadatas.len() - 1;
        lemma_metadata_of(rest, region_id);
        let last_matches = metadatas[n] matches Some(m) && m.region_id == region_id;
        if last_matches {
            assert(metadata_of(metadatas, region_id) == metadatas[n]);
        } else {
            assert(metadata_of(metadatas, region_id) == metadata_of(rest, region_id));
            if let Some(m) = metadata_of(rest, region_id) {
                let i = choose|i: int|
                    0 <= i < rest.len() && #[trigger] rest[i] == Some(m) && forall|j: int|
                        i < j < rest.len() ==> !(#[trigger] rest[j] matches Some(l) && l.region_id
                            == region_id);
                assert(metadatas[i] == Some(m));
                assert forall|j: int| i < j < metadatas.len() implies !(
                #[trigger] metadatas[j] matches Some(l) && l.region_id == region_id) by {
                    if j < n {
                        assert(rest[j] == metadatas[j]);
                    }
                }
            } else {
                assert forall|i: int| 0 <= i < metadatas.len() implies !(
                #[trigger] metadatas[i] matches Some(m) && m.region_id == region_id) by {
                    if i < n {
                        assert(rest[i] == metadatas[i]);
                    }
                }
            }
        }
    }
}

/// What is known of a table is its own: the identifier that was found of it, region zero of the
/// physical table that was found of it, and of that region's columns each name with its
/// identifier, of columns of one name that of the last. A table counts where no later one has
/// its schema and name. Gives the place of the region's metadata.
pub proof fn law_known_table_is_as_found(
    known: LogicalTables,
    tables: Seq<(String, String)>,
    ids: Seq<(u32, u32)>,
    metadatas: Seq<Option<PhysicalRegion>>,
    i: int,
) -> (at: int)
    requires
        describes_all(known, table_keys(tables), ids, metadatas),
        ids.len() == tables.len(),
        0 <= i < tables.len(),
        forall|j: int|
            i < j < tables.len() ==> (#[trigger] tables[j]).0@ != tables[i].0@ || tables[j].1@
                != tables[i].1@,
    ensures
        known.map().contains_key((tables[i].0@, tables[i].1@)),
        ({
            let table = known.map()[(tables[i].0@, tables[i].1@)];
            &&& table.table_id == ids[i].0
            &&& table.region_id.table_id == ids[i].1
            &&& table.region_id.region_number == 0
            &&& 0 <= at < metadatas.len()
            &&& metadatas[at] matches Some(m) && m.region_id == table.region_id && (forall|
                c: int,
            |
                0 <= c < m.columns@.len() && (forall|later: int|
                    c < later < m.columns@.len() ==> (#[trigger] m.columns@[later]).0@
                        != m.columns@[c].0@) ==> table.name_to_id.map().contains_key(
                    (#[trigger] m.columns@[c]).0@,
                ) && table.name_to_id.map()[m.columns@[c].0@] == m.columns@[c].1) && (forall|
                name: Seq<char>,
            |
                #[trigger] table.name_to_id.map().contains_key(name) ==> exists|c: int|
                    0 <= c < m.columns@.len() && (#[trigger] m.columns@[c]).0@ == name)
        }),
{
    let keys = table_keys(tables);
    let key = (tables[i].0@, tables[i].1@);
    rows::lemma_last_index(keys, key);
    assert(keys[i] == key);
    assert(keys.contains(key));
    let found = rows::last_index(keys, key)->0;
    assert(keys[found] == (tables[found].0@, tables[found].1@));
    assert(found == i);
    assert(known.map().contains_key(key));
    let region_id = region_of(ids[i]);
    lemma_metadata_of(metadatas, region_id);
    let m = metadata_of(metadatas, region_id)->0;
    lemma_ids_by_name(m.columns@);
    let at = choose|at: int|
        0 <= at < metadatas.len() && #[trigger] metadatas[at] == Some(m) && forall|j: int|
            at < j < metadatas.len() ==> !(#[trigger] metadatas[j] matches Some(l) && l.region_id
                == region_id);
    assert(describes(known.map()[key], ids[i], metadatas));
    at
}

/// Of the tables that were not found the first is told of, by its own names; and why a lookup
/// failed is told in the lookup's own words.
pub proof fn law_unfound_table_is_told(
    catalog: Seq<char>,
    table: (Seq<char>, Seq<char>),
    lookups: Seq<TableIdLookup>,
    k: int,
    i: int,
)
    ensures
        ids_end_at(lookups, k) ==> {
            &&& 0 <= k < lookups.len()
            &&& 0 <= i < k ==> lookups[i] is Found
            &&& match lookups[k] {
                TableIdLookup::Found { logical_table_id, physical_table_id } => false,
                TableIdLookup::NotFound => ids_error(catalog, table, lookups[k])
                    == (CollectErrorView::TableNotFound {
                    catalog,
                    schema: table.0,
                    table: table.1,
                }),
                TableIdLookup::TableFailed(reason) => ids_error(catalog, table, lookups[k])
                    == CollectErrorView::Operator(reason@),
                TableIdLookup::RouteFailed(reason) => ids_error(catalog, table, lookups[k])
                    == CollectErrorView::CommonMeta(reason@),
            }
        },
        0 <= i < lookups.len() && !(lookups[i] is Found) ==> exists|j: int| #[trigger]
            ids_end_at(lookups, j) && j <= i,
    decreases i,
{
    if 0 <= i < lookups.len() && !(lookups[i] is Found) {
        if exists|j: int| 0 <= j < i && !(#[trigger] lookups[j] is Found) {
            let j = choose|j: int| 0 <= j < i && !(#[trigger] lookups[j] is Found);
            law_unfound_table_is_told(catalog, table, lookups, k, j);
        } else {
            assert(ids_end_at(lookups, i));
        }
    }
}

/// A table of whose physical region nothing was found is told of, the first of them; and there is
/// one to tell of exactly where nothing was found of some table's region.
pub proof fn law_missing_metadata_is_told(
    ids: Seq<(u32, u32)>,
    metadatas: Seq<Option<PhysicalRegion>>,
    k: int,
    i: int,
)
    ensures
        metadata_missing_at(ids, metadatas, k) ==> {
            &&& 0 <= k < ids.len()
            &&& forall|m: int|
                0 <= m < metadatas.len() ==> !(#[trigger] metadatas[m] matches Some(found)
                    && found.region_id.table_id == ids[k].1 && found.region_id.region_number == 0)
            &&& 0 <= i < k ==> exists|m: int|
                0 <= m < metadatas.len() && (#[trigger] metadatas[m] matches Some(found)
                    && found.region_id.table_id == ids[i].1 && found.region_id.region_number == 0)
        },
        0 <= i < ids.len() && (forall|m: int|
            0 <= m < metadatas.len() ==> !(#[trigger] metadatas[m] matches Some(found)
                && found.region_id.table_id == ids[i].1 && found.region_id.region_number == 0))
            ==> exists|j: int| #[trigger] metadata_missing_at(ids, metadatas, j) && j <= i,
    decreases i,
{
    if metadata_missing_at(ids, metadatas, k) {
        lemma_metadata_of(metadatas, region_of(ids[k]));
        if 0 <= i < k {
            lemma_metadata_of(metadatas, region_of(ids[i]));
        }
    }
    if 0 <= i < ids.len() {
        lemma_metadata_of(metadatas, region_of(ids[i]));
        if metadata_of(metadatas, region_of(ids[i])) is None {
            if exists|j: int|
                0 <= j < i && metadata_of(metadatas, region_of(#[trigger] ids[j])) is None {
                let j = choose|j: int|
                    0 <= j < i && metadata_of(metadatas, region_of(#[trigger] ids[j])) is None;
                lemma_metadata_of(metadatas, region_of(ids[j]));
                law_missing_metadata_is_told(ids, metadatas, k, j);
            } else {
                assert(metadata_missing_at(ids, metadatas, i));
            }
        }
    }
}

/// What is said of the rows of logical tables is what they are: the schema that is named, each
/// table by its name, and of each row its key, its time and its value.
pub proof fn law_data_as_it_is(data: SchemaData, t: int, r: int)
    requires
        0 <= t < data.tables@.len(),
        0 <= r < data.tables@[t].rows@.len(),
    ensures
        match data.schema {
            Some(s) => data@.schema == Some(s@),
            None => data@.schema is None,
        },
        data@.tables.len() == data.tables@.len(),
        data@.tables[t].table_name == data.tables@[t].table_name@,
        data@.tables[t].rows.len() == data.tables@[t].rows@.len(),
        match data.tables@[t].rows@[r].primary_key {
            Ok(key) => data@.tables[t].rows[r].primary_key == Ok::<Seq<u8>, Seq<char>>(key@),
            Err(reason) => data@.tables[t].rows[r].primary_key == Err::<Seq<u8>, Seq<char>>(
                reason@,
            ),
        },
        data@.tables[t].rows[r].timestamp == data.tables@[t].rows@[r].timestamp@,
        data@.tables[t].rows[r].value == data.tables@[t].rows@[r].value@,
{
    assert(data@.tables[t] == data.tables@[t]@);
    assert(data@.tables[t].rows[r] == data.tables@[t].rows@[r]@);
}

/// What is said of the rows that were added is what the columns hold: the region's schema and
/// identifier, and of each point its key, its time, and its number bit by bit.
pub proof fn law_builder_as_it_is(builder: MetricsBatchBuilder, i: int, c: int, p: int)
    requires
        0 <= i < builder.builders.keys@.len(),
        i < builder.builders.values@.len(),
        0 <= c < builder.builders.values@[i].columns_builder.columns@.len(),
        0 <= p
            < builder.builders.values@[i].columns_builder.columns@[c].timestamps@.len(),
    ensures
        builder@.keys.len() == builder.builders.keys@.len(),
        builder@.keys[i].0 == builder.builders.keys@[i].0@,
        builder@.keys[i].1 == builder.builders.keys@[i].1,
        builder@.chunks.len() == builder.builders.values@.len(),
        builder@.chunks[i].len() == builder.builders.values@[i].columns_builder.columns@.len(),
        ({
            let columns = builder.builders.values@[i].columns_builder.columns@[c];
            &&& builder@.chunks[i][c].len() == columns.timestamps@.len()
            &&& builder@.chunks[i][c][p].timestamp == columns.timestamps@[p]
            &&& builder@.chunks[i][c][p].value == columns.value@[p]
            &&& builder@.chunks[i][c][p].primary_key
                == columns.encoded_primary_key_array_builder@[p]
        }),
{
    assert(builder@.chunks[i] == builder.builders.values@[i]@);
    assert(builder@.chunks[i][c] == builder.builders.values@[i].columns_builder.columns@[c]@);
}

/// What is said of a failure is what it is.
pub proof fn law_failure_as_it_is(collect: CollectError, append: AppendFailure)
    ensures
        match collect {
            CollectError::Operator(reason) => collect@ == CollectErrorView::Operator(reason@),
            CollectError::CommonMeta(reason) => collect@ == CollectErrorView::CommonMeta(reason@),
            CollectError::TableNotFound { catalog, schema, table } => collect@
                == (CollectErrorView::TableNotFound {
                catalog: catalog@,
                schema: schema@,
                table: table@,
            }),
            CollectError::RegionMetadataNotFound { region_id, table } => collect@
                == (CollectErrorView::RegionMetadataNotFound { region_id, table: table@ }),
        },
        match append {
            AppendFailure::TableNotFound { catalog, schema, table } => append@
                == (AppendFailureView::TableNotFound {
                catalog: catalog@,
                schema: schema@,
                table: table@,
            }),
            AppendFailure::Rows(AppendError::EncodePrimaryKey(reason)) => append@
                == AppendFailureView::Rows(AppendErrorView::EncodePrimaryKey(reason@)),
            AppendFailure::Rows(AppendError::InvalidFieldValueType) => append@
                == AppendFailureView::Rows(AppendErrorView::InvalidFieldValueType),
            AppendFailure::Rows(AppendError::InvalidTimestampValueType) => append@
                == AppendFailureView::Rows(AppendErrorView::InvalidTimestampValueType),
        },
{
}

/// Where an encoder is well formed, no region has two of them, and each has a batch.
pub proof fn law_well_formed_is_sound(builder: MetricsBatchBuilder)
    requires
        builder.well_formed(),
    ensures
        builder@.sound(),
        builder@.keys.len() == builder.builders.keys@.len(),
{
    assert forall|k: int| 0 <= k < builder@.chunks.len() implies (
    #[trigger] builder@.chunks[k]).len() > 0 by {
        assert(builder.builders.values@[k].columns_builder.well_formed());
    }
}

/// Where rows were added, each is with the region of its table: under the schema that the request
/// names for it, or else that of the session, or else the default, its key, its time, and its
/// number bit by bit. Gives the region and the point.
pub proof fn law_appended_row_is_in_its_region(
    builder: &mut MetricsBatchBuilder,
    after: MetricsBatchBuilder,
    catalog: Option<&str>,
    current_schema: Option<&str>,
    data: Vec<SchemaData>,
    known: LogicalTables,
    d: int,
    t: int,
    r: int,
) -> (place: (int, int))
    requires
        old(builder).well_formed(),
        call_ensures(
            MetricsBatchBuilder::append_rows_to_batch,
            (builder, catalog, current_schema, &data, &known),
            Ok(()),
        ),
        *final(builder) == after,
        0 <= d < data@.len(),
        0 <= t < data@[d].tables@.len(),
        0 <= r < data@[d].tables@[t].rows@.len(),
    ensures
        ({
            let schema = match (data@[d].schema, current_schema) {
                (Some(s), _) => s@,
                (None, Some(s)) => s@,
                (None, None) => "public"@,
            };
            let table = data@[d].tables@[t];
            let row = table.rows@[r];
            let point = batch_builder::all_points(after@.chunks[place.0])[place.1];
            &&& 0 <= place.0 < after@.keys.len()
            &&& known.map().contains_key((schema, table.table_name@))
            &&& after@.keys[place.0] == (
                schema,
                known.map()[(schema, table.table_name@)].region_id,
            )
            &&& 0 <= place.1 < batch_builder::all_points(after@.chunks[place.0]).len()
            &&& row.primary_key matches Ok(key) && key@ == point.primary_key
            &&& row.value.value_data == Some(rows::ValueData::F64Value(point.value))
            &&& row.timestamp.value_data == Some(
                rows::ValueData::TimestampMillisecondValue(point.timestamp),
            )
        }),
{
    law_well_formed_is_sound(*old(builder));
    law_row_reaches_its_region(
        old(builder)@,
        known.map(),
        catalog_of(text_view(catalog)),
        text_view(current_schema),
        data@,
        d,
        t,
        r,
    )
}

/// The batches of all regions hold the points that were added for them: each region has its
/// batches, and a point of a region is a row of one of them. Gives the batch and the row.
pub proof fn law_finished_batches_hold_points(
    builder: MetricsBatchBuilder,
    r: Vec<(String, RegionId, Vec<(RecordBatch, (i64, i64))>)>,
    k: int,
    p: int,
) -> (place: (int, int))
    requires
        call_ensures(MetricsBatchBuilder::finish, (builder,), r),
        0 <= k < builder@.keys.len(),
        0 <= p < batch_builder::all_points(builder@.chunks[k]).len(),
    ensures
        r@.len() == builder@.keys.len(),
        r@[k].0@ == builder@.keys[k].0,
        r@[k].1 == builder@.keys[k].1,
        0 <= place.0 < r@[k].2@.len(),
        ({
            let (batch, range) = r@[k].2@[place.0];
            let point = batch_builder::all_points(builder@.chunks[k])[p];
            &&& 0 <= place.1 < batch@.num_rows
            &&& batch@.columns[0].cells[place.1] == CellView::Float64(point.value)
            &&& batch@.columns[1].cells[place.1] == CellView::Int64(point.timestamp)
            &&& batch@.columns[2].cells[place.1] == CellView::Binary(point.primary_key)
            &&& range.0 <= point.timestamp <= range.1
        }),
{
    let chunks = builder@.chunks[k];
    let held = batch_builder::law_all_points_are_held(chunks, p);
    let points = chunks[held.0];
    assert(builder@.keys[k] == (r@[k].0@, r@[k].1) && batches_of(chunks, r@[k].2@));
    let batch = r@[k].2@[held.0];
    assert(batch_builder::is_sorted_batch(points, batch.0@));
    let order = batch_builder::law_sorted_batch_has_points(points, batch.0@);
    assert(order.contains(held.1));
    let row = choose|row: int| 0 <= row < order.len() && order[row] == held.1;
    assert(0 <= order[row] < points.len());
    let bounds = batch_builder::law_range_bounds_points(points);
    assert(points[held.1].timestamp == points[held.1].timestamp);
    (held.0, row)
}

/// The identifiers of tables are those that were found, in order, where all were found.
pub proof fn law_found_ids(
    catalog: &str,
    tables: Vec<(String, String)>,
    lookups: Vec<TableIdLookup>,
    r: Result<Vec<(u32, u32)>, CollectError>,
    i: int,
)
    requires
        call_ensures(table_ids, (catalog, &tables, &lookups), r),
    ensures
        r matches Ok(ids) ==> ids@.len() == tables@.len() && lookups@.len() == tables@.len() && (
        0 <= i < tables@.len() ==> (lookups@[i] matches TableIdLookup::Found {
            logical_table_id,
            physical_table_id,
        } && ids@[i].0 == logical_table_id && ids@[i].1 == physical_table_id)),
        r is Ok <== lookups@.len() == tables@.len() && forall|k: int|
            0 <= k < lookups@.len() ==> #[trigger] lookups@[k] is Found,
        r matches Err(CollectError::TableNotFound { catalog: c, schema, table }) ==> c@ == catalog@
            && exists|k: int|
            0 <= k < lookups@.len() && (#[trigger] lookups@[k]) is NotFound && schema@
                == table_keys(tables@)[k].0 && table@ == table_keys(tables@)[k].1,
{
    if let Ok(ids) = r {
        if 0 <= i < tables@.len() {
            assert(ids@[i] == ids@[i]);
        }
    } else {
        let e = r->Err_0;
        let k = choose|k: int| #[trigger]
            ids_end_at(lookups@, k) && e@ == ids_error(
                catalog@,
                table_keys(tables@)[k],
                lookups@[k],
            );
        assert(!(lookups@[k] is Found));
    }
}

} // verus!
