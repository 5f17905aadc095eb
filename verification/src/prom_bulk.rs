//! Batches the rows of remote-write requests in bulk: rows of several requests go into the
//! batches of one round, and the batches of a round are written as files.

use vstd::prelude::*;

use crate::keyed_map::KeyedMap;
use crate::metrics_batch_builder;
use crate::metrics_batch_builder::{
    AppendFailure, AppendFailureView, BuildersView, KnownTables, LogicalTables,
    MetricsBatchBuilder, SchemaData, SchemaDataView, DEFAULT_CATALOG_NAME,
};
use crate::record_batch::{BatchView, CellView, RecordBatch};
use crate::region::RegionId;
use crate::text;

verus! {

/// The requests that a round takes, where nothing else is set.
pub const DEFAULT_MAX_BATCH_NUM: usize = 10;

/// The seconds after which a round ends, where nothing else is set.
pub const DEFAULT_MAX_BATCH_INTERVAL_SECS: u64 = 5;

/// What a setting says: a number up to `max`, or the default.
pub open spec fn setting(value: Option<&str>, max: nat, default: nat) -> nat {
    match value {
        Some(s) => match text::unsigned_value(vstd::utf8::encode_utf8(s@)) {
            Some(n) if n <= max => n,
            _ => default,
        },
        None => default,
    }
}

/// What the setting of the number of requests says.
pub fn max_batch_num(value: Option<&str>) -> (r: usize)
    ensures
        r == setting(value, usize::MAX as nat, DEFAULT_MAX_BATCH_NUM as nat),
{
    match value {
        Some(s) => match text::parse_u64(s.as_bytes()) {
            Some(n) => if n <= usize::MAX as u64 {
                n as usize
            } else {
                DEFAULT_MAX_BATCH_NUM
            },
            None => DEFAULT_MAX_BATCH_NUM,
        },
        None => DEFAULT_MAX_BATCH_NUM,
    }
}

/// What the setting of the interval says.
pub fn max_batch_interval_secs(value: Option<&str>) -> (r: u64)
    ensures
        r == setting(value, u64::MAX as nat, DEFAULT_MAX_BATCH_INTERVAL_SECS as nat),
{
    match value {
        Some(s) => match text::parse_u64(s.as_bytes()) {
            Some(n) => n,
            None => DEFAULT_MAX_BATCH_INTERVAL_SECS,
        },
        None => DEFAULT_MAX_BATCH_INTERVAL_SECS,
    }
}

/// The schema and the name of each table of one schema's data.
pub open spec fn names_of(data: SchemaDataView, current_schema: Seq<char>) -> Seq<
    (Seq<char>, Seq<char>),
> {
    let schema = match data.schema {
        Some(s) => s,
        None => current_schema,
    };
    Seq::new(data.tables.len(), |i: int| (schema, data.tables[i].table_name))
}

/// The schema and the name of each table of a request, where the session's schema stands for
/// one that is not named.
pub open spec fn names_of_all(data: Seq<SchemaDataView>, current_schema: Seq<char>) -> Seq<
    (Seq<char>, Seq<char>),
>
    decreases data.len(),
{
    if data.len() == 0 {
        Seq::empty()
    } else {
        names_of_all(data.drop_last(), current_schema) + names_of(data.last(), current_schema)
    }
}

/// What a request holds.
pub open spec fn data_views(data: Seq<SchemaData>) -> Seq<SchemaDataView> {
    data.map_values(|d: SchemaData| d@)
}

/// The tables of a request, whose metadata is to be looked up.
pub fn logical_tables(tables: &Vec<SchemaData>, current_schema: &str) -> (r: Vec<(String, String)>)
    ensures
        metrics_batch_builder::table_keys(r@) == names_of_all(
            data_views(tables@),
            current_schema@,
        ),
{
    let ghost all = data_views(tables@);
    let mut names: Vec<(String, String)> = Vec::new();
    let mut i: usize = 0;
    assert(all.take(0) =~= Seq::<SchemaDataView>::empty());
    assert(metrics_batch_builder::table_keys(names@) =~= Seq::<(Seq<char>, Seq<char>)>::empty());
    while i < tables.len()
        invariant
            i <= tables@.len(),
            all == data_views(tables@),
            metrics_batch_builder::table_keys(names@) == names_of_all(
                all.take(i as int),
                current_schema@,
            ),
        decreases tables@.len() - i,
    {
        let data: &SchemaData = &tables[i];
        let schema: &str = match &data.schema {
            Some(schema) => schema.as_str(),
            None => current_schema,
        };
        let ghost before = metrics_batch_builder::table_keys(names@);
        let ghost these = names_of(data@, current_schema@);
        let mut j: usize = 0;
        assert(before + these.take(0) =~= before);
        while j < data.tables.len()
            invariant
                j <= data.tables@.len(),
                these == names_of(data@, current_schema@),
                schema@ == (match data@.schema {
                    Some(s) => s,
                    None => current_schema@,
                }),
                metrics_batch_builder::table_keys(names@) == before + these.take(j as int),
            decreases data.tables@.len() - j,
        {
            let name: (String, String) = (
                schema.to_string(),
                data.tables[j].table_name.clone(),
            );
            assert((name.0@, name.1@) == these[j as int]);
            let ghost old_names = names@;
            names.push(name);
            assert(metrics_batch_builder::table_keys(names@)
                =~= metrics_batch_builder::table_keys(old_names).push(these[j as int]));
            j = j + 1;
            assert(before + these.take(j as int) =~= (before + these.take(j - 1)).push(
                these[j - 1],
            ));
        }
        assert(these.take(j as int) =~= these);
        assert(all.take(i + 1).drop_last() =~= all.take(i as int));
        assert(all.take(i + 1).last() == data@);
        i = i + 1;
    }
    assert(all.take(i as int) =~= all);
    names
}

/// The batches of a round, and what is known of the tables that their rows belong to.
pub struct Round {
    pub batch_builder: MetricsBatchBuilder,
    pub physical_region_metadata: LogicalTables,
}

/// Collects requests into rounds.
pub struct PromBulkState {
    pub round: Round,
    pub num_batches: usize,
    pub max_batch_num: usize,
    pub max_batch_interval_secs: u64,
}

/// The tables that are known after those of a request were looked up: of a schema that any of
/// them is of, they alone.
pub open spec fn known_with(known: LogicalTables, found: LogicalTables) -> KnownTables {
    kept_entries(known, found.map(), known.keys@.len() as int).union_prefer_right(found.map())
}

/// Of the first `n` tables that are known, those whose schema no found table is of.
pub open spec fn kept_entries(known: LogicalTables, found: KnownTables, n: int) -> KnownTables {
    Map::new(
        |key: (Seq<char>, Seq<char>)|
            known.spec_keys().take(n).contains(key) && !metrics_batch_builder::knows_schema(
                found,
                key.0,
            ),
        |key: (Seq<char>, Seq<char>)|
            known.values@[crate::rows::last_index(known.spec_keys(), key)->0],
    )
}

/// The tables that are known after those of a request were looked up.
fn with_found(known: LogicalTables, found: LogicalTables) -> (r: LogicalTables)
    requires
        known.well_formed(),
        found.well_formed(),
    ensures
        r.well_formed(),
        r.map() == known_with(known, found),
{
    let ghost all = known.spec_keys();
    let ghost new = found.map();
    let KeyedMap { mut keys, mut values } = known;
    let ghost given = keys@;
    let ghost given_values = values@;
    let n: usize = keys.len();
    crate::lists::reverse(&mut keys);
    crate::lists::reverse(&mut values);
    let mut kept: LogicalTables = KeyedMap::new();
    let mut i: usize = 0;
    proof {
        crate::keyed_map::lemma_places_differ(all);
        assert(kept.map() =~= kept_entries(known, new, 0));
    }
    while i < n
        invariant
            i <= n,
            n == given.len(),
            n == given_values.len(),
            given == known.keys@,
            given_values == known.values@,
            all == known.spec_keys(),
            all == given.map_values(|k: (String, String)| k@),
            keys@.len() == n - i,
            values@.len() == n - i,
            forall|k: int| 0 <= k < keys@.len() ==> #[trigger] keys@[k] == given[n - 1 - k],
            forall|k: int|
                0 <= k < values@.len() ==> #[trigger] values@[k] == given_values[n - 1 - k],
            found.well_formed(),
            new == found.map(),
            kept.well_formed(),
            kept.map() == kept_entries(known, new, i as int),
            forall|k: int|
                0 <= k < all.len() ==> crate::rows::last_index(all, #[trigger] all[k]) == Some(k),
        decreases n - i,
    {
        if let Some(key) = keys.pop() {
            if let Some(value) = values.pop() {
                assert(key == given[i as int]);
                assert(value == given_values[i as int]);
                assert(key@ == all[i as int]);
                proof {
                    lemma_kept_next(known, new, i as int);
                }
                if !metrics_batch_builder::has_schema(&found, key.0.as_str()) {
                    kept.insert(key, value);
                }
                assert(kept.map() =~= kept_entries(known, new, i + 1));
            }
        }
        i = i + 1;
    }
    kept.extend(found);
    kept
}

/// One table more is kept where its schema is not one of the found tables.
proof fn lemma_kept_next(known: LogicalTables, found: KnownTables, n: int)
    requires
        known.well_formed(),
        0 <= n < known.keys@.len(),
    ensures
        kept_entries(known, found, n + 1) == if metrics_batch_builder::knows_schema(
            found,
            known.spec_keys()[n].0,
        ) {
            kept_entries(known, found, n)
        } else {
            kept_entries(known, found, n).insert(known.spec_keys()[n], known.values@[n])
        },
{
    let keys = known.spec_keys();
    let next = keys.take(n + 1);
    crate::keyed_map::lemma_places_differ(keys);
    assert forall|k: (Seq<char>, Seq<char>)| next.contains(k) <==> keys.take(n).contains(k) || k
        == keys[n] by {
        if keys.take(n).contains(k) {
            let m = choose|m: int| 0 <= m < n && keys.take(n)[m] == k;
            assert(next[m] == k);
        }
        if k == keys[n] {
            assert(next[n] == k);
        }
        if next.contains(k) && k != keys[n] {
            let m = choose|m: int| 0 <= m < n + 1 && next[m] == k;
            assert(keys.take(n)[m] == k);
        }
    }
    if metrics_batch_builder::knows_schema(found, keys[n].0) {
        assert(kept_entries(known, found, n + 1) =~= kept_entries(known, found, n));
    } else {
        assert(kept_entries(known, found, n + 1) =~= kept_entries(known, found, n).insert(
            keys[n],
            known.values@[n],
        ));
    }
}

/// The builders after the rows of a request were added, and what failed.
pub open spec fn appended(builders: BuildersView, known: KnownTables, data: Seq<SchemaDataView>) -> (
    BuildersView,
    Option<AppendFailureView>,
) {
    builders.add_all(known, metrics_batch_builder::catalog_of(None), None, data)
}

impl Round {
    /// A round without rows.
    pub open spec fn is_new(self) -> bool {
        &&& self.well_formed()
        &&& self.batch_builder@ == (BuildersView { keys: Seq::empty(), chunks: Seq::empty() })
        &&& self.physical_region_metadata.map() == Map::<
            (Seq<char>, Seq<char>),
            metrics_batch_builder::LogicalTable,
        >::empty()
    }

    pub open spec fn well_formed(self) -> bool {
        self.batch_builder.well_formed() && self.physical_region_metadata.well_formed()
    }

    /// A round without rows.
    pub fn new() -> (r: Self)
        ensures
            r.is_new(),
    {
        Round {
            batch_builder: MetricsBatchBuilder::new(),
            physical_region_metadata: LogicalTables::new(),
        }
    }
}

impl PromBulkState {
    /// Fewer requests were taken than end the round.
    pub open spec fn well_formed(self) -> bool {
        &&& self.round.well_formed()
        &&& self.num_batches == 0 || self.num_batches < self.max_batch_num
    }

    /// Whether a request ends the round, so long after the last one ended.
    pub open spec fn ends_round(self, elapsed_nanos: u128) -> bool {
        self.num_batches + 1 >= self.max_batch_num || elapsed_nanos
            >= self.max_batch_interval_secs * 1_000_000_000
    }

    /// Begins to collect, as two settings say.
    pub fn start_background_task(batch_num: Option<&str>, interval_secs: Option<&str>) -> (r: Self)
        ensures
            r.well_formed(),
            r.round.is_new(),
            r.num_batches == 0,
            r.max_batch_num == setting(
                batch_num,
                usize::MAX as nat,
                DEFAULT_MAX_BATCH_NUM as nat,
            ),
            r.max_batch_interval_secs == setting(
                interval_secs,
                u64::MAX as nat,
                DEFAULT_MAX_BATCH_INTERVAL_SECS as nat,
            ),
    {
        PromBulkState {
            round: Round::new(),
            num_batches: 0,
            max_batch_num: max_batch_num(batch_num),
            max_batch_interval_secs: max_batch_interval_secs(interval_secs),
        }
    }

    /// Takes a request, whose tables have been looked up, and gives the round where it ends.
    pub fn receive(
        &mut self,
        tables: &Vec<SchemaData>,
        found: LogicalTables,
        elapsed_nanos: u128,
    ) -> (r: Result<Option<Round>, AppendFailure>)
        requires
            old(self).well_formed(),
            found.well_formed(),
            old(self).round.batch_builder@.all_room(
                known_with(old(self).round.physical_region_metadata, found),
                metrics_batch_builder::catalog_of(None),
                None,
                data_views(tables@),
            ),
        ensures
            final(self).max_batch_num == old(self).max_batch_num,
            final(self).max_batch_interval_secs == old(self).max_batch_interval_secs,
            final(self).well_formed(),
            ({
                let known = known_with(old(self).round.physical_region_metadata, found);
                let (builders, failure) = appended(
                    old(self).round.batch_builder@,
                    known,
                    data_views(tables@),
                );
                match r {
                    Ok(None) => {
                        &&& failure is None
                        &&& !old(self).ends_round(elapsed_nanos)
                        &&& final(self).num_batches == old(self).num_batches + 1
                        &&& final(self).round.batch_builder@ == builders
                        &&& final(self).round.physical_region_metadata.map() == known
                    },
                    Ok(Some(round)) => {
                        &&& failure is None
                        &&& old(self).ends_round(elapsed_nanos)
                        &&& final(self).num_batches == 0
                        &&& final(self).round.is_new()
                        &&& round.well_formed()
                        &&& round.batch_builder@ == builders
                        &&& round.physical_region_metadata.map() == known
                    },
                    Err(e) => {
                        &&& failure == Some(e@)
                        &&& final(self).num_batches == old(self).num_batches
                        &&& final(self).round.batch_builder@ == builders
                        &&& final(self).round.physical_region_metadata.map() == known
                    },
                }
            }),
    {
        assert(tables@.map_values(|d: SchemaData| d@) =~= data_views(tables@));
        let mut known: LogicalTables = KeyedMap::new();
        std::mem::swap(&mut self.round.physical_region_metadata, &mut known);
        self.round.physical_region_metadata = with_found(known, found);
        match self.round.batch_builder.append_rows_to_batch(
            None,
            None,
            tables,
            &self.round.physical_region_metadata,
        ) {
            Ok(_) => {},
            Err(e) => {
                return Err(e);
            },
        }
        self.num_batches = self.num_batches + 1;
        if self.num_batches >= self.max_batch_num || elapsed_nanos
            >= self.max_batch_interval_secs as u128 * 1_000_000_000 {
            Ok(Some(self.end_round()))
        } else {
            Ok(None)
        }
    }

    /// Ends a round, as when no more requests come.
    pub fn end_round(&mut self) -> (r: Round)
        ensures
            r == old(self).round,
            final(self).round.is_new(),
            final(self).num_batches == 0,
            final(self).max_batch_num == old(self).max_batch_num,
            final(self).max_batch_interval_secs == old(self).max_batch_interval_secs,
    {
        let mut round: Round = Round::new();
        std::mem::swap(&mut self.round, &mut round);
        self.num_batches = 0;
        round
    }
}

/// A batch that is to be written as a file of a region.
pub struct SstWrite {
    pub catalog: &'static str,
    pub schema: String,
    pub region_id: RegionId,
    pub batch: RecordBatch,
    pub time_range: (i64, i64),
}

/// What an [`SstWrite`] says.
pub struct SstWriteView {
    pub catalog: Seq<char>,
    pub schema: Seq<char>,
    pub region_id: RegionId,
    pub batch: BatchView,
    pub time_range: (i64, i64),
}

impl View for SstWrite {
    type V = SstWriteView;

    open spec fn view(&self) -> SstWriteView {
        SstWriteView {
            catalog: self.catalog@,
            schema: self.schema@,
            region_id: self.region_id,
            batch: self.batch@,
            time_range: self.time_range,
        }
    }
}

/// Why the batches of a region cannot be written.
#[derive(Debug)]
pub enum MissingRegion {
    /// No table of the schema is known.
    Schema(String),
    /// No table of the schema is known to be in the region.
    Region(String, RegionId),
}

/// Some table of a schema is known to be in a region.
pub open spec fn knows_region(known: KnownTables, schema: Seq<char>, region_id: RegionId) -> bool {
    exists|table: Seq<char>| #[trigger]
        known.contains_key((schema, table)) && known[(schema, table)].region_id == region_id
}

/// The batches of regions, by schema.
pub type RegionBatches = Vec<(String, RegionId, Vec<(RecordBatch, (i64, i64))>)>;

/// The files of one region.
pub open spec fn region_writes(
    schema: Seq<char>,
    region_id: RegionId,
    batches: Seq<(RecordBatch, (i64, i64))>,
) -> Seq<SstWriteView> {
    Seq::new(
        batches.len(),
        |i: int|
            SstWriteView {
                catalog: DEFAULT_CATALOG_NAME@,
                schema,
                region_id,
                batch: batches[i].0@,
                time_range: batches[i].1,
            },
    )
}

/// The files of all regions: one for each batch.
pub open spec fn all_writes(
    batches: Seq<(String, RegionId, Vec<(RecordBatch, (i64, i64))>)>,
) -> Seq<SstWriteView>
    decreases batches.len(),
{
    if batches.len() == 0 {
        Seq::empty()
    } else {
        all_writes(batches.drop_last()) + region_writes(
            batches.last().0@,
            batches.last().1,
            batches.last().2@,
        )
    }
}

/// The region of the batches at `k` is not known, and those before it are.
pub open spec fn region_missing_at(
    known: KnownTables,
    batches: Seq<(String, RegionId, Vec<(RecordBatch, (i64, i64))>)>,
    k: int,
) -> bool {
    &&& 0 <= k < batches.len()
    &&& !knows_region(known, batches[k].0@, batches[k].1)
    &&& forall|i: int|
        0 <= i < k ==> knows_region(known, (#[trigger] batches[i]).0@, batches[i].1)
}

/// What is said of a region that is not known: that its schema is not, or else that it is not.
pub open spec fn missing_error(
    known: KnownTables,
    schema: Seq<char>,
    region_id: RegionId,
    e: MissingRegion,
) -> bool {
    match e {
        MissingRegion::Schema(s) => s@ == schema && !metrics_batch_builder::knows_schema(
            known,
            schema,
        ),
        MissingRegion::Region(s, r) => s@ == schema && r == region_id
            && metrics_batch_builder::knows_schema(known, schema),
    }
}

/// What is said of files.
pub open spec fn write_views(writes: Seq<SstWrite>) -> Seq<SstWriteView> {
    writes.map_values(|w: SstWrite| w@)
}

/// Whether some table of a schema is known, and whether one is known to be in a region.
fn find_region(known: &LogicalTables, schema: &str, region_id: RegionId) -> (r: (bool, bool))
    requires
        known.well_formed(),
    ensures
        r.0 == metrics_batch_builder::knows_schema(known.map(), schema@),
        r.1 == knows_region(known.map(), schema@, region_id),
{
    let ghost keys = known.spec_keys();
    let mut schema_known: bool = false;
    let mut i: usize = 0;
    proof {
        crate::keyed_map::lemma_places_differ(keys);
    }
    while i < known.keys.len()
        invariant
            i <= known.keys@.len(),
            known.well_formed(),
            keys == known.spec_keys(),
            forall|k: int|
                0 <= k < keys.len() ==> crate::rows::last_index(keys, #[trigger] keys[k]) == Some(k),
            schema_known ==> metrics_batch_builder::knows_schema(known.map(), schema@),
            !schema_known ==> forall|k: int| 0 <= k < i ==> (#[trigger] keys[k]).0 != schema@,
            forall|k: int|
                0 <= k < i ==> !((#[trigger] keys[k]).0 == schema@ && known.values@[k].region_id
                    == region_id),
        decreases known.keys@.len() - i,
    {
        assert(keys[i as int] == known.keys@[i as int]@);
        if text::text_equal(known.keys[i].0.as_str(), schema) {
            assert(keys.contains(keys[i as int]));
            assert(known.map().contains_key((schema@, keys[i as int].1)));
            schema_known = true;
            if known.values[i].region_id == region_id {
                assert(known.map()[(schema@, keys[i as int].1)] == known.values@[i as int]);
                return (true, true);
            }
        }
        i = i + 1;
    }
    proof {
        if metrics_batch_builder::knows_schema(known.map(), schema@) {
            let table = choose|table: Seq<char>| #[trigger]
                known.map().contains_key((schema@, table));
            assert(keys.contains((schema@, table)));
            let k = choose|k: int| 0 <= k < keys.len() && keys[k] == (schema@, table);
            assert(keys[k].0 == schema@);
        }
        if knows_region(known.map(), schema@, region_id) {
            let table = choose|table: Seq<char>| #[trigger]
                known.map().contains_key((schema@, table)) && known.map()[(
                    schema@,
                    table,
                )].region_id == region_id;
            assert(keys.contains((schema@, table)));
            let k = choose|k: int| 0 <= k < keys.len() && keys[k] == (schema@, table);
            assert(keys[k].0 == schema@);
        }
    }
    (schema_known, false)
}

/// The files to write for the batches of regions: one for each batch, where the regions are
/// known.
pub fn process_record_batches(
    physical_region_metadata: &LogicalTables,
    record_batches: RegionBatches,
) -> (r: Result<Vec<SstWrite>, MissingRegion>)
    requires
        physical_region_metadata.well_formed(),
    ensures
        match r {
            Ok(writes) => write_views(writes@) == all_writes(record_batches@) && forall|k: int|
                !#[trigger] region_missing_at(
                    physical_region_metadata.map(),
                    record_batches@,
                    k,
                ),
            Err(e) => exists|k: int| #[trigger]
                region_missing_at(physical_region_metadata.map(), record_batches@, k)
                    && missing_error(
                    physical_region_metadata.map(),
                    record_batches@[k].0@,
                    record_batches@[k].1,
                    e,
                ),
        },
{
    let ghost all = record_batches@;
    let ghost known = physical_region_metadata.map();
    let n: usize = record_batches.len();
    let mut rest = record_batches;
    crate::lists::reverse(&mut rest);
    let ghost reversed = rest@;
    let mut writes: Vec<SstWrite> = Vec::new();
    let mut i: usize = 0;
    assert(all.take(0) =~= Seq::<(String, RegionId, Vec<(RecordBatch, (i64, i64))>)>::empty());
    assert(write_views(writes@) =~= Seq::<SstWriteView>::empty());
    while i < n
        invariant
            i <= n,
            n == all.len(),
            all == record_batches@,
            known == physical_region_metadata.map(),
            physical_region_metadata.well_formed(),
            reversed.len() == n,
            forall|k: int| 0 <= k < n ==> #[trigger] reversed[k] == all[n - 1 - k],
            rest@ == reversed.take(n - i),
            write_views(writes@) == all_writes(all.take(i as int)),
            forall|k: int|
                0 <= k < i ==> knows_region(known, (#[trigger] all[k]).0@, all[k].1),
        decreases n - i,
    {
        if let Some((schema, region_id, batches)) = rest.pop() {
            assert((schema, region_id, batches) == all[i as int]);
            let (schema_known, region_known) = find_region(
                physical_region_metadata,
                schema.as_str(),
                region_id,
            );
            if !schema_known {
                assert(!knows_region(known, schema@, region_id));
                assert(region_missing_at(known, all, i as int));
                return Err(MissingRegion::Schema(schema));
            }
            if !region_known {
                assert(region_missing_at(known, all, i as int));
                return Err(MissingRegion::Region(schema, region_id));
            }
            push_writes(&mut writes, schema.as_str(), region_id, batches);
            assert(all.take(i + 1).drop_last() =~= all.take(i as int));
            assert(all.take(i + 1).last() == all[i as int]);
        }
        i = i + 1;
    }
    assert(all.take(i as int) =~= all);
    Ok(writes)
}

/// Adds the files of one region.
fn push_writes(
    writes: &mut Vec<SstWrite>,
    schema: &str,
    region_id: RegionId,
    batches: Vec<(RecordBatch, (i64, i64))>,
)
    ensures
        write_views(final(writes)@) == write_views(old(writes)@) + region_writes(
            schema@,
            region_id,
            batches@,
        ),
{
    let ghost all = batches@;
    let ghost given = write_views(writes@);
    let ghost these = region_writes(schema@, region_id, all);
    let n: usize = batches.len();
    let mut rest = batches;
    crate::lists::reverse(&mut rest);
    let ghost reversed = rest@;
    let mut i: usize = 0;
    assert(given + these.take(0) =~= given);
    while i < n
        invariant
            i <= n,
            n == all.len(),
            all == batches@,
            these == region_writes(schema@, region_id, all),
            given == write_views(old(writes)@),
            reversed.len() == n,
            forall|k: int| 0 <= k < n ==> #[trigger] reversed[k] == all[n - 1 - k],
            rest@ == reversed.take(n - i),
            write_views(writes@) == given + these.take(i as int),
        decreases n - i,
    {
        if let Some((batch, time_range)) = rest.pop() {
            assert((batch, time_range) == all[i as int]);
            let write = SstWrite {
                catalog: DEFAULT_CATALOG_NAME,
                schema: schema.to_string(),
                region_id,
                batch,
                time_range,
            };
            assert(write@ == these[i as int]);
            let ghost before = writes@;
            writes.push(write);
            assert(write_views(writes@) =~= write_views(before).push(write@));
            assert(given + these.take(i + 1) =~= (given + these.take(i as int)).push(
                these[i as int],
            ));
        }
        i = i + 1;
    }
    assert(these.take(i as int) =~= these);
}

impl Round {
    /// Ends the batches of a round, and gives the files to write for them.
    pub fn finish(self) -> (r: Result<Vec<SstWrite>, MissingRegion>)
        requires
            self.well_formed(),
            forall|i: int, j: int|
                0 <= i < self.batch_builder@.chunks.len() && 0 <= j
                    < self.batch_builder@.chunks[i].len() ==> 0 < (
                #[trigger] self.batch_builder@.chunks[i][j]).len() <= u32::MAX,
        ensures
            r is Ok <==> regions_known(
                self.batch_builder@,
                self.physical_region_metadata.map(),
            ),
            r matches Ok(writes) ==> exists|batches: RegionBatches| #[trigger]
                finishes(self.batch_builder@, batches@) && write_views(writes@) == all_writes(
                    batches@,
                ),
            r matches Err(e) ==> exists|k: int| #[trigger]
                unknown_at(self.batch_builder@, self.physical_region_metadata.map(), k)
                    && missing_error(
                    self.physical_region_metadata.map(),
                    self.batch_builder@.keys[k].0,
                    self.batch_builder@.keys[k].1,
                    e,
                ),
    {
        let ghost builders = self.batch_builder@;
        let ghost known = self.physical_region_metadata.map();
        let batches: RegionBatches = self.batch_builder.finish();
        assert(finishes(builders, batches@));
        let r: Result<Vec<SstWrite>, MissingRegion> = process_record_batches(
            &self.physical_region_metadata,
            batches,
        );
        proof {
            if r is Err {
                let e = r->Err_0;
                let k = choose|k: int| #[trigger]
                    region_missing_at(known, batches@, k) && missing_error(
                        known,
                        batches@[k].0@,
                        batches@[k].1,
                        e,
                    );
                assert forall|i: int| 0 <= i < k implies knows_region(
                    known,
                    (#[trigger] builders.keys[i]).0,
                    builders.keys[i].1,
                ) by {
                    assert(knows_region(known, batches@[i].0@, batches@[i].1));
                }
                assert(unknown_at(builders, known, k));
            }
            if regions_known(builders, known) {
                assert forall|k: int| !#[trigger] region_missing_at(known, batches@, k) by {
                    if 0 <= k < batches@.len() {
                        assert(builders.keys[k] == (batches@[k].0@, batches@[k].1));
                    }
                }
            } else if r is Ok {
                lemma_none_missing(known, batches@, batches@.len() as int);
                assert forall|i: int| 0 <= i < builders.keys.len() implies knows_region(
                    known,
                    (#[trigger] builders.keys[i]).0,
                    builders.keys[i].1,
                ) by {
                    assert(knows_region(known, batches@[i].0@, batches@[i].1));
                }
            }
        }
        r
    }
}

/// Where no region is the first that is not known, all are known.
proof fn lemma_none_missing(
    known: KnownTables,
    batches: Seq<(String, RegionId, Vec<(RecordBatch, (i64, i64))>)>,
    n: int,
)
    requires
        0 <= n <= batches.len(),
        forall|k: int| !#[trigger] region_missing_at(known, batches, k),
    ensures
        forall|i: int| 0 <= i < n ==> knows_region(known, (#[trigger] batches[i]).0@, batches[i].1),
    decreases n,
{
    if n > 0 {
        lemma_none_missing(known, batches, n - 1);
        assert(!region_missing_at(known, batches, n - 1));
    }
}

/// The batches are those of the builders.
pub open spec fn finishes(
    builders: BuildersView,
    batches: Seq<(String, RegionId, Vec<(RecordBatch, (i64, i64))>)>,
) -> bool {
    &&& batches.len() == builders.keys.len()
    &&& forall|i: int|
        0 <= i < batches.len() ==> builders.keys[i] == ((#[trigger] batches[i]).0@, batches[i].1)
            && metrics_batch_builder::batches_of(builders.chunks[i], batches[i].2@)
}

/// Each region that rows were added for is that of a table that is known.
pub open spec fn regions_known(builders: BuildersView, known: KnownTables) -> bool {
    forall|i: int|
        0 <= i < builders.keys.len() ==> knows_region(
            known,
            (#[trigger] builders.keys[i]).0,
            builders.keys[i].1,
        )
}

/// The region at `k` is the first that rows were added for and that is not known.
pub open spec fn unknown_at(builders: BuildersView, known: KnownTables, k: int) -> bool {
    &&& 0 <= k < builders.keys.len()
    &&& !knows_region(known, builders.keys[k].0, builders.keys[k].1)
    &&& forall|i: int|
        0 <= i < k ==> knows_region(known, (#[trigger] builders.keys[i]).0, builders.keys[i].1)
}

/// Of the schemas that found tables are of, each region that rows were added for is that of a
/// found table.
pub open spec fn keeps_regions(builders: BuildersView, found: KnownTables) -> bool {
    forall|i: int|
        0 <= i < builders.keys.len() && metrics_batch_builder::knows_schema(
            found,
            (#[trigger] builders.keys[i]).0,
        ) ==> knows_region(found, builders.keys[i].0, builders.keys[i].1)
}

proof fn lemma_add_tables_known(
    builders: BuildersView,
    known: KnownTables,
    catalog: Seq<char>,
    schema: Seq<char>,
    tables: Seq<metrics_batch_builder::TableDataView>,
)
    requires
        regions_known(builders, known),
    ensures
        regions_known(builders.add_tables(known, catalog, schema, tables).0, known),
    decreases tables.len(),
{
    if tables.len() > 0 {
        lemma_add_tables_known(builders, known, catalog, schema, tables.drop_last());
        let (before, failure) = builders.add_tables(known, catalog, schema, tables.drop_last());
        let key = (schema, tables.last().table_name);
        if failure is None && known.contains_key(key) {
            assert(knows_region(known, schema, known[key].region_id));
        }
    }
}

proof fn lemma_add_all_known(
    builders: BuildersView,
    known: KnownTables,
    catalog: Seq<char>,
    current_schema: Option<Seq<char>>,
    data: Seq<SchemaDataView>,
)
    requires
        regions_known(builders, known),
    ensures
        regions_known(builders.add_all(known, catalog, current_schema, data).0, known),
    decreases data.len(),
{
    if data.len() > 0 {
        lemma_add_all_known(builders, known, catalog, current_schema, data.drop_last());
        let (before, failure) = builders.add_all(known, catalog, current_schema, data.drop_last());
        if failure is None {
            lemma_add_tables_known(
                before,
                known,
                catalog,
                metrics_batch_builder::schema_of(data.last().schema, current_schema),
                data.last().tables,
            );
        }
    }
}

/// Whatever requests a round takes, the files of its batches can be written, as long as what is
/// found of a schema covers the regions of the schema that rows were added for before: each
/// region that rows are added for stays known.
pub proof fn law_round_can_be_written(
    builders: BuildersView,
    known: LogicalTables,
    found: LogicalTables,
    data: Seq<SchemaDataView>,
)
    requires
        known.well_formed(),
        regions_known(builders, known.map()),
        keeps_regions(builders, found.map()),
    ensures
        regions_known(
            appended(builders, known_with(known, found), data).0,
            known_with(known, found),
        ),
{
    let more = known_with(known, found);
    let keys = known.spec_keys();
    assert(keys.take(keys.len() as int) =~= keys);
    assert forall|i: int| 0 <= i < builders.keys.len() implies knows_region(
        more,
        (#[trigger] builders.keys[i]).0,
        builders.keys[i].1,
    ) by {
        let (schema, region_id) = builders.keys[i];
        let from = if metrics_batch_builder::knows_schema(found.map(), schema) {
            found.map()
        } else {
            known.map()
        };
        assert(knows_region(from, schema, region_id));
        let table = choose|table: Seq<char>| #[trigger]
            from.contains_key((schema, table)) && from[(schema, table)].region_id == region_id;
        assert(more.contains_key((schema, table)));
        assert(more[(schema, table)] == from[(schema, table)]);
    }
    lemma_add_all_known(builders, more, metrics_batch_builder::catalog_of(None), None, data);
}

/// The sum of numbers.
pub open spec fn sum(numbers: Seq<u64>) -> nat
    decreases numbers.len(),
{
    if numbers.len() == 0 {
        0
    } else {
        sum(numbers.drop_last()) + numbers.last() as nat
    }
}

/// The first of some numbers add up to no more than all of them.
proof fn lemma_sum_prefix(numbers: Seq<u64>, n: int)
    requires
        0 <= n <= numbers.len(),
    ensures
        sum(numbers.take(n)) <= sum(numbers),
    decreases numbers.len() - n,
{
    if n < numbers.len() {
        lemma_sum_prefix(numbers, n + 1);
        assert(numbers.take(n + 1).drop_last() =~= numbers.take(n));
    } else {
        assert(numbers.take(n) =~= numbers);
    }
}

/// The number of rows that files hold.
pub fn total_rows(file_rows: &Vec<u64>) -> (r: u64)
    requires
        sum(file_rows@) <= u64::MAX,
    ensures
        r == sum(file_rows@),
{
    let mut total: u64 = 0;
    let mut i: usize = 0;
    assert(file_rows@.take(0) =~= Seq::<u64>::empty());
    while i < file_rows.len()
        invariant
            i <= file_rows@.len(),
            sum(file_rows@) <= u64::MAX,
            total == sum(file_rows@.take(i as int)),
        decreases file_rows@.len() - i,
    {
        proof {
            lemma_sum_prefix(file_rows@, i + 1);
        }
        assert(file_rows@.take(i + 1).drop_last() =~= file_rows@.take(i as int));
        total = total + file_rows[i];
        i = i + 1;
    }
    assert(file_rows@.take(i as int) =~= file_rows@);
    total
}

/// The number of batches of all regions.
pub open spec fn batches_in_all(
    batches: Seq<(String, RegionId, Vec<(RecordBatch, (i64, i64))>)>,
) -> nat
    decreases batches.len(),
{
    if batches.len() == 0 {
        0
    } else {
        batches_in_all(batches.drop_last()) + batches.last().2@.len()
    }
}

/// Every batch has its file: for the batch at `j` of the region at `i` there is one of the
/// region's schema and identifier, with that batch and its range of times. There are as many
/// files as batches. Gives the place of the file.
pub proof fn law_every_batch_has_its_file(
    batches: Seq<(String, RegionId, Vec<(RecordBatch, (i64, i64))>)>,
    i: int,
    j: int,
) -> (w: int)
    requires
        0 <= i < batches.len(),
        0 <= j < batches[i].2@.len(),
    ensures
        all_writes(batches).len() == batches_in_all(batches),
        0 <= w < all_writes(batches).len(),
        all_writes(batches)[w].catalog == "greptime"@,
        all_writes(batches)[w].schema == batches[i].0@,
        all_writes(batches)[w].region_id == batches[i].1,
        all_writes(batches)[w].batch == batches[i].2@[j].0@,
        all_writes(batches)[w].time_range == batches[i].2@[j].1,
    decreases batches.len(),
{
    lemma_writes_counted(batches);
    let rest = batches.drop_last();
    if i == batches.len() - 1 {
        all_writes(rest).len() + j
    } else {
        law_every_batch_has_its_file(rest, i, j)
    }
}

proof fn lemma_writes_counted(batches: Seq<(String, RegionId, Vec<(RecordBatch, (i64, i64))>)>)
    ensures
        all_writes(batches).len() == batches_in_all(batches),
    decreases batches.len(),
{
    if batches.len() > 0 {
        lemma_writes_counted(batches.drop_last());
    }
}

/// Every file is that of a batch. Gives the region and the place of the batch in it.
pub proof fn law_every_file_has_its_batch(
    batches: Seq<(String, RegionId, Vec<(RecordBatch, (i64, i64))>)>,
    w: int,
) -> (place: (int, int))
    requires
        0 <= w < all_writes(batches).len(),
    ensures
        0 <= place.0 < batches.len(),
        0 <= place.1 < batches[place.0].2@.len(),
        all_writes(batches)[w].schema == batches[place.0].0@,
        all_writes(batches)[w].region_id == batches[place.0].1,
        all_writes(batches)[w].batch == batches[place.0].2@[place.1].0@,
        all_writes(batches)[w].time_range == batches[place.0].2@[place.1].1,
    decreases batches.len(),
{
    let rest = batches.drop_last();
    let before = all_writes(rest).len() as int;
    if w < before {
        law_every_file_has_its_batch(rest, w)
    } else {
        (batches.len() - 1, w - before)
    }
}

/// The number of rows of files.
pub open spec fn rows_of_files(writes: Seq<SstWriteView>) -> nat
    decreases writes.len(),
{
    if writes.len() == 0 {
        0
    } else {
        rows_of_files(writes.drop_last()) + writes.last().batch.num_rows
    }
}

proof fn lemma_rows_of_files_add(a: Seq<SstWriteView>, b: Seq<SstWriteView>)
    ensures
        rows_of_files(a + b) == rows_of_files(a) + rows_of_files(b),
    decreases b.len(),
{
    if b.len() == 0 {
        assert(a + b =~= a);
    } else {
        lemma_rows_of_files_add(a, b.drop_last());
        assert((a + b).drop_last() =~= a + b.drop_last());
    }
}

proof fn lemma_region_rows(
    schema: Seq<char>,
    region_id: RegionId,
    chunks: Seq<Seq<crate::batch_builder::PointView>>,
    batches: Seq<(RecordBatch, (i64, i64))>,
)
    requires
        metrics_batch_builder::batches_of(chunks, batches),
    ensures
        rows_of_files(region_writes(schema, region_id, batches))
            == crate::batch_builder::all_points(chunks).len(),
    decreases batches.len(),
{
    let writes = region_writes(schema, region_id, batches);
    if batches.len() > 0 {
        let fewer = batches.drop_last();
        assert forall|i: int| 0 <= i < fewer.len() implies crate::batch_builder::is_sorted_batch(
            chunks.drop_last()[i],
            (#[trigger] fewer[i]).0@,
        ) && fewer[i].0@.valid() && crate::batch_builder::range_of(
            crate::batch_builder::times_of(chunks.drop_last()[i]),
        ) == Some(fewer[i].1) by {
            assert(batches[i] == fewer[i]);
        }
        lemma_region_rows(schema, region_id, chunks.drop_last(), fewer);
        assert(writes.drop_last() =~= region_writes(schema, region_id, fewer));
        let n = batches.len() - 1;
        assert(crate::batch_builder::is_sorted_batch(chunks[n], batches[n].0@));
        crate::batch_builder::law_sorted_batch_has_points(chunks[n], batches[n].0@);
    }
}

proof fn lemma_finished_rows(
    builders: BuildersView,
    batches: Seq<(String, RegionId, Vec<(RecordBatch, (i64, i64))>)>,
    n: int,
)
    requires
        finishes(builders, batches),
        0 <= n <= batches.len(),
    ensures
        rows_of_files(all_writes(batches.take(n))) == builders.points_of_first(n as nat),
    decreases n,
{
    if n > 0 {
        lemma_finished_rows(builders, batches, n - 1);
        let b = batches[n - 1];
        assert(batches.take(n).drop_last() =~= batches.take(n - 1));
        assert(batches.take(n).last() == b);
        lemma_region_rows(b.0@, b.1, builders.chunks[n - 1], b.2@);
        lemma_rows_of_files_add(
            all_writes(batches.take(n - 1)),
            region_writes(b.0@, b.1, b.2@),
        );
    }
}

/// The rows of the files of a round are as many as the points that the round took in.
pub proof fn law_files_hold_all_rows(
    builders: BuildersView,
    batches: Seq<(String, RegionId, Vec<(RecordBatch, (i64, i64))>)>,
)
    requires
        builders.sound(),
        finishes(builders, batches),
    ensures
        rows_of_files(all_writes(batches)) == builders.points(),
{
    lemma_finished_rows(builders, batches, batches.len() as int);
    assert(batches.take(batches.len() as int) =~= batches);
}

/// A row that a round took in is written: whatever point the region at `k` has, some file of its
/// schema and region has a row with the point's number, bit by bit, its time and its key, and the
/// file's range of times holds that time. Gives the file and the row.
pub proof fn law_point_is_written(
    builders: BuildersView,
    batches: Seq<(String, RegionId, Vec<(RecordBatch, (i64, i64))>)>,
    k: int,
    p: int,
) -> (place: (int, int))
    requires
        builders.sound(),
        finishes(builders, batches),
        0 <= k < builders.keys.len(),
        0 <= p < crate::batch_builder::all_points(builders.chunks[k]).len(),
    ensures
        0 <= place.0 < all_writes(batches).len(),
        ({
            let write = all_writes(batches)[place.0];
            let point = crate::batch_builder::all_points(builders.chunks[k])[p];
            let row = place.1;
            &&& (write.schema, write.region_id) == builders.keys[k]
            &&& 0 <= row < write.batch.num_rows
            &&& write.batch.columns.len() == 5
            &&& write.batch.columns[0].cells[row] == CellView::Float64(point.value)
            &&& write.batch.columns[1].cells[row] == CellView::Int64(point.timestamp)
            &&& write.batch.columns[2].cells[row] == CellView::Binary(point.primary_key)
            &&& write.batch.columns[4].cells[row] == CellView::UInt8(1)
            &&& write.time_range.0 <= point.timestamp <= write.time_range.1
        }),
{
    let chunks = builders.chunks[k];
    let (c, q) = crate::batch_builder::law_all_points_are_held(chunks, p);
    let point = chunks[c][q];
    assert(builders.keys[k] == (batches[k].0@, batches[k].1));
    assert(metrics_batch_builder::batches_of(chunks, batches[k].2@));
    let batch = batches[k].2@[c].0@;
    assert(crate::batch_builder::is_sorted_batch(chunks[c], batch));
    let order = crate::batch_builder::law_sorted_batch_has_points(chunks[c], batch);
    assert(order.contains(q));
    let row = choose|row: int| 0 <= row < order.len() && order[row] == q;
    let times = crate::batch_builder::times_of(chunks[c]);
    crate::batch_builder::lemma_range_of(times);
    assert(times[q] == point.timestamp);
    let w = law_every_batch_has_its_file(batches, k, c);
    (w, row)
}

/// What is known of a table after those of a request were looked up: what was found of it, where
/// it was; nothing, where other tables of its schema were found; else what was known before.
pub proof fn law_known_after_lookup(
    known: LogicalTables,
    found: LogicalTables,
    schema: Seq<char>,
    table: Seq<char>,
)
    requires
        known.well_formed(),
        found.well_formed(),
    ensures
        found.map().contains_key((schema, table)) ==> known_with(known, found).contains_key(
            (schema, table),
        ) && known_with(known, found)[(schema, table)] == found.map()[(schema, table)],
        !found.map().contains_key((schema, table)) && (exists|other: Seq<char>| #[trigger]
            found.map().contains_key((schema, other))) ==> !known_with(known, found).contains_key(
            (schema, table),
        ),
        (forall|other: Seq<char>| !#[trigger] found.map().contains_key((schema, other))) ==> (
        known_with(known, found).contains_key((schema, table)) <==> known.map().contains_key(
            (schema, table),
        )) && (known.map().contains_key((schema, table)) ==> known_with(known, found)[(
            schema,
            table,
        )] == known.map()[(schema, table)]),
{
    let keys = known.spec_keys();
    assert(keys.take(keys.len() as int) =~= keys);
    assert(keys.len() == known.keys@.len());
    if forall|other: Seq<char>| !#[trigger] found.map().contains_key((schema, other)) {
        assert(!metrics_batch_builder::knows_schema(found.map(), schema));
    } else {
        let other = choose|other: Seq<char>| #[trigger] found.map().contains_key((schema, other));
        assert(metrics_batch_builder::knows_schema(found.map(), schema));
    }
}

/// Every table of a request is looked up, under the schema that the request names, or else that
/// of the session. Gives the place of the table.
pub proof fn law_every_table_is_looked_up(
    data: Seq<SchemaData>,
    current_schema: Seq<char>,
    d: int,
    t: int,
) -> (at: int)
    requires
        0 <= d < data.len(),
        0 <= t < data[d].tables@.len(),
    ensures
        0 <= at < names_of_all(data_views(data), current_schema).len(),
        names_of_all(data_views(data), current_schema)[at] == (
            match data[d].schema {
                Some(s) => s@,
                None => current_schema,
            },
            data[d].tables@[t].table_name@,
        ),
    decreases data.len(),
{
    let views = data_views(data);
    let rest = data.drop_last();
    assert(views.drop_last() =~= data_views(rest));
    let before = names_of_all(data_views(rest), current_schema);
    if d == data.len() - 1 {
        assert(views.last() == data[d]@);
        before.len() + t
    } else {
        law_every_table_is_looked_up(rest, current_schema, d, t)
    }
}

/// A sum of numbers takes in each of them: that of two lists together is that of the one and that
/// of the other, and that of one number is the number.
pub proof fn law_sum(a: Seq<u64>, b: Seq<u64>, x: u64)
    ensures
        sum(a + b) == sum(a) + sum(b),
        sum(seq![x]) == x,
        sum(Seq::empty()) == 0,
    decreases b.len(),
{
    reveal_with_fuel(sum, 2);
    assert(seq![x].drop_last() =~= Seq::<u64>::empty());
    if b.len() == 0 {
        assert(a + b =~= a);
    } else {
        law_sum(a, b.drop_last(), x);
        assert((a + b).drop_last() =~= a + b.drop_last());
    }
}

/// A setting that is a number in decimal says that number, as far as it can be held; one that
/// is none, or is not there, or is too large, says the default.
pub proof fn law_setting(value: Option<&str>, max: nat, default: nat, n: nat)
    ensures
        value is None ==> setting(value, max, default) == default,
        value matches Some(s) ==> {
            let bytes = vstd::utf8::encode_utf8(s@);
            &&& bytes == text::decimal(n) && n <= max ==> setting(value, max, default) == n
            &&& bytes == text::decimal(n) && n > max ==> setting(value, max, default) == default
            &&& bytes.len() == 0 ==> setting(value, max, default) == default
            &&& (exists|i: int|
                0 < i < bytes.len() && !(48 <= #[trigger] bytes[i] <= 57)) ==> setting(
                value,
                max,
                default,
            ) == default
        },
{
    text::lemma_decimal(n);
    if let Some(s) = value {
        let bytes = vstd::utf8::encode_utf8(s@);
        if bytes == text::decimal(n) {
            assert(text::is_digit(bytes[0]));
        }
        if exists|i: int| 0 < i < bytes.len() && !(48 <= #[trigger] bytes[i] <= 57) {
            let i = choose|i: int| 0 < i < bytes.len() && !(48 <= #[trigger] bytes[i] <= 57);
            if bytes[0] == 43 {
                assert(bytes.drop_first()[i - 1] == bytes[i]);
            }
        }
    }
}

/// A round ends with the request that fills it, or with one that comes when its time is over, and
/// with no other.
pub proof fn law_round_ends(state: PromBulkState, elapsed_nanos: u128)
    ensures
        state.num_batches + 1 == state.max_batch_num ==> state.ends_round(elapsed_nanos),
        elapsed_nanos >= 1_000_000_000 * state.max_batch_interval_secs ==> state.ends_round(
            elapsed_nanos,
        ),
        state.ends_round(elapsed_nanos) ==> state.max_batch_num <= state.num_batches + 1
            || elapsed_nanos >= 1_000_000_000 * state.max_batch_interval_secs,
{
}

/// A region for which there are batches and of whose tables none is known is told of: the first
/// such region, with its own schema and its own identifier, and that its schema is not known
/// exactly where no table of the schema is. Where there is no such region none is told of.
pub proof fn law_unknown_region_is_told(
    known: KnownTables,
    batches: Seq<(String, RegionId, Vec<(RecordBatch, (i64, i64))>)>,
    k: int,
    i: int,
    e: MissingRegion,
)
    ensures
        region_missing_at(known, batches, k) ==> {
            &&& 0 <= k < batches.len()
            &&& forall|table: Seq<char>| #[trigger]
                known.contains_key((batches[k].0@, table)) ==> known[(
                    batches[k].0@,
                    table,
                )].region_id != batches[k].1
            &&& 0 <= i < k ==> exists|table: Seq<char>| #[trigger]
                known.contains_key((batches[i].0@, table)) && known[(
                    batches[i].0@,
                    table,
                )].region_id == batches[i].1
            &&& missing_error(known, batches[k].0@, batches[k].1, e) ==> match e {
                MissingRegion::Schema(s) => s@ == batches[k].0@ && forall|table: Seq<char>|
                    !#[trigger] known.contains_key((batches[k].0@, table)),
                MissingRegion::Region(s, r) => s@ == batches[k].0@ && r == batches[k].1
                    && exists|table: Seq<char>| #[trigger]
                    known.contains_key((batches[k].0@, table)),
            }
        },
        0 <= i < batches.len() && (forall|table: Seq<char>| #[trigger]
            known.contains_key((batches[i].0@, table)) ==> known[(batches[i].0@, table)].region_id
                != batches[i].1) ==> exists|j: int| #[trigger]
            region_missing_at(known, batches, j) && j <= i,
    decreases i,
{
    if region_missing_at(known, batches, k) {
        if 0 <= i < k {
            assert(knows_region(known, batches[i].0@, batches[i].1));
        }
        let schema = batches[k].0@;
        if exists|table: Seq<char>| #[trigger] known.contains_key((schema, table)) {
            let table = choose|table: Seq<char>| #[trigger] known.contains_key((schema, table));
            assert(metrics_batch_builder::knows_schema(known, schema));
        }
    }
    if 0 <= i < batches.len() && !knows_region(known, batches[i].0@, batches[i].1) {
        if exists|j: int|
            0 <= j < i && !knows_region(known, (#[trigger] batches[j]).0@, batches[j].1) {
            let j = choose|j: int|
                0 <= j < i && !knows_region(known, (#[trigger] batches[j]).0@, batches[j].1);
            law_unknown_region_is_told(known, batches, k, j, e);
        } else {
            assert(region_missing_at(known, batches, i));
        }
    }
}

/// Rows that were added for a region of whose tables none is known keep a round from being
/// written, and the first such region is the one that is told of; without such rows the round is
/// written.
pub proof fn law_round_needs_its_regions(
    builders: BuildersView,
    known: KnownTables,
    k: int,
    i: int,
)
    ensures
        regions_known(builders, known) && 0 <= i < builders.keys.len() ==> exists|table: Seq<char>|
         #[trigger]
            known.contains_key((builders.keys[i].0, table)) && known[(
                builders.keys[i].0,
                table,
            )].region_id == builders.keys[i].1,
        0 <= i < builders.keys.len() && (forall|table: Seq<char>| #[trigger]
            known.contains_key((builders.keys[i].0, table)) ==> known[(
                builders.keys[i].0,
                table,
            )].region_id != builders.keys[i].1) ==> exists|j: int| #[trigger]
            unknown_at(builders, known, j) && j <= i,
        unknown_at(builders, known, k) ==> 0 <= k < builders.keys.len() && !regions_known(
            builders,
            known,
        ) && (forall|table: Seq<char>| #[trigger]
            known.contains_key((builders.keys[k].0, table)) ==> known[(
                builders.keys[k].0,
                table,
            )].region_id != builders.keys[k].1),
        unknown_at(builders, known, k) && 0 <= i < k ==> exists|table: Seq<char>| #[trigger]
            known.contains_key((builders.keys[i].0, table)) && known[(
                builders.keys[i].0,
                table,
            )].region_id == builders.keys[i].1,
        !regions_known(builders, known) ==> exists|j: int| #[trigger]
            unknown_at(builders, known, j),
{
    let n = builders.keys.len() as int;
    if regions_known(builders, known) && 0 <= i < n {
        assert(knows_region(known, builders.keys[i].0, builders.keys[i].1));
    }
    if unknown_at(builders, known, k) {
        assert(!knows_region(known, builders.keys[k].0, builders.keys[k].1));
        if 0 <= i < k {
            assert(knows_region(known, builders.keys[i].0, builders.keys[i].1));
        }
    }
    if 0 <= i < n && !knows_region(known, builders.keys[i].0, builders.keys[i].1) {
        lemma_first_unknown(builders, known, i);
    }
    if !regions_known(builders, known) {
        let j = choose|j: int|
            0 <= j < n && !knows_region(
                known,
                (#[trigger] builders.keys[j]).0,
                builders.keys[j].1,
            );
        lemma_first_unknown(builders, known, j);
    }
}

proof fn lemma_first_unknown(builders: BuildersView, known: KnownTables, i: int)
    requires
        0 <= i < builders.keys.len(),
        !knows_region(known, builders.keys[i].0, builders.keys[i].1),
    ensures
        exists|j: int| #[trigger] unknown_at(builders, known, j) && j <= i,
    decreases i,
{
    if exists|j: int|
        0 <= j < i && !knows_region(
            known,
            (#[trigger] builders.keys[j]).0,
            builders.keys[j].1,
        ) {
        let j = choose|j: int|
            0 <= j < i && !knows_region(
                known,
                (#[trigger] builders.keys[j]).0,
                builders.keys[j].1,
            );
        lemma_first_unknown(builders, known, j);
    } else {
        assert(unknown_at(builders, known, i));
    }
}

/// What is said of a file that is to be written is what it is.
pub proof fn law_file_as_it_is(writes: Seq<SstWrite>, i: int)
    requires
        0 <= i < writes.len(),
    ensures
        write_views(writes).len() == writes.len(),
        write_views(writes)[i].catalog == writes[i].catalog@,
        write_views(writes)[i].schema == writes[i].schema@,
        write_views(writes)[i].region_id == writes[i].region_id,
        write_views(writes)[i].batch == writes[i].batch@,
        write_views(writes)[i].time_range == writes[i].time_range,
{
}

/// Where [`process_record_batches`] gives files, there are as many as all regions have batches
/// together, and each batch of each region has one: with its schema, its region, its rows and
/// its times. Gives the place of the file.
pub proof fn law_files_of_all_regions(
    known: LogicalTables,
    batches: RegionBatches,
    r: Result<Vec<SstWrite>, MissingRegion>,
    i: int,
    j: int,
) -> (w: int)
    requires
        call_ensures(process_record_batches, (&known, batches), r),
        r is Ok,
        0 <= i < batches@.len(),
        0 <= j < batches@[i].2@.len(),
    ensures
        r->Ok_0@.len() == batches_in_all(batches@),
        0 <= w < r->Ok_0@.len(),
        ({
            let file = r->Ok_0@[w];
            &&& file.catalog@ == "greptime"@
            &&& file.schema@ == batches@[i].0@
            &&& file.region_id == batches@[i].1
            &&& file.batch@ == batches@[i].2@[j].0@
            &&& file.time_range == batches@[i].2@[j].1
        }),
{
    let files = r->Ok_0@;
    let w = law_every_batch_has_its_file(batches@, i, j);
    assert(write_views(files).len() == files.len());
    assert(write_views(files)[w] == files[w]@);
    w
}

/// Each file that [`process_record_batches`] gives is of a batch of a region. Gives the region and
/// the batch.
pub proof fn law_file_is_of_a_batch(
    known: LogicalTables,
    batches: RegionBatches,
    r: Result<Vec<SstWrite>, MissingRegion>,
    w: int,
) -> (place: (int, int))
    requires
        call_ensures(process_record_batches, (&known, batches), r),
        r is Ok,
        0 <= w < r->Ok_0@.len(),
    ensures
        0 <= place.0 < batches@.len(),
        0 <= place.1 < batches@[place.0].2@.len(),
        r->Ok_0@[w].schema@ == batches@[place.0].0@,
        r->Ok_0@[w].region_id == batches@[place.0].1,
        r->Ok_0@[w].batch@ == batches@[place.0].2@[place.1].0@,
        r->Ok_0@[w].time_range == batches@[place.0].2@[place.1].1,
{
    let files = r->Ok_0@;
    assert(write_views(files).len() == files.len());
    assert(write_views(files)[w] == files[w]@);
    law_every_file_has_its_batch(batches@, w)
}

/// [`logical_tables`] names every table of a request, under the schema that the request names, or
/// else that of the session. Gives the place of the table.
pub proof fn law_tables_of_request(
    data: Vec<SchemaData>,
    current_schema: &str,
    r: Vec<(String, String)>,
    d: int,
    t: int,
) -> (at: int)
    requires
        call_ensures(logical_tables, (&data, current_schema), r),
        0 <= d < data@.len(),
        0 <= t < data@[d].tables@.len(),
    ensures
        0 <= at < r@.len(),
        r@[at].0@ == (match data@[d].schema {
            Some(s) => s@,
            None => current_schema@,
        }),
        r@[at].1@ == data@[d].tables@[t].table_name@,
{
    let at = law_every_table_is_looked_up(data@, current_schema@, d, t);
    let keys = metrics_batch_builder::table_keys(r@);
    assert(keys.len() == r@.len());
    assert(keys[at] == (r@[at].0@, r@[at].1@));
    at
}

/// A request is counted in its round; the round ends with the request that fills it or that comes
/// when its time is over, and is handed out then, and a new one without rows begins. Where the
/// rows of a request cannot be added it is not counted. The settings stay.
pub proof fn law_request_is_received(
    state: &mut PromBulkState,
    tables: Vec<SchemaData>,
    found: LogicalTables,
    elapsed_nanos: u128,
    r: Result<Option<Round>, AppendFailure>,
)
    requires
        call_ensures(PromBulkState::receive, (state, &tables, found, elapsed_nanos), r),
    ensures
        final(state).max_batch_num == old(state).max_batch_num,
        final(state).max_batch_interval_secs == old(state).max_batch_interval_secs,
        r matches Ok(None) ==> final(state).num_batches == old(state).num_batches + 1 && final(state).num_batches < old(state).max_batch_num && elapsed_nanos < 1_000_000_000 * old(
            state,
        ).max_batch_interval_secs,
        r matches Ok(Some(round)) ==> final(state).num_batches == 0 && final(state).round.batch_builder@.keys.len() == 0 && (old(state).num_batches + 1 >= old(
            state,
        ).max_batch_num || elapsed_nanos >= 1_000_000_000 * old(state).max_batch_interval_secs),
        r is Err ==> final(state).num_batches == old(state).num_batches,
{
}

/// The tables of a request are looked up once for each time that it names them: those of some data
/// and then those of the rest, and of one schema's data as many as it has tables.
pub proof fn law_tables_are_looked_up_once(
    some: Seq<SchemaDataView>,
    others: Seq<SchemaDataView>,
    one: SchemaDataView,
    current_schema: Seq<char>,
)
    ensures
        names_of_all(some + others, current_schema) == names_of_all(some, current_schema)
            + names_of_all(others, current_schema),
        names_of_all(seq![one], current_schema).len() == one.tables.len(),
    decreases others.len(),
{
    reveal_with_fuel(names_of_all, 2);
    assert(seq![one].drop_last() =~= Seq::<SchemaDataView>::empty());
    if others.len() == 0 {
        assert(some + others =~= some);
        assert(names_of_all(some, current_schema) + names_of_all(others, current_schema)
            =~= names_of_all(some, current_schema));
    } else {
        law_tables_are_looked_up_once(some, others.drop_last(), one, current_schema);
        assert((some + others).drop_last() =~= some + others.drop_last());
        assert((some + others).last() == others.last());
        assert(names_of_all(some + others, current_schema) =~= names_of_all(some, current_schema)
            + names_of_all(others, current_schema));
    }
}

} // verus!
