//! The schemas that logical tables need, gathered from the tags of their rows.

use vstd::prelude::*;

use crate::batch_builder::{GREPTIME_TIMESTAMP, GREPTIME_VALUE};
use crate::keyed_map;
use crate::keyed_map::KeyedMap;
use crate::lists;
use crate::rows;
use crate::rows::{ColumnDataType, ColumnSchema, ColumnSchemaView, SemanticType};

verus! {

/// The tags that rows of a logical table have, with the physical table that holds them.
#[derive(Debug)]
pub struct TableTags {
    pub physical_table: String,
    pub logical_table: String,
    pub tags: Vec<String>,
}

/// What [`TableTags`] hold.
pub struct TagsView {
    pub key: (Seq<char>, Seq<char>),
    pub tags: Seq<Seq<char>>,
}

impl View for TableTags {
    type V = TagsView;

    open spec fn view(&self) -> TagsView {
        TagsView {
            key: (self.physical_table@, self.logical_table@),
            tags: lists::texts(self.tags@),
        }
    }
}

/// What a list of tags of tables holds.
pub open spec fn items_view(items: Seq<TableTags>) -> Seq<TagsView> {
    items.map_values(|t: TableTags| t@)
}

/// The tags of a logical table, by physical and logical table, each once.
pub type GatheredTags = KeyedMap<(String, String), Vec<String>>;

/// All tags that rows of a logical table have, in order.
pub open spec fn tags_of(items: Seq<TagsView>, key: (Seq<char>, Seq<char>)) -> Seq<Seq<char>>
    decreases items.len(),
{
    if items.len() == 0 {
        Seq::empty()
    } else {
        let before = tags_of(items.drop_last(), key);
        if items.last().key == key {
            before + items.last().tags
        } else {
            before
        }
    }
}

/// Some of the items is of a logical table.
pub open spec fn mentions(items: Seq<TagsView>, key: (Seq<char>, Seq<char>)) -> bool {
    exists|i: int| 0 <= i < items.len() && (#[trigger] items[i]).key == key
}

/// `gathered` has the tags of the logical tables that items are of, each tag once.
pub open spec fn gathers(gathered: GatheredTags, items: Seq<TagsView>) -> bool {
    &&& gathered.well_formed()
    &&& forall|key: (Seq<char>, Seq<char>)| #[trigger]
        gathered.map().contains_key(key) <==> mentions(items, key)
    &&& forall|key: (Seq<char>, Seq<char>)| #[trigger]
        gathered.map().contains_key(key) ==> lists::texts(gathered.map()[key]@)
            == lists::distinct(tags_of(items, key))
}

/// Adds to a list of tags those that are not in it.
fn extend_tags(known: &mut Vec<String>, tags: &Vec<String>, Ghost(before): Ghost<Seq<Seq<char>>>)
    requires
        lists::texts(old(known)@) == lists::distinct(before),
    ensures
        lists::texts(final(known)@) == lists::distinct(before + lists::texts(tags@)),
{
    let ghost more = lists::texts(tags@);
    let mut i: usize = 0;
    assert(before + more.take(0) =~= before);
    while i < tags.len()
        invariant
            i <= tags@.len(),
            more == lists::texts(tags@),
            lists::texts(known@) == lists::distinct(before + more.take(i as int)),
        decreases tags@.len() - i,
    {
        let ghost so_far = before + more.take(i as int);
        let ghost next = before + more.take(i + 1);
        let ghost tag = tags@[i as int]@;
        let ghost held = lists::texts(known@);
        assert(next.drop_last() =~= so_far);
        assert(next.last() == tag);
        proof {
            rows::lemma_last_index(held, tag);
        }
        if lists::find_text(known, tags[i].as_str()).is_none() {
            known.push(tags[i].clone());
            assert(lists::texts(known@) =~= held.push(tag));
        }
        i = i + 1;
    }
    assert(more.take(i as int) =~= more);
}

/// Gathers the tags of logical tables.
pub fn gather_tags(items: &Vec<TableTags>) -> (r: GatheredTags)
    ensures
        gathers(r, items_view(items@)),
{
    let ghost all = items_view(items@);
    let mut gathered: GatheredTags = KeyedMap::new();
    let mut i: usize = 0;
    assert(gathers(gathered, all.take(0)));
    while i < items.len()
        invariant
            i <= items@.len(),
            all == items_view(items@),
            gathers(gathered, all.take(i as int)),
        decreases items@.len() - i,
    {
        let item = &items[i];
        let ghost so_far = all.take(i as int);
        let ghost next = all.take(i + 1);
        let ghost old_map = gathered.map();
        let key = (item.physical_table.clone(), item.logical_table.clone());
        let ghost k = key@;
        let ghost before = tags_of(so_far, k);
        let mut tags: Vec<String> = Vec::new();
        assert(lists::texts(tags@) =~= Seq::<Seq<char>>::empty());
        if let Some(known) = gathered.get(&key) {
            let mut j: usize = 0;
            while j < known.len()
                invariant
                    j <= known@.len(),
                    lists::texts(tags@) == lists::texts(known@).take(j as int),
                decreases known@.len() - j,
            {
                let ghost held = lists::texts(tags@);
                tags.push(known[j].clone());
                j = j + 1;
                assert(lists::texts(tags@) =~= held.push(known@[j - 1]@));
                assert(lists::texts(known@).take(j as int) =~= held.push(known@[j - 1]@));
            }
            assert(lists::texts(known@).take(j as int) =~= lists::texts(known@));
        } else {
            proof {
                assert(!mentions(so_far, k));
                lemma_tags_of_unmentioned(so_far, k);
            }
        }
        extend_tags(&mut tags, &item.tags, Ghost(before));
        gathered.insert(key, tags);
        proof {
            assert(next.drop_last() =~= so_far);
            assert(next.last() == item@);
            assert forall|x: (Seq<char>, Seq<char>)| #[trigger]
                gathered.map().contains_key(x) <==> mentions(next, x) by {
                assert(old_map.contains_key(x) <==> mentions(so_far, x));
                if mentions(so_far, x) {
                    let m = choose|m: int| 0 <= m < so_far.len() && (#[trigger] so_far[m]).key == x;
                    assert(next[m].key == x);
                }
                if x == k {
                    assert(next[i as int].key == x);
                }
                if mentions(next, x) && x != k {
                    let m = choose|m: int| 0 <= m < next.len() && (#[trigger] next[m]).key == x;
                    assert(so_far[m].key == x);
                }
            }
            assert forall|x: (Seq<char>, Seq<char>)| #[trigger]
                gathered.map().contains_key(x) implies lists::texts(gathered.map()[x]@)
                == lists::distinct(tags_of(next, x)) by {
                if x != k {
                    assert(old_map.contains_key(x));
                }
            }
        }
        i = i + 1;
    }
    assert(all.take(i as int) =~= all);
    gathered
}

proof fn lemma_tags_of_unmentioned(items: Seq<TagsView>, key: (Seq<char>, Seq<char>))
    requires
        !mentions(items, key),
    ensures
        tags_of(items, key) == Seq::<Seq<char>>::empty(),
    decreases items.len(),
{
    if items.len() > 0 {
        let rest = items.drop_last();
        assert(items[items.len() - 1].key != key);
        if mentions(rest, key) {
            let m = choose|m: int| 0 <= m < rest.len() && (#[trigger] rest[m]).key == key;
            assert(items[m].key == key);
        }
        lemma_tags_of_unmentioned(rest, key);
    }
}

/// The schema of a logical table.
#[derive(Debug)]
pub struct LogicalSchema {
    pub name: String,
    pub columns: Vec<ColumnSchema>,
}

/// What a [`LogicalSchema`] says.
pub struct LogicalSchemaView {
    pub name: Seq<char>,
    pub columns: Seq<ColumnSchemaView>,
}

impl View for LogicalSchema {
    type V = LogicalSchemaView;

    open spec fn view(&self) -> LogicalSchemaView {
        LogicalSchemaView {
            name: self.name@,
            columns: self.columns@.map_values(|c: ColumnSchema| c@),
        }
    }
}

/// The columns of a logical table: its tags, then the time and the value.
pub open spec fn logical_columns(tags: Seq<Seq<char>>) -> Seq<ColumnSchemaView> {
    tags.map_values(
        |tag: Seq<char>|
            ColumnSchemaView {
                column_name: tag,
                datatype: ColumnDataType::Text,
                semantic_type: SemanticType::Tag,
            },
    ).push(
        ColumnSchemaView {
            column_name: GREPTIME_TIMESTAMP@,
            datatype: ColumnDataType::TimestampMillisecond,
            semantic_type: SemanticType::Timestamp,
        },
    ).push(
        ColumnSchemaView {
            column_name: GREPTIME_VALUE@,
            datatype: ColumnDataType::Float64,
            semantic_type: SemanticType::Field,
        },
    )
}

/// The schemas of the logical tables of one physical table, in order.
pub open spec fn schemas_of(
    keys: Seq<(Seq<char>, Seq<char>)>,
    tags: Seq<Vec<String>>,
    physical: Seq<char>,
) -> Seq<LogicalSchemaView>
    decreases keys.len(),
{
    if keys.len() == 0 {
        Seq::empty()
    } else {
        let before = schemas_of(keys.drop_last(), tags, physical);
        if keys.last().0 == physical {
            before.push(
                LogicalSchemaView {
                    name: keys.last().1,
                    columns: logical_columns(lists::texts(tags[keys.len() - 1]@)),
                },
            )
        } else {
            before
        }
    }
}

/// What a list of schemas says.
pub open spec fn schemas_view(schemas: Seq<LogicalSchema>) -> Seq<LogicalSchemaView> {
    schemas.map_values(|s: LogicalSchema| s@)
}

/// `schemas` has the schemas of the logical tables of each physical table.
pub open spec fn describes_schemas(
    schemas: KeyedMap<String, Vec<LogicalSchema>>,
    keys: Seq<(Seq<char>, Seq<char>)>,
    tags: Seq<Vec<String>>,
) -> bool {
    &&& schemas.well_formed()
    &&& forall|physical: Seq<char>| #[trigger]
        schemas.map().contains_key(physical) <==> schemas_of(keys, tags, physical).len() > 0
    &&& forall|physical: Seq<char>| #[trigger]
        schemas.map().contains_key(physical) ==> schemas_view(schemas.map()[physical]@)
            == schemas_of(keys, tags, physical)
}

/// The schema of a logical table with the given tags.
fn logical_schema(name: &String, tags: &Vec<String>) -> (r: LogicalSchema)
    ensures
        r@ == (LogicalSchemaView { name: name@, columns: logical_columns(lists::texts(tags@)) }),
{
    let mut columns: Vec<ColumnSchema> = Vec::new();
    let mut i: usize = 0;
    let ghost expected = logical_columns(lists::texts(tags@));
    while i < tags.len()
        invariant
            i <= tags@.len(),
            expected == logical_columns(lists::texts(tags@)),
            columns@.len() == i,
            forall|k: int| 0 <= k < i ==> (#[trigger] columns@[k])@ == expected[k],
        decreases tags@.len() - i,
    {
        columns.push(
            ColumnSchema {
                column_name: tags[i].clone(),
                datatype: ColumnDataType::Text,
                semantic_type: SemanticType::Tag,
            },
        );
        i = i + 1;
    }
    columns.push(
        ColumnSchema {
            column_name: GREPTIME_TIMESTAMP.to_string(),
            datatype: ColumnDataType::TimestampMillisecond,
            semantic_type: SemanticType::Timestamp,
        },
    );
    columns.push(
        ColumnSchema {
            column_name: GREPTIME_VALUE.to_string(),
            datatype: ColumnDataType::Float64,
            semantic_type: SemanticType::Field,
        },
    );
    let r = LogicalSchema { name: name.clone(), columns };
    assert(r@.columns =~= expected);
    r
}

/// The schemas that logical tables with the given tags need, by physical table.
pub fn tags_to_logical_schemas(tags: &GatheredTags) -> (r: KeyedMap<String, Vec<LogicalSchema>>)
    requires
        tags.well_formed(),
    ensures
        describes_schemas(r, tags.spec_keys(), tags.values@),
{
    let ghost keys = tags.spec_keys();
    let mut schemas: KeyedMap<String, Vec<LogicalSchema>> = KeyedMap::new();
    let mut i: usize = 0;
    assert(keys.take(0) =~= Seq::<(Seq<char>, Seq<char>)>::empty());
    while i < tags.keys.len()
        invariant
            i <= tags.keys@.len(),
            tags.well_formed(),
            keys == tags.spec_keys(),
            describes_schemas(schemas, keys.take(i as int), tags.values@),
        decreases tags.keys@.len() - i,
    {
        let schema = logical_schema(&tags.keys[i].1, &tags.values[i]);
        let ghost so_far = keys.take(i as int);
        let ghost next = keys.take(i + 1);
        let ghost physical = tags.keys@[i as int].0@;
        let ghost before = schemas;
        assert(next.drop_last() =~= so_far);
        assert(next.last() == tags.keys@[i as int]@);
        match schemas.index_of(&tags.keys[i].0) {
            Some(at) => {
                let ghost held = schemas_view(schemas.values@[at as int]@);
                schemas.values[at].push(schema);
                proof {
                    assert(schemas.spec_keys() == before.spec_keys());
                    assert(schemas_view(schemas.values@[at as int]@) =~= held.push(schema@));
                    keyed_map::lemma_places_differ(schemas.spec_keys());
                    assert forall|p: Seq<char>| #[trigger] schemas.map().contains_key(p) implies (p
                        == physical ==> schemas.map()[p] == schemas.values@[at as int]) && (p
                        != physical ==> schemas.map()[p] == before.map()[p]) by {}
                }
            },
            None => {
                let mut first: Vec<LogicalSchema> = Vec::new();
                first.push(schema);
                assert(schemas_view(first@) =~= Seq::<LogicalSchemaView>::empty().push(schema@));
                assert(!before.map().contains_key(physical));
                assert(schemas_of(so_far, tags.values@, physical)
                    =~= Seq::<LogicalSchemaView>::empty());
                schemas.insert(tags.keys[i].0.clone(), first);
            },
        }
        proof {
            assert forall|p: Seq<char>| #[trigger] schemas.map().contains_key(p) <==> schemas_of(
                next,
                tags.values@,
                p,
            ).len() > 0 by {
                assert(before.map().contains_key(p) <==> schemas_of(so_far, tags.values@, p).len()
                    > 0);
            }
            assert forall|p: Seq<char>| #[trigger] schemas.map().contains_key(p) implies schemas_view(
                schemas.map()[p]@,
            ) == schemas_of(next, tags.values@, p) by {
                if before.map().contains_key(p) {
                    assert(schemas_view(before.map()[p]@) == schemas_of(so_far, tags.values@, p));
                }
            }
        }
        i = i + 1;
    }
    assert(keys.take(i as int) =~= keys);
    schemas
}

/// The schemas are those of logical tables with the gathered tags of some rows.
pub open spec fn schemas_for(
    schemas: KeyedMap<String, Vec<LogicalSchema>>,
    gathered: GatheredTags,
    items: Seq<TagsView>,
) -> bool {
    gathers(gathered, items) && describes_schemas(
        schemas,
        gathered.spec_keys(),
        gathered.values@,
    )
}

/// The schemas that logical tables must have, by physical table, before rows with the given
/// tags are written to them.
pub fn create_or_alter_physical_tables(items: &Vec<TableTags>) -> (r: KeyedMap<
    String,
    Vec<LogicalSchema>,
>)
    ensures
        exists|gathered: GatheredTags| #[trigger]
            schemas_for(r, gathered, items_view(items@)),
{
    let gathered = gather_tags(items);
    let schemas = tags_to_logical_schemas(&gathered);
    assert(schemas_for(schemas, gathered, items_view(items@)));
    schemas
}

/// A tag is among those of a logical table where some item of that table has it.
proof fn lemma_tags_of(items: Seq<TagsView>, key: (Seq<char>, Seq<char>), tag: Seq<char>)
    ensures
        tags_of(items, key).contains(tag) <==> exists|i: int|
            0 <= i < items.len() && (#[trigger] items[i]).key == key && items[i].tags.contains(tag),
    decreases items.len(),
{
    if items.len() > 0 {
        let rest = items.drop_last();
        let last = items.last();
        lemma_tags_of(rest, key, tag);
        let before = tags_of(rest, key);
        let all = tags_of(items, key);
        if exists|i: int|
            0 <= i < items.len() && (#[trigger] items[i]).key == key && items[i].tags.contains(
                tag,
            ) {
            let i = choose|i: int|
                0 <= i < items.len() && (#[trigger] items[i]).key == key && items[i].tags.contains(
                    tag,
                );
            if i < rest.len() {
                assert(rest[i].key == key);
                let m = choose|m: int| 0 <= m < before.len() && before[m] == tag;
                assert(all[m] == tag);
            } else {
                let m = choose|m: int| 0 <= m < last.tags.len() && last.tags[m] == tag;
                assert(all[before.len() + m] == tag);
            }
        }
        if all.contains(tag) {
            let m = choose|m: int| 0 <= m < all.len() && all[m] == tag;
            if m < before.len() {
                assert(before[m] == tag);
                let i = choose|i: int|
                    0 <= i < rest.len() && (#[trigger] rest[i]).key == key
                        && rest[i].tags.contains(tag);
                assert(items[i].key == key);
            } else {
                assert(last.tags[m - before.len()] == tag);
                assert(items[items.len() - 1].key == key);
            }
        }
    }
}

/// The schema of each key of a physical table is among those of that table.
proof fn lemma_schema_place(
    keys: Seq<(Seq<char>, Seq<char>)>,
    tags: Seq<Vec<String>>,
    g: int,
) -> (k: int)
    requires
        0 <= g < keys.len(),
    ensures
        0 <= k < schemas_of(keys, tags, keys[g].0).len(),
        schemas_of(keys, tags, keys[g].0)[k].name == keys[g].1,
        schemas_of(keys, tags, keys[g].0)[k].columns == logical_columns(lists::texts(tags[g]@)),
    decreases keys.len(),
{
    let rest = keys.drop_last();
    if g == keys.len() - 1 {
        schemas_of(rest, tags, keys[g].0).len() as int
    } else {
        lemma_schema_place(rest, tags, g)
    }
}

/// Each schema of a physical table is that of a key of the table, later schemas of later keys.
proof fn lemma_schema_keys(
    keys: Seq<(Seq<char>, Seq<char>)>,
    tags: Seq<Vec<String>>,
    physical: Seq<char>,
) -> (at: Seq<int>)
    ensures
        at.len() == schemas_of(keys, tags, physical).len(),
        forall|k: int|
            0 <= k < at.len() ==> 0 <= #[trigger] at[k] < keys.len() && keys[at[k]].0 == physical
                && schemas_of(keys, tags, physical)[k].name == keys[at[k]].1 && schemas_of(
                keys,
                tags,
                physical,
            )[k].columns == logical_columns(lists::texts(tags[at[k]]@)),
        forall|j: int, k: int| 0 <= j < k < at.len() ==> #[trigger] at[j] < #[trigger] at[k],
    decreases keys.len(),
{
    if keys.len() == 0 {
        Seq::empty()
    } else {
        let before = lemma_schema_keys(keys.drop_last(), tags, physical);
        if physical == keys.last().0 {
            before.push(keys.len() - 1)
        } else {
            before
        }
    }
}

/// No logical table is left out. For each item the schemas of its physical table have one, and
/// one alone, of the name of its logical table. It has a column of text for each tag of the
/// item, and its last columns are the time and the value. Gives the place of that schema.
pub proof fn law_every_table_has_its_schema(
    schemas: KeyedMap<String, Vec<LogicalSchema>>,
    gathered: GatheredTags,
    items: Seq<TableTags>,
    i: int,
) -> (k: int)
    requires
        schemas_for(schemas, gathered, items_view(items)),
        0 <= i < items.len(),
    ensures
        schemas.map().contains_key(items[i].physical_table@),
        ({
            let list = schemas.map()[items[i].physical_table@]@;
            let columns = list[k].columns@;
            let n = columns.len() as int;
            &&& 0 <= k < list.len()
            &&& list[k].name@ == items[i].logical_table@
            &&& forall|m: int|
                0 <= m < list.len() && (#[trigger] list[m]).name@ == items[i].logical_table@ ==> m
                    == k
            &&& n >= 2
            &&& columns[n - 2].column_name@ == "greptime_timestamp"@
            &&& columns[n - 2].datatype is TimestampMillisecond
            &&& columns[n - 2].semantic_type is Timestamp
            &&& columns[n - 1].column_name@ == "greptime_value"@
            &&& columns[n - 1].datatype is Float64
            &&& columns[n - 1].semantic_type is Field
            &&& forall|t: int|
                0 <= t < items[i].tags@.len() ==> Seq::new(
                    (n - 2) as nat,
                    |c: int| columns[c].column_name@,
                ).contains((#[trigger] items[i].tags@[t])@)
            &&& forall|c: int|
                0 <= c < n - 2 ==> (#[trigger] columns[c]).datatype is Text
                    && columns[c].semantic_type is Tag
            &&& forall|b: int, c: int|
                0 <= b < c < n - 2 ==> (#[trigger] columns[b]).column_name@ != (
                #[trigger] columns[c]).column_name@
        }),
{
    let views = items_view(items);
    let key = (items[i].physical_table@, items[i].logical_table@);
    let keys = gathered.spec_keys();
    let physical = key.0;
    assert(views[i].key == key);
    assert(mentions(views, key));
    assert(gathered.map().contains_key(key));
    let g = choose|g: int| 0 <= g < keys.len() && keys[g] == key;
    keyed_map::lemma_places_differ(keys);
    let k = lemma_schema_place(keys, gathered.values@, g);
    assert(schemas.map().contains_key(physical));
    let list = schemas.map()[physical]@;
    let all = schemas_of(keys, gathered.values@, physical);
    assert(schemas_view(list) == all);
    assert forall|m: int| 0 <= m < list.len() implies #[trigger] all[m] == list[m]@ by {}
    let at = lemma_schema_keys(keys, gathered.values@, physical);
    assert(all[k] == list[k]@);
    assert forall|m: int|
        0 <= m < list.len() && (#[trigger] list[m]).name@ == items[i].logical_table@ implies m
        == k by {
        assert(all[m] == list[m]@);
        assert(keys[at[m]] == key);
        assert(keys[at[k]] == key);
        if m < k {
            assert(at[m] < at[k]);
        } else if k < m {
            assert(at[k] < at[m]);
        }
    }
    let columns = list[k].columns@;
    let n = columns.len() as int;
    let tags = lists::texts(gathered.values@[g]@);
    let wanted = logical_columns(tags);
    assert(gathered.map()[key] == gathered.values@[g]);
    assert(tags == lists::distinct(tags_of(views, key)));
    lists::lemma_distinct(tags_of(views, key));
    assert(list[k]@.columns == wanted);
    assert(list[k]@.columns.len() == columns.len());
    assert(wanted.len() == tags.len() + 2);
    assert forall|c: int| 0 <= c < n implies #[trigger] wanted[c] == columns[c]@ by {}
    assert(wanted[n - 2] == columns[n - 2]@);
    assert(wanted[n - 1] == columns[n - 1]@);
    let names = Seq::new((n - 2) as nat, |c: int| columns[c].column_name@);
    assert forall|t: int| 0 <= t < items[i].tags@.len() implies names.contains(
        (#[trigger] items[i].tags@[t])@,
    ) by {
        let tag = items[i].tags@[t]@;
        assert(views[i].tags[t] == tag);
        assert(views[i].tags.contains(tag));
        lemma_tags_of(views, key, tag);
        assert(tags.contains(tag));
        let c = choose|c: int| 0 <= c < tags.len() && tags[c] == tag;
        assert(wanted[c].column_name == tag);
        assert(columns[c]@ == wanted[c]);
        assert(names[c] == tag);
    }
    assert forall|c: int| 0 <= c < n - 2 implies (#[trigger] columns[c]).datatype is Text
        && columns[c].semantic_type is Tag && columns[c].column_name@ == tags[c] by {
        assert(wanted[c] == columns[c]@);
    }
    assert forall|b: int, c: int| 0 <= b < c < n - 2 implies (
    #[trigger] columns[b]).column_name@ != (#[trigger] columns[c]).column_name@ by {
        assert(tags[b] != tags[c]);
    }
    k
}

/// No logical table is made up: each schema is that of an item's table, and each of its columns
/// of text is a tag that an item of that table has. Gives the item.
pub proof fn law_every_schema_has_its_table(
    schemas: KeyedMap<String, Vec<LogicalSchema>>,
    gathered: GatheredTags,
    items: Seq<TableTags>,
    physical: Seq<char>,
    k: int,
) -> (i: int)
    requires
        schemas_for(schemas, gathered, items_view(items)),
        schemas.map().contains_key(physical),
        0 <= k < schemas.map()[physical]@.len(),
    ensures
        0 <= i < items.len(),
        items[i].physical_table@ == physical,
        items[i].logical_table@ == schemas.map()[physical]@[k].name@,
        forall|c: int|
            0 <= c < schemas.map()[physical]@[k].columns@.len() - 2 ==> (
            #[trigger] schemas.map()[physical]@[k].columns@[c]).semantic_type is Tag && exists|m: int|
                0 <= m < items.len() && items[m].physical_table@ == physical
                    && items[m].logical_table@ == schemas.map()[physical]@[k].name@ && (
                #[trigger] items[m]).tags@.map_values(|t: String| t@).contains(
                    schemas.map()[physical]@[k].columns@[c].column_name@,
                ),
{
    let views = items_view(items);
    let keys = gathered.spec_keys();
    let list = schemas.map()[physical]@;
    let all = schemas_of(keys, gathered.values@, physical);
    assert(schemas_view(list) == all);
    assert(all[k] == list[k]@);
    let at = lemma_schema_keys(keys, gathered.values@, physical);
    let g = at[k];
    let key = keys[g];
    keyed_map::lemma_places_differ(keys);
    assert(keys.contains(key));
    assert(gathered.map().contains_key(key));
    assert(mentions(views, key));
    let i = choose|i: int| 0 <= i < views.len() && (#[trigger] views[i]).key == key;
    assert(views[i] == items[i]@);
    let tags = lists::texts(gathered.values@[g]@);
    let wanted = logical_columns(tags);
    assert(gathered.map()[key] == gathered.values@[g]);
    lists::lemma_distinct(tags_of(views, key));
    let columns = list[k].columns@;
    assert(list[k]@.columns == wanted);
    assert(list[k]@.columns.len() == columns.len());
    assert(wanted.len() == tags.len() + 2);
    assert forall|c: int| 0 <= c < columns.len() - 2 implies (
    #[trigger] columns[c]).semantic_type is Tag && exists|m: int|
        0 <= m < items.len() && items[m].physical_table@ == physical && items[m].logical_table@
            == list[k].name@ && (#[trigger] items[m]).tags@.map_values(|t: String| t@).contains(
            columns[c].column_name@,
        ) by {
        assert(wanted[c] == columns[c]@);
        let tag = tags[c];
        assert(tags.contains(tag));
        lemma_tags_of(views, key, tag);
        let m = choose|m: int|
            0 <= m < views.len() && (#[trigger] views[m]).key == key && views[m].tags.contains(tag);
        assert(views[m] == items[m]@);
        assert(items[m].tags@.map_values(|t: String| t@) =~= views[m].tags);
    }
    i
}

/// The number of schemas of all physical tables.
pub open spec fn schemas_in_all(lists: Seq<Vec<LogicalSchema>>) -> nat
    decreases lists.len(),
{
    if lists.len() == 0 {
        0
    } else {
        schemas_in_all(lists.drop_last()) + lists.last()@.len()
    }
}

/// The number of schemas of the first physical tables, one key more taken, is one more where
/// the key is of one of them.
spec fn counted(
    keys: Seq<(Seq<char>, Seq<char>)>,
    tags: Seq<Vec<String>>,
    physicals: Seq<Seq<char>>,
) -> nat
    decreases physicals.len(),
{
    if physicals.len() == 0 {
        0
    } else {
        counted(keys, tags, physicals.drop_last()) + schemas_of(keys, tags, physicals.last()).len()
    }
}

proof fn lemma_counted_step(
    keys: Seq<(Seq<char>, Seq<char>)>,
    tags: Seq<Vec<String>>,
    physicals: Seq<Seq<char>>,
)
    requires
        keys.len() > 0,
        physicals.no_duplicates(),
    ensures
        counted(keys, tags, physicals) == counted(keys.drop_last(), tags, physicals) + (
        if physicals.contains(keys.last().0) {
            1nat
        } else {
            0
        }),
    decreases physicals.len(),
{
    if physicals.len() > 0 {
        let rest = physicals.drop_last();
        let p = keys.last().0;
        lemma_counted_step(keys, tags, rest);
        if rest.contains(p) {
            let m = choose|m: int| 0 <= m < rest.len() && rest[m] == p;
            assert(physicals[m] == p);
        }
        if physicals.contains(p) && physicals.last() != p {
            let m = choose|m: int| 0 <= m < physicals.len() && physicals[m] == p;
            assert(rest[m] == p);
        }
        if physicals.last() == p {
            assert(physicals[physicals.len() - 1] == p);
            if rest.contains(p) {
                let m = choose|m: int| 0 <= m < rest.len() && rest[m] == p;
                assert(physicals[m] == physicals[physicals.len() - 1]);
            }
        }
    }
}

proof fn lemma_counted(
    keys: Seq<(Seq<char>, Seq<char>)>,
    tags: Seq<Vec<String>>,
    physicals: Seq<Seq<char>>,
)
    requires
        physicals.no_duplicates(),
        forall|g: int| 0 <= g < keys.len() ==> physicals.contains((#[trigger] keys[g]).0),
    ensures
        counted(keys, tags, physicals) == keys.len(),
    decreases keys.len(),
{
    if keys.len() == 0 {
        lemma_counted_none(tags, physicals);
        assert(keys =~= Seq::<(Seq<char>, Seq<char>)>::empty());
    } else {
        let rest = keys.drop_last();
        assert forall|g: int| 0 <= g < rest.len() implies physicals.contains(
            (#[trigger] rest[g]).0,
        ) by {
            assert(keys[g] == rest[g]);
        }
        lemma_counted(rest, tags, physicals);
        lemma_counted_step(keys, tags, physicals);
        assert(physicals.contains(keys[keys.len() - 1].0));
    }
}

proof fn lemma_counted_none(tags: Seq<Vec<String>>, physicals: Seq<Seq<char>>)
    ensures
        counted(Seq::empty(), tags, physicals) == 0,
    decreases physicals.len(),
{
    if physicals.len() > 0 {
        lemma_counted_none(tags, physicals.drop_last());
    }
}

proof fn lemma_counted_lists(
    schemas: KeyedMap<String, Vec<LogicalSchema>>,
    keys: Seq<(Seq<char>, Seq<char>)>,
    tags: Seq<Vec<String>>,
    n: int,
)
    requires
        describes_schemas(schemas, keys, tags),
        0 <= n <= schemas.keys@.len(),
    ensures
        schemas_in_all(schemas.values@.take(n)) == counted(keys, tags, schemas.spec_keys().take(n)),
    decreases n,
{
    let physicals = schemas.spec_keys();
    if n > 0 {
        lemma_counted_lists(schemas, keys, tags, n - 1);
        assert(schemas.values@.take(n).drop_last() =~= schemas.values@.take(n - 1));
        assert(physicals.take(n).drop_last() =~= physicals.take(n - 1));
        keyed_map::lemma_places_differ(physicals);
        let p = physicals[n - 1];
        assert(physicals.contains(p));
        assert(schemas.map().contains_key(p));
        assert(schemas.map()[p] == schemas.values@[n - 1]);
        assert(schemas_view(schemas.map()[p]@).len() == schemas.map()[p]@.len());
    }
}

/// The schemas of all physical tables together are as many as the pairs of a physical and a
/// logical table that tags were gathered for.
pub proof fn law_schemas_counted(
    schemas: KeyedMap<String, Vec<LogicalSchema>>,
    gathered: GatheredTags,
    items: Seq<TableTags>,
)
    requires
        schemas_for(schemas, gathered, items_view(items)),
    ensures
        schemas_in_all(schemas.values@) == gathered.keys@.len(),
{
    let keys = gathered.spec_keys();
    let tags = gathered.values@;
    let physicals = schemas.spec_keys();
    assert forall|g: int| 0 <= g < keys.len() implies physicals.contains((#[trigger] keys[g]).0) by {
        let k = lemma_schema_place(keys, tags, g);
        assert(schemas.map().contains_key(keys[g].0));
    }
    lemma_counted(keys, tags, physicals);
    lemma_counted_lists(schemas, keys, tags, physicals.len() as int);
    assert(physicals.take(physicals.len() as int) =~= physicals);
    assert(schemas.values@.take(physicals.len() as int) =~= schemas.values@);
}

/// What is said of a schema, and of the tags of a table, is what they are: each column with its
/// name, its type and what it is for, and each tag, at its place.
pub proof fn law_schema_as_it_is(schema: LogicalSchema, item: TableTags, i: int)
    ensures
        schema@.name == schema.name@,
        schema@.columns.len() == schema.columns@.len(),
        0 <= i < schema.columns@.len() ==> schema@.columns[i].column_name
            == schema.columns@[i].column_name@ && schema@.columns[i].datatype
            == schema.columns@[i].datatype && schema@.columns[i].semantic_type
            == schema.columns@[i].semantic_type,
        item@.key.0 == item.physical_table@,
        item@.key.1 == item.logical_table@,
        item@.tags.len() == item.tags@.len(),
        0 <= i < item.tags@.len() ==> item@.tags[i] == item.tags@[i]@,
{
}

/// [`create_or_alter_physical_tables`] gives every logical table that rows were given for exactly
/// one schema, under its physical table and with its name; and the schema has every tag of its
/// rows, then the time and the value. Gives the place of the schema.
pub proof fn law_table_gets_its_schema(
    items: Vec<TableTags>,
    r: KeyedMap<String, Vec<LogicalSchema>>,
    i: int,
) -> (k: int)
    requires
        call_ensures(create_or_alter_physical_tables, (&items,), r),
        0 <= i < items@.len(),
    ensures
        r.map().contains_key(items@[i].physical_table@),
        ({
            let list = r.map()[items@[i].physical_table@]@;
            let columns = list[k].columns@;
            let n = columns.len() as int;
            &&& 0 <= k < list.len()
            &&& list[k].name@ == items@[i].logical_table@
            &&& forall|m: int|
                0 <= m < list.len() && (#[trigger] list[m]).name@ == items@[i].logical_table@ ==> m
                    == k
            &&& n >= 2
            &&& columns[n - 2].column_name@ == "greptime_timestamp"@
            &&& columns[n - 1].column_name@ == "greptime_value"@
            &&& forall|t: int|
                0 <= t < items@[i].tags@.len() ==> Seq::new(
                    (n - 2) as nat,
                    |c: int| columns[c].column_name@,
                ).contains((#[trigger] items@[i].tags@[t])@)
        }),
{
    let gathered = choose|gathered: GatheredTags| #[trigger]
        schemas_for(r, gathered, items_view(items@));
    law_every_table_has_its_schema(r, gathered, items@, i)
}

/// Each schema that [`create_or_alter_physical_tables`] gives is of a logical table that rows were
/// given for. Gives the place of such rows.
pub proof fn law_schema_is_of_a_table(
    items: Vec<TableTags>,
    r: KeyedMap<String, Vec<LogicalSchema>>,
    physical: Seq<char>,
    k: int,
) -> (i: int)
    requires
        call_ensures(create_or_alter_physical_tables, (&items,), r),
        r.map().contains_key(physical),
        0 <= k < r.map()[physical]@.len(),
    ensures
        0 <= i < items@.len(),
        items@[i].physical_table@ == physical,
        items@[i].logical_table@ == r.map()[physical]@[k].name@,
{
    let gathered = choose|gathered: GatheredTags| #[trigger]
        schemas_for(r, gathered, items_view(items@));
    law_every_schema_has_its_table(r, gathered, items@, physical, k)
}

/// [`tags_to_logical_schemas`] gives as many schemas as there are logical tables, and each of them
/// one under its physical table, with its name and its tags, in order. Gives the place of the
/// schema.
pub proof fn law_gathered_table_gets_its_schema(
    tags: GatheredTags,
    r: KeyedMap<String, Vec<LogicalSchema>>,
    i: int,
) -> (k: int)
    requires
        tags.well_formed(),
        call_ensures(tags_to_logical_schemas, (&tags,), r),
        0 <= i < tags.keys@.len(),
    ensures
        r.map().contains_key(tags.keys@[i].0@),
        ({
            let list = r.map()[tags.keys@[i].0@]@;
            let given = tags.values@[i]@;
            let columns = list[k].columns@;
            &&& 0 <= k < list.len()
            &&& list[k].name@ == tags.keys@[i].1@
            &&& columns.len() == given.len() + 2
            &&& forall|t: int|
                0 <= t < given.len() ==> (#[trigger] columns[t]).column_name@ == given[t]@
        }),
{
    let keys = tags.spec_keys();
    let physical = tags.keys@[i].0@;
    assert(keys[i] == (tags.keys@[i].0@, tags.keys@[i].1@));
    let k = lemma_gathered_place(keys, tags.values@, i);
    let schemas = schemas_of(keys, tags.values@, physical);
    assert(r.map().contains_key(physical));
    let list = r.map()[physical]@;
    assert(schemas_view(list) == schemas);
    assert(schemas_view(list)[k] == list[k]@);
    let view = list[k]@;
    let given = tags.values@[i]@;
    assert(view.columns == logical_columns(lists::texts(given)));
    assert(lists::texts(given).len() == given.len());
    assert(view.columns.len() == given.len() + 2);
    assert(view.columns.len() == list[k].columns@.len());
    assert forall|t: int| 0 <= t < given.len() implies (
    #[trigger] list[k].columns@[t]).column_name@ == given[t]@ by {
        assert(view.columns[t] == list[k].columns@[t]@);
        assert(lists::texts(given)[t] == given[t]@);
    }
    k
}

proof fn lemma_gathered_place(
    keys: Seq<(Seq<char>, Seq<char>)>,
    tags: Seq<Vec<String>>,
    i: int,
) -> (k: int)
    requires
        0 <= i < keys.len(),
    ensures
        0 <= k < schemas_of(keys, tags, keys[i].0).len(),
        schemas_of(keys, tags, keys[i].0)[k].name == keys[i].1,
        schemas_of(keys, tags, keys[i].0)[k].columns == logical_columns(
            lists::texts(tags[i]@),
        ),
    decreases keys.len(),
{
    let rest = keys.drop_last();
    if i == keys.len() - 1 {
        schemas_of(rest, tags, keys[i].0).len() as int
    } else {
        assert(rest[i] == keys[i]);
        lemma_gathered_place(rest, tags, i)
    }
}

} // verus!
