//! How long the steps of adding rows to batches took.

use vstd::prelude::*;

verus! {

/// The time spent in each step of adding rows, in nanoseconds.
#[derive(Clone, Copy, Debug, PartialEq, Eq, Structural)]
pub struct AppendMetrics {
    // append_rows_total
    //  |- append_inner
    //      |- create_row_iter
    //      |- encode_pk_inner
    //      |- encode_pk_tags
    //      |- push_row
    //          |- push_row_inner
    //              |- push_pk
    //              |- push_value
    //              |- push_timestamp
    pub append_rows_total: u64,
    pub append_inner: u64,
    pub encode_pk_inner: u64,
    pub encode_pk_tags: u64,
    pub create_row_iter: u64,
    pub push_row: u64,
    pub push_row_inner: u64,
    pub push_pk: u64,
    pub push_value: u64,
    pub push_timestamp: u64,
    pub physical_region_meta: u64,
}

impl Default for AppendMetrics {
    fn default() -> (r: Self)
        ensures
            r == (AppendMetrics {
                append_rows_total: 0,
                append_inner: 0,
                encode_pk_inner: 0,
                encode_pk_tags: 0,
                create_row_iter: 0,
                push_row: 0,
                push_row_inner: 0,
                push_pk: 0,
                push_value: 0,
                push_timestamp: 0,
                physical_region_meta: 0,
            }),
    {
        AppendMetrics {
            append_rows_total: 0,
            append_inner: 0,
            encode_pk_inner: 0,
            encode_pk_tags: 0,
            create_row_iter: 0,
            push_row: 0,
            push_row_inner: 0,
            push_pk: 0,
            push_value: 0,
            push_timestamp: 0,
            physical_region_meta: 0,
        }
    }
}

/// What a list of labelled times says.
pub open spec fn labelled(observations: Seq<(&'static str, u64)>) -> Seq<(Seq<char>, u64)> {
    observations.map_values(|o: (&'static str, u64)| (o.0@, o.1))
}

impl AppendMetrics {
    /// The time of each step with the step's name.
    pub open spec fn steps(self) -> Seq<(Seq<char>, u64)> {
        seq![
            ("append_inner"@, self.append_inner),
            ("encode_pk_inner"@, self.encode_pk_inner),
            ("encode_pk_tags"@, self.encode_pk_tags),
            ("push_row"@, self.push_row),
            ("create_row_iter"@, self.create_row_iter),
            ("push_row_inner"@, self.push_row_inner),
            ("push_pk"@, self.push_pk),
            ("push_timestamp"@, self.push_timestamp),
            ("push_value"@, self.push_value),
            ("physical_region_meta"@, self.physical_region_meta),
            ("append_rows_total"@, self.append_rows_total),
        ]
    }

    /// The times that are reported when the rows have been added, each under the name of
    /// its step.
    pub fn observations(&self) -> (r: Vec<(&'static str, u64)>)
        ensures
            labelled(r@) == self.steps(),
    {
        let mut r: Vec<(&'static str, u64)> = Vec::new();
        r.push(("append_inner", self.append_inner));
        r.push(("encode_pk_inner", self.encode_pk_inner));
        r.push(("encode_pk_tags", self.encode_pk_tags));
        r.push(("push_row", self.push_row));
        r.push(("create_row_iter", self.create_row_iter));
        r.push(("push_row_inner", self.push_row_inner));
        r.push(("push_pk", self.push_pk));
        r.push(("push_timestamp", self.push_timestamp));
        r.push(("push_value", self.push_value));
        r.push(("physical_region_meta", self.physical_region_meta));
        r.push(("append_rows_total", self.append_rows_total));
        assert(labelled(r@) =~= self.steps());
        r
    }
}

/// The time of each step is reported once, under the name of the step.
pub proof fn law_every_step_is_reported(metrics: AppendMetrics)
    ensures
        metrics.steps().len() == 11,
        metrics.steps().contains(("append_rows_total"@, metrics.append_rows_total)),
        metrics.steps().contains(("append_inner"@, metrics.append_inner)),
        metrics.steps().contains(("encode_pk_inner"@, metrics.encode_pk_inner)),
        metrics.steps().contains(("encode_pk_tags"@, metrics.encode_pk_tags)),
        metrics.steps().contains(("create_row_iter"@, metrics.create_row_iter)),
        metrics.steps().contains(("push_row"@, metrics.push_row)),
        metrics.steps().contains(("push_row_inner"@, metrics.push_row_inner)),
        metrics.steps().contains(("push_pk"@, metrics.push_pk)),
        metrics.steps().contains(("push_value"@, metrics.push_value)),
        metrics.steps().contains(("push_timestamp"@, metrics.push_timestamp)),
        metrics.steps().contains(("physical_region_meta"@, metrics.physical_region_meta)),
{
    let steps = metrics.steps();
    assert(steps[0] == ("append_inner"@, metrics.append_inner));
    assert(steps[1] == ("encode_pk_inner"@, metrics.encode_pk_inner));
    assert(steps[2] == ("encode_pk_tags"@, metrics.encode_pk_tags));
    assert(steps[3] == ("push_row"@, metrics.push_row));
    assert(steps[4] == ("create_row_iter"@, metrics.create_row_iter));
    assert(steps[5] == ("push_row_inner"@, metrics.push_row_inner));
    assert(steps[6] == ("push_pk"@, metrics.push_pk));
    assert(steps[7] == ("push_timestamp"@, metrics.push_timestamp));
    assert(steps[8] == ("push_value"@, metrics.push_value));
    assert(steps[9] == ("physical_region_meta"@, metrics.physical_region_meta));
    assert(steps[10] == ("append_rows_total"@, metrics.append_rows_total));
}

} // verus!
