use vstd::prelude::*;
use crate::registry::{ReducerKind, Registry};
use crate::bucket::{Bucket, Reading, range_ok, buckets_ordered, flatten_buckets, tagged_readings, check_range, bucket_readings};

verus! {

/// Why a query was not answered.
#[derive(Debug, Clone, Copy, PartialEq, Eq, Structural)]
pub enum QueryError {
    /// Empty sensor identifier, `from > to`, or a bucket width that is not positive.
    Validation,
    /// No reducer is registered under the requested name.
    UnknownReducer,
    /// A value that has no place in an ordering (NaN) reached a reducer.
    InvalidValue,
    /// The store could not be read, or answered with rows outside the
    /// requested range or out of order.
    StoreUnavailable,
}

/// A client's request: aggregate one sensor's readings in `[from, to]`
/// into buckets of `bucket_width` seconds.
pub struct Query {
    pub sensor_id: String,
    pub reducer: String,
    pub bucket_width: i64,
    pub from: i64,
    pub to: i64,
}

/// A validated query: what to read from the store and how to reduce it.
pub struct QueryPlan {
    pub sensor_id: String,
    pub reducer: ReducerKind,
    pub bucket_width: i64,
    pub from: i64,
    pub to: i64,
}

/// The range and bucket parameters of a query are acceptable.
pub open spec fn params_valid(sensor_id: Seq<char>, bucket_width: int, from: int, to: int) -> bool {
    sensor_id.len() > 0 && from <= to && bucket_width > 0
}

impl QueryPlan {
    pub open spec fn wf(&self) -> bool {
        params_valid(self.sensor_id@, self.bucket_width as int, self.from as int, self.to as int)
    }
}

/// Checks a query before anything is read. An unknown reducer is reported
/// first; then the range and bucket parameters are checked.
pub fn plan_query(q: &Query, reg: &Registry) -> (r: Result<QueryPlan, QueryError>)
    ensures
        reg.spec_lookup(q.reducer@) is None <==> r == Err::<QueryPlan, QueryError>(
            QueryError::UnknownReducer,
        ),
        (reg.spec_lookup(q.reducer@) is Some && !params_valid(
            q.sensor_id@,
            q.bucket_width as int,
            q.from as int,
            q.to as int,
        )) <==> r == Err::<QueryPlan, QueryError>(QueryError::Validation),
        (reg.spec_lookup(q.reducer@) is Some && params_valid(
            q.sensor_id@,
            q.bucket_width as int,
            q.from as int,
            q.to as int,
        )) ==> r is Ok,
        r is Ok ==> {
            let p = r->Ok_0;
            &&& p.wf()
            &&& Some(p.reducer) == reg.spec_lookup(q.reducer@)
            &&& p.sensor_id@ == q.sensor_id@
            &&& p.bucket_width == q.bucket_width
            &&& p.from == q.from
            &&& p.to == q.to
        },
{
    let kind = match reg.lookup(&q.reducer) {
        Some(k) => k,
        None => {
            return Err(QueryError::UnknownReducer);
        },
    };
    if q.sensor_id.as_str().is_empty() || q.from > q.to || q.bucket_width <= 0 {
        return Err(QueryError::Validation);
    }
    Ok(
        QueryPlan {
            sensor_id: q.sensor_id.clone(),
            reducer: kind,
            bucket_width: q.bucket_width,
            from: q.from,
            to: q.to,
        },
    )
}

/// Turns what the store returned for a plan into the plan's buckets. Rows
/// outside the plan's range, or out of order, are refused.
pub fn plan_buckets(plan: &QueryPlan, rows: Vec<Reading>) -> (r: Result<Vec<Bucket>, QueryError>)
    requires
        plan.wf(),
    ensures
        range_ok(rows@, plan.from as int, plan.to as int) <==> r is Ok,
        r is Err ==> r->Err_0 == QueryError::StoreUnavailable,
        r is Ok ==> buckets_ordered(r->Ok_0@) && flatten_buckets(r->Ok_0@) == tagged_readings(
            rows@,
            plan.from as int,
            plan.bucket_width as int,
        ),
        rows@.len() == 0 ==> r is Ok && r->Ok_0@.len() == 0,
{
    let checked = check_range(rows, plan.from, plan.to)?;
    Ok(bucket_readings(&checked, plan.from, plan.to, plan.bucket_width))
}

} // verus!
