use vstd::prelude::*;
use vstd::arithmetic::div_mod::{lemma_fundamental_div_mod, lemma_mod_bound, lemma_div_is_ordered};
use vstd::arithmetic::mul::lemma_mul_inequality;

verus! {

/// One stored reading of a sensor, as the store hands it back.
#[derive(Debug, Clone, Copy, PartialEq, Eq, Structural)]
pub struct Reading {
    pub timestamp: i64,
    /// Bit pattern of the `f64` light level.
    pub level_bits: u64,
}

/// A non-empty group of readings: those whose timestamps fall in
/// `[start, start + width)`.
pub struct Bucket {
    pub start: i64,
    pub values: Vec<u64>,
}

/// Every reading lies in `[from, to]`, and timestamps never decrease.
pub open spec fn range_ok(rs: Seq<Reading>, from: int, to: int) -> bool {
    &&& forall|i: int| 0 <= i < rs.len() ==> from <= #[trigger] rs[i].timestamp <= to
    &&& forall|i: int, j: int|
        0 <= i < j < rs.len() ==> #[trigger] rs[i].timestamp <= #[trigger] rs[j].timestamp
}

/// The start of the bucket that holds time `t`: bucket `k` covers
/// `[from + k * w, from + (k + 1) * w)`.
pub open spec fn bucket_start(t: int, from: int, w: int) -> int {
    from + ((t - from) / w) * w
}

/// Each level of `vs`, tagged with `start`.
pub open spec fn tag(start: int, vs: Seq<u64>) -> Seq<(int, u64)> {
    vs.map_values(|v: u64| (start, v))
}

/// The levels of all buckets in order, each tagged with its bucket's start.
pub open spec fn flatten_buckets(bs: Seq<Bucket>) -> Seq<(int, u64)>
    decreases bs.len(),
{
    if bs.len() == 0 {
        Seq::empty()
    } else {
        flatten_buckets(bs.drop_last()) + tag(bs.last().start as int, bs.last().values@)
    }
}

/// Each reading's level, tagged with the start of the bucket it falls in.
pub open spec fn tagged_readings(rs: Seq<Reading>, from: int, w: int) -> Seq<(int, u64)> {
    rs.map_values(|r: Reading| (bucket_start(r.timestamp as int, from, w), r.level_bits))
}

/// Bucket starts ascend strictly and no bucket is empty.
pub open spec fn buckets_ordered(bs: Seq<Bucket>) -> bool {
    &&& forall|i: int| 0 <= i < bs.len() ==> (#[trigger] bs[i]).values@.len() > 0
    &&& forall|i: int, j: int| 0 <= i < j < bs.len() ==> #[trigger] bs[i].start < #[trigger] bs[j].start
}

proof fn lemma_bucket_start_bounds(t: int, from: int, w: int)
    requires
        from <= t,
        w > 0,
    ensures
        from <= bucket_start(t, from, w) <= t,
        t < bucket_start(t, from, w) + w,
{
    let d = t - from;
    lemma_fundamental_div_mod(d, w);
    lemma_mod_bound(d, w);
    assert(d / w >= 0) by {
        lemma_div_is_ordered(0, d, w);
    }
    assert((d / w) * w == w * (d / w)) by (nonlinear_arith);
    assert((d / w) * w >= 0) by (nonlinear_arith)
        requires
            d / w >= 0,
            w > 0,
    ;
}

proof fn lemma_bucket_start_monotone(t1: int, t2: int, from: int, w: int)
    requires
        from <= t1 <= t2,
        w > 0,
    ensures
        bucket_start(t1, from, w) <= bucket_start(t2, from, w),
{
    lemma_div_is_ordered(t1 - from, t2 - from, w);
    lemma_mul_inequality((t1 - from) / w, (t2 - from) / w, w);
}

/// The start of the bucket that holds time `t`.
fn start_of(t: i64, from: i64, w: i64) -> (s: i64)
    requires
        from <= t,
        w > 0,
    ensures
        s == bucket_start(t as int, from as int, w as int),
{
    proof {
        lemma_bucket_start_bounds(t as int, from as int, w as int);
    }
    let d: i128 = t as i128 - from as i128;
    let m: i128 = d % (w as i128);
    proof {
        lemma_fundamental_div_mod(d as int, w as int);
        assert(((d as int) / (w as int)) * (w as int) == (w as int) * ((d as int) / (w as int))) by (nonlinear_arith);
    }
    (t as i128 - m) as i64
}

/// Accepts what the store returned for `[from, to]` only if every row lies in
/// that range and timestamps never decrease.
pub fn check_range(rows: Vec<Reading>, from: i64, to: i64) -> (r: Result<Vec<Reading>, crate::query::QueryError>)
    ensures
        range_ok(rows@, from as int, to as int) <==> r is Ok,
        r is Ok ==> r->Ok_0@ == rows@,
        r is Err ==> r->Err_0 == crate::query::QueryError::StoreUnavailable,
{
    let mut i: usize = 0;
    while i < rows.len()
        invariant
            i <= rows@.len(),
            range_ok(rows@.take(i as int), from as int, to as int),
        decreases rows@.len() - i,
    {
        let t = rows[i].timestamp;
        if t < from || t > to || (i > 0 && rows[i - 1].timestamp > t) {
            assert(!range_ok(rows@, from as int, to as int)) by {
                if i > 0 && rows@[i - 1].timestamp > t {
                    assert(rows@[i - 1].timestamp > rows@[i as int].timestamp);
                }
            }
            return Err(crate::query::QueryError::StoreUnavailable);
        }
        proof {
            let p = rows@.take(i as int + 1);
            assert forall|a: int, b: int| 0 <= a < b < p.len() implies #[trigger] p[a].timestamp
                <= #[trigger] p[b].timestamp by {
                if b == i {
                    if a < i - 1 {
                        assert(rows@.take(i as int)[a].timestamp <= rows@.take(i as int)[i - 1].timestamp);
                    }
                } else {
                    assert(rows@.take(i as int)[a].timestamp <= rows@.take(i as int)[b].timestamp);
                }
            }
            assert forall|a: int| 0 <= a < p.len() implies from <= #[trigger] p[a].timestamp <= to by {
                if a < i {
                    assert(rows@.take(i as int)[a] == p[a]);
                }
            }
        }
        i = i + 1;
    }
    assert(rows@.take(rows@.len() as int) =~= rows@);
    Ok(rows)
}

/// Groups readings into buckets of width `w` aligned to `from`, in order,
/// leaving out buckets that would be empty.
pub fn bucket_readings(readings: &Vec<Reading>, from: i64, to: i64, w: i64) -> (bs: Vec<Bucket>)
    requires
        w > 0,
        range_ok(readings@, from as int, to as int),
    ensures
        buckets_ordered(bs@),
        flatten_buckets(bs@) == tagged_readings(readings@, from as int, w as int),
        readings@.len() == 0 ==> bs@.len() == 0,
{
    let mut out: Vec<Bucket> = Vec::new();
    let mut cur_start: i64 = from;
    let mut cur: Vec<u64> = Vec::new();
    let mut j: usize = 0;
    while j < readings.len()
        invariant
            j <= readings@.len(),
            w > 0,
            range_ok(readings@, from as int, to as int),
            buckets_ordered(out@),
            flatten_buckets(out@) + tag(cur_start as int, cur@) == tagged_readings(
                readings@.take(j as int),
                from as int,
                w as int,
            ),
            (cur@.len() == 0) == (j == 0),
            j == 0 ==> out@.len() == 0,
            j > 0 ==> cur_start == bucket_start(readings@[j - 1].timestamp as int, from as int, w as int),
            j > 0 ==> forall|i: int| 0 <= i < out@.len() ==> #[trigger] out@[i].start < cur_start,
        decreases readings@.len() - j,
    {
        let r = readings[j];
        let s = start_of(r.timestamp, from, w);
        proof {
            if j > 0 {
                lemma_bucket_start_monotone(
                    readings@[j - 1].timestamp as int,
                    r.timestamp as int,
                    from as int,
                    w as int,
                );
            }
            assert(readings@.take(j as int + 1) =~= readings@.take(j as int).push(r));
            assert(tagged_readings(readings@.take(j as int + 1), from as int, w as int) =~= tagged_readings(
                readings@.take(j as int),
                from as int,
                w as int,
            ).push((s as int, r.level_bits)));
        }
        if j > 0 && s != cur_start {
            let ghost before = out@;
            let ghost vals = cur@;
            let b = Bucket { start: cur_start, values: cur };
            out.push(b);
            cur = Vec::new();
            proof {
                assert(out@.drop_last() =~= before);
                assert(flatten_buckets(out@) == flatten_buckets(before) + tag(cur_start as int, vals));
                assert(tag(s as int, cur@) =~= Seq::<(int, u64)>::empty());
                assert(flatten_buckets(out@) + tag(s as int, cur@) =~= flatten_buckets(out@));
            }
        }
        let ghost prev = cur@;
        cur_start = s;
        cur.push(r.level_bits);
        proof {
            assert(tag(cur_start as int, cur@) =~= tag(cur_start as int, prev).push((s as int, r.level_bits)));
            assert(forall|i: int| 0 <= i < out@.len() ==> #[trigger] out@[i].start < cur_start);
        }
        j = j + 1;
    }
    if j > 0 {
        let ghost before = out@;
        let ghost vals = cur@;
        out.push(Bucket { start: cur_start, values: cur });
        proof {
            assert(out@.drop_last() =~= before);
        }
    } else {
        assert(tag(cur_start as int, cur@) =~= Seq::<(int, u64)>::empty());
    }
    assert(readings@.take(readings@.len() as int) =~= readings@);
    assert(flatten_buckets(out@) =~= tagged_readings(readings@, from as int, w as int));
    out
}

} // verus!
