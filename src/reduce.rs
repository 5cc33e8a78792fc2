use vstd::prelude::*;
use vstd::seq_lib::{to_multiset_build, to_multiset_insert};
use crate::query::QueryError;

verus! {

/// 2^52: one unit of the exponent field of an `f64` bit pattern.
pub const EXPONENT_UNIT: u64 = 0x10_0000_0000_0000;

/// 2^63: the sign bit of an `f64` bit pattern.
pub const SIGN_BIT: u64 = 0x8000_0000_0000_0000;

/// The `f64` with bit pattern `b` is a NaN: all exponent bits set and a
/// non-zero fraction.
pub open spec fn is_nan_bits(b: u64) -> bool {
    (b / EXPONENT_UNIT) % 2048 == 2047 && b % EXPONENT_UNIT != 0
}

/// A key that orders non-NaN `f64` bit patterns as their values are ordered:
/// negatives by reversed magnitude below positives, with both zeros equal.
pub open spec fn order_key(b: u64) -> int {
    if b > SIGN_BIT {
        u64::MAX - b
    } else if b == SIGN_BIT {
        SIGN_BIT as int
    } else {
        b + SIGN_BIT
    }
}

/// `s` ascends by `order_key`.
pub open spec fn sorted_by_key(s: Seq<u64>) -> bool {
    forall|i: int, j: int| 0 <= i < j < s.len() ==> order_key(#[trigger] s[i]) <= order_key(#[trigger] s[j])
}

/// The middle of an ascending sequence of values: one element for an odd
/// count, the two middle ones (to be averaged) for an even count.
#[derive(Debug, Clone, Copy, PartialEq, Eq, Structural)]
pub enum MedianPick {
    Middle(u64),
    Between(u64, u64),
}

/// The middle of the sorted sequence `s`.
pub open spec fn pick_of(s: Seq<u64>) -> MedianPick {
    if s.len() % 2 == 1 {
        MedianPick::Middle(s[s.len() as int / 2])
    } else {
        MedianPick::Between(s[s.len() as int / 2 - 1], s[s.len() as int / 2])
    }
}

/// Some value of `s` is a NaN.
pub open spec fn has_nan(s: Seq<u64>) -> bool {
    exists|i: int| 0 <= i < s.len() && is_nan_bits(#[trigger] s[i])
}

/// The bit pattern `b` is a NaN.
pub fn nan_bits(b: u64) -> (r: bool)
    ensures
        r == is_nan_bits(b),
{
    (b / EXPONENT_UNIT) % 2048 == 2047 && b % EXPONENT_UNIT != 0
}

/// Refuses values among which a NaN occurs: no reducer can order or
/// average them.
pub fn reject_nan(values: &Vec<u64>) -> (r: Result<(), QueryError>)
    ensures
        has_nan(values@) <==> r is Err,
        r is Err ==> r->Err_0 == QueryError::InvalidValue,
{
    let mut i: usize = 0;
    while i < values.len()
        invariant
            i <= values@.len(),
            forall|k: int| 0 <= k < i ==> !is_nan_bits(#[trigger] values@[k]),
        decreases values@.len() - i,
    {
        if nan_bits(values[i]) {
            return Err(QueryError::InvalidValue);
        }
        i = i + 1;
    }
    Ok(())
}

fn key_of(b: u64) -> (k: u64)
    ensures
        k == order_key(b),
{
    if b > SIGN_BIT {
        u64::MAX - b
    } else if b == SIGN_BIT {
        SIGN_BIT
    } else {
        b + SIGN_BIT
    }
}

/// The values in ascending order by `order_key`.
pub fn sort_levels(values: &Vec<u64>) -> (s: Vec<u64>)
    ensures
        s@.to_multiset() == values@.to_multiset(),
        sorted_by_key(s@),
{
    let mut sorted: Vec<u64> = Vec::new();
    let mut i: usize = 0;
    assert(values@.take(0) =~= sorted@);
    while i < values.len()
        invariant
            i <= values@.len(),
            sorted@.to_multiset() == values@.take(i as int).to_multiset(),
            sorted_by_key(sorted@),
        decreases values@.len() - i,
    {
        let v = values[i];
        let kv = key_of(v);
        let mut p: usize = 0;
        while p < sorted.len() && key_of(sorted[p]) <= kv
            invariant
                p <= sorted@.len(),
                forall|a: int| 0 <= a < p ==> order_key(#[trigger] sorted@[a]) <= kv,
            decreases sorted@.len() - p,
        {
            p = p + 1;
        }
        let ghost before = sorted@;
        sorted.insert(p, v);
        proof {
            assert(sorted@ == before.insert(p as int, v));
            assert(values@.take(i as int + 1) =~= values@.take(i as int).push(v));
            to_multiset_build(values@.take(i as int), v);
            to_multiset_insert(before, p as int, v);
            assert forall|a: int, b: int| 0 <= a < b < sorted@.len() implies order_key(
                #[trigger] sorted@[a],
            ) <= order_key(#[trigger] sorted@[b]) by {
                if p < before.len() {
                    assert(order_key(before[p as int]) > kv);
                }
                if b < p {
                } else if b == p {
                } else if a < p {
                    assert(order_key(before[b - 1]) >= order_key(before[p as int]));
                } else if a == p {
                    assert(order_key(before[b - 1]) >= order_key(before[p as int]));
                } else {
                    assert(order_key(before[a - 1]) <= order_key(before[b - 1]));
                }
            }
        }
        i = i + 1;
    }
    assert(values@.take(values@.len() as int) =~= values@);
    sorted
}

/// The middle of the values after an ascending sort, or `InvalidValue` when
/// one of them is a NaN, which has no place in that order.
pub fn median_pick(values: &Vec<u64>) -> (r: Result<MedianPick, QueryError>)
    requires
        values@.len() > 0,
    ensures
        has_nan(values@) <==> r == Err::<MedianPick, QueryError>(QueryError::InvalidValue),
        !has_nan(values@) ==> r is Ok,
        r is Ok ==> exists|s: Seq<u64>|
            #![trigger pick_of(s)]
            s.to_multiset() == values@.to_multiset() && sorted_by_key(s) && r->Ok_0 == pick_of(s),
{
    reject_nan(values)?;
    let sorted = sort_levels(values);
    proof {
        values@.to_multiset_ensures();
        sorted@.to_multiset_ensures();
        assert(sorted@.len() == values@.to_multiset().len());
    }
    let n = sorted.len();
    let m = n / 2;
    let pick = if n % 2 == 1 {
        MedianPick::Middle(sorted[m])
    } else {
        MedianPick::Between(sorted[m - 1], sorted[m])
    };
    assert(pick == pick_of(sorted@));
    Ok(pick)
}

} // verus!
