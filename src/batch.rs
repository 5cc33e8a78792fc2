use vstd::prelude::*;

verus! {

/// The map that a sequence of `(sensor, level)` pairs denotes when a later
/// pair for the same sensor replaces an earlier one.
pub open spec fn changes_map(s: Seq<(i64, u64)>) -> Map<i64, u64>
    decreases s.len(),
{
    if s.len() == 0 {
        Map::empty()
    } else {
        changes_map(s.drop_last()).insert(s.last().0, s.last().1)
    }
}

/// No sensor occurs twice in `s`.
pub open spec fn unique_sensors(s: Seq<(i64, u64)>) -> bool {
    forall|i: int, j: int| 0 <= i < j < s.len() ==> s[i].0 != s[j].0
}

/// One decoded message: readings of several sensors that share one timestamp.
/// A light level is held as the bit pattern of its `f64` value.
pub struct Batch {
    pub timestamp: i64,
    pub changes: Vec<(i64, u64)>,
}

impl Batch {
    /// Each sensor has exactly one entry.
    pub open spec fn wf(&self) -> bool {
        unique_sensors(self.changes@)
    }

    /// The readings of the batch, by sensor.
    pub open spec fn readings(&self) -> Map<i64, u64> {
        changes_map(self.changes@)
    }

    /// Builds a batch from decoded `(sensor, level)` pairs in the order they
    /// were read; a later pair for a sensor wins over an earlier one.
    pub fn from_pairs(timestamp: i64, pairs: &Vec<(i64, u64)>) -> (b: Batch)
        ensures
            b.wf(),
            b.timestamp == timestamp,
            b.readings() == changes_map(pairs@),
    {
        let mut out: Vec<(i64, u64)> = Vec::new();
        let mut i: usize = 0;
        while i < pairs.len()
            invariant
                i <= pairs@.len(),
                unique_sensors(out@),
                changes_map(out@) == changes_map(pairs@.take(i as int)),
            decreases pairs@.len() - i,
        {
            let (id, level) = pairs[i];
            assert(pairs@.take(i as int + 1).drop_last() =~= pairs@.take(i as int));
            let mut j: usize = 0;
            while j < out.len() && out[j].0 != id
                invariant
                    j <= out@.len(),
                    forall|k: int| 0 <= k < j ==> out@[k].0 != id,
                decreases out@.len() - j,
            {
                j = j + 1;
            }
            if j < out.len() {
                proof {
                    lemma_update_replaces(out@, j as int, level);
                }
                out.set(j, (id, level));
            } else {
                assert(out@.push((id, level)).drop_last() =~= out@);
                out.push((id, level));
            }
            i = i + 1;
        }
        assert(pairs@.take(pairs@.len() as int) =~= pairs@);
        Batch { timestamp, changes: out }
    }

    /// Number of readings in the batch.
    pub fn len(&self) -> (n: usize)
        ensures
            n == self.changes@.len(),
    {
        self.changes.len()
    }
}

/// Replacing the level of a sensor that occurs once replaces it in the map.
proof fn lemma_update_replaces(s: Seq<(i64, u64)>, j: int, level: u64)
    requires
        unique_sensors(s),
        0 <= j < s.len(),
    ensures
        unique_sensors(s.update(j, (s[j].0, level))),
        changes_map(s.update(j, (s[j].0, level))) == changes_map(s).insert(s[j].0, level),
    decreases s.len(),
{
    let t = s.update(j, (s[j].0, level));
    assert(t.drop_last() =~= if j == s.len() - 1 {
        s.drop_last()
    } else {
        s.drop_last().update(j, (s[j].0, level))
    });
    if j == s.len() - 1 {
        assert(changes_map(t) =~= changes_map(s).insert(s[j].0, level));
    } else {
        lemma_update_replaces(s.drop_last(), j, level);
        assert(s.last().0 != s[j].0);
        assert(changes_map(t) =~= changes_map(s).insert(s[j].0, level));
    }
}

} // verus!
