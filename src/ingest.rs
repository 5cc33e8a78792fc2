use vstd::prelude::*;
use crate::batch::Batch;

verus! {

/// The decimal digits of `n`, most significant first.
pub open spec fn digits_of(n: nat) -> Seq<char>
    decreases n,
{
    let d = seq!['0', '1', '2', '3', '4', '5', '6', '7', '8', '9'][(n % 10) as int];
    if n < 10 {
        seq![d]
    } else {
        digits_of(n / 10).push(d)
    }
}

/// The canonical text of a numeric sensor identifier: its decimal form, with
/// a leading minus sign when negative.
pub open spec fn decimal_text(i: int) -> Seq<char> {
    if i < 0 {
        seq!['-'] + digits_of((-i) as nat)
    } else {
        digits_of(i as nat)
    }
}

proof fn lemma_digits_shape(n: nat)
    ensures
        digits_of(n).len() >= 1,
        (digits_of(n).len() == 1) == (n < 10),
        forall|i: int| 0 <= i < digits_of(n).len() ==> #[trigger] digits_of(n)[i] != '-',
        digits_of(n).last() == seq!['0', '1', '2', '3', '4', '5', '6', '7', '8', '9'][(n % 10) as int],
    decreases n,
{
    if n >= 10 {
        lemma_digits_shape(n / 10);
        let p = digits_of(n / 10);
        assert forall|i: int| 0 <= i < digits_of(n).len() implies #[trigger] digits_of(n)[i] != '-' by {
            if i < p.len() {
                assert(digits_of(n)[i] == p[i]);
            }
        }
    }
}

proof fn lemma_digits_injective(a: nat, b: nat)
    requires
        digits_of(a) == digits_of(b),
    ensures
        a == b,
    decreases a,
{
    lemma_digits_shape(a);
    lemma_digits_shape(b);
    let ds = seq!['0', '1', '2', '3', '4', '5', '6', '7', '8', '9'];
    assert(a % 10 == b % 10) by {
        assert(ds[(a % 10) as int] == ds[(b % 10) as int]);
    }
    if a >= 10 {
        assert(b >= 10);
        assert(digits_of(a / 10) =~= digits_of(a).drop_last());
        assert(digits_of(b / 10) =~= digits_of(b).drop_last());
        lemma_digits_injective(a / 10, b / 10);
    }
}

/// Distinct identifiers have distinct canonical texts, so a stored row
/// names the sensor it was decoded for and no other.
pub proof fn lemma_decimal_text_injective(a: int, b: int)
    requires
        decimal_text(a) == decimal_text(b),
    ensures
        a == b,
{
    lemma_digits_shape((if a < 0 { -a } else { a }) as nat);
    lemma_digits_shape((if b < 0 { -b } else { b }) as nat);
    if a < 0 && b < 0 {
        assert(digits_of((-a) as nat) =~= decimal_text(a).drop_first());
        assert(digits_of((-b) as nat) =~= decimal_text(b).drop_first());
        lemma_digits_injective((-a) as nat, (-b) as nat);
    } else if a >= 0 && b >= 0 {
        lemma_digits_injective(a as nat, b as nat);
    } else if a < 0 {
        assert(decimal_text(a)[0] == '-');
        assert(decimal_text(b)[0] != '-');
    } else {
        assert(decimal_text(b)[0] == '-');
        assert(decimal_text(a)[0] != '-');
    }
}

/// Relies on `i64::to_string` (its `Display`): the decimal form, with a
/// leading `-` for negative values.
#[verifier::external_body]
fn id_text(id: i64) -> (r: String)
    ensures
        r@ == decimal_text(id as int),
{
    id.to_string()
}

/// One row of the `measurements` relation.
pub struct Row {
    pub sensor_id: String,
    pub timestamp: i64,
    /// Bit pattern of the `f64` light level.
    pub level_bits: u64,
}

/// The rows that persist a batch: one per reading, each under the batch's
/// timestamp and the canonical text of its sensor.
pub fn batch_rows(b: &Batch) -> (rows: Vec<Row>)
    ensures
        rows@.len() == b.changes@.len(),
        forall|i: int|
            0 <= i < rows@.len() ==> {
                &&& (#[trigger] rows@[i]).sensor_id@ == decimal_text(b.changes@[i].0 as int)
                &&& rows@[i].timestamp == b.timestamp
                &&& rows@[i].level_bits == b.changes@[i].1
            },
        b.wf() ==> forall|i: int, j: int|
            0 <= i < j < rows@.len() ==> (#[trigger] rows@[i]).sensor_id@ != (#[trigger] rows@[j]).sensor_id@,
{
    let mut rows: Vec<Row> = Vec::new();
    let mut i: usize = 0;
    while i < b.changes.len()
        invariant
            i <= b.changes@.len(),
            rows@.len() == i,
            forall|k: int|
                0 <= k < i ==> {
                    &&& (#[trigger] rows@[k]).sensor_id@ == decimal_text(b.changes@[k].0 as int)
                    &&& rows@[k].timestamp == b.timestamp
                    &&& rows@[k].level_bits == b.changes@[k].1
                },
        decreases b.changes@.len() - i,
    {
        let (id, level) = b.changes[i];
        rows.push(Row { sensor_id: id_text(id), timestamp: b.timestamp, level_bits: level });
        i = i + 1;
    }
    proof {
        assert forall|i: int, j: int|
            b.wf() && 0 <= i < j < rows@.len() implies (#[trigger] rows@[i]).sensor_id@ != (
            #[trigger] rows@[j]).sensor_id@ by {
            if rows@[i].sensor_id@ == rows@[j].sensor_id@ {
                lemma_decimal_text_injective(b.changes@[i].0 as int, b.changes@[j].0 as int);
            }
        }
    }
    rows
}

/// Where a batch write stands. The store runs it as one transaction.
#[derive(Debug, Clone, Copy, PartialEq, Eq, Structural)]
pub enum WritePhase {
    /// The transaction is to be opened.
    Beginning,
    /// Row `i` is to be inserted.
    Inserting(usize),
    /// Every row is staged; the transaction is to be committed.
    Committing,
    /// A step failed; the transaction is to be rolled back.
    RollingBack,
    /// All rows of the batch are visible.
    Committed,
    /// No row of the batch is visible.
    Aborted,
}

/// What the store is to do next for a batch write.
#[derive(Debug, Clone, Copy, PartialEq, Eq, Structural)]
pub enum WriteAction {
    Begin,
    Insert(usize),
    Commit,
    Rollback,
}

/// The next phase of a write of `total` rows once the pending action has
/// succeeded (`ok`) or failed.
pub open spec fn next_phase(total: nat, p: WritePhase, ok: bool) -> WritePhase {
    match p {
        WritePhase::Beginning => if !ok {
            WritePhase::Aborted
        } else if total == 0 {
            WritePhase::Committing
        } else {
            WritePhase::Inserting(0)
        },
        WritePhase::Inserting(i) => if !ok {
            WritePhase::RollingBack
        } else if i + 1 < total {
            WritePhase::Inserting((i + 1) as usize)
        } else {
            WritePhase::Committing
        },
        WritePhase::Committing => if ok {
            WritePhase::Committed
        } else {
            WritePhase::RollingBack
        },
        WritePhase::RollingBack => WritePhase::Aborted,
        WritePhase::Committed => WritePhase::Committed,
        WritePhase::Aborted => WritePhase::Aborted,
    }
}

/// The phase reached from `p` after the outcomes `events`, in order.
pub open spec fn run_phases(total: nat, p: WritePhase, events: Seq<bool>) -> WritePhase
    decreases events.len(),
{
    if events.len() == 0 {
        p
    } else {
        run_phases(total, next_phase(total, p, events[0]), events.drop_first())
    }
}

/// How many rows of a batch of `total` rows a reader sees in phase `p`.
pub open spec fn visible_rows(total: nat, p: WritePhase) -> nat {
    if p == WritePhase::Committed {
        total
    } else {
        0
    }
}

/// The decisions of one atomic batch write: open a transaction, insert every
/// row, commit; on any failure roll back, so that the batch is all or nothing.
pub struct WriteSession {
    pub total: usize,
    pub phase: WritePhase,
}

impl WriteSession {
    /// The phase is consistent with the number of rows.
    pub open spec fn wf(&self) -> bool {
        match self.phase {
            WritePhase::Inserting(i) => i < self.total,
            _ => true,
        }
    }

    /// The write is over.
    pub open spec fn done(&self) -> bool {
        self.phase == WritePhase::Committed || self.phase == WritePhase::Aborted
    }

    /// A write of `total` rows, before the transaction is opened.
    pub fn start(total: usize) -> (s: WriteSession)
        ensures
            s.wf(),
            s.total == total,
            s.phase == WritePhase::Beginning,
    {
        WriteSession { total, phase: WritePhase::Beginning }
    }

    /// The action the store is to perform now; `None` once the write is over.
    pub fn action(&self) -> (a: Option<WriteAction>)
        ensures
            a == match self.phase {
                WritePhase::Beginning => Some(WriteAction::Begin),
                WritePhase::Inserting(i) => Some(WriteAction::Insert(i)),
                WritePhase::Committing => Some(WriteAction::Commit),
                WritePhase::RollingBack => Some(WriteAction::Rollback),
                _ => None::<WriteAction>,
            },
    {
        match self.phase {
            WritePhase::Beginning => Some(WriteAction::Begin),
            WritePhase::Inserting(i) => Some(WriteAction::Insert(i)),
            WritePhase::Committing => Some(WriteAction::Commit),
            WritePhase::RollingBack => Some(WriteAction::Rollback),
            _ => None,
        }
    }

    /// Records whether the last action succeeded and moves to the next phase.
    pub fn advance(&mut self, ok: bool)
        requires
            old(self).wf(),
        ensures
            final(self).wf(),
            final(self).total == old(self).total,
            final(self).phase == next_phase(old(self).total as nat, old(self).phase, ok),
    {
        let next = match self.phase {
            WritePhase::Beginning => if !ok {
                WritePhase::Aborted
            } else if self.total == 0 {
                WritePhase::Committing
            } else {
                WritePhase::Inserting(0)
            },
            WritePhase::Inserting(i) => if !ok {
                WritePhase::RollingBack
            } else if i + 1 < self.total {
                WritePhase::Inserting(i + 1)
            } else {
                WritePhase::Committing
            },
            WritePhase::Committing => if ok {
                WritePhase::Committed
            } else {
                WritePhase::RollingBack
            },
            WritePhase::RollingBack => WritePhase::Aborted,
            WritePhase::Committed => WritePhase::Committed,
            WritePhase::Aborted => WritePhase::Aborted,
        };
        self.phase = next;
    }

    /// The batch was written whole.
    pub fn committed(&self) -> (r: bool)
        ensures
            r == (self.phase == WritePhase::Committed),
    {
        self.phase == WritePhase::Committed
    }

    /// The write is over.
    pub fn is_done(&self) -> (r: bool)
        ensures
            r == self.done(),
    {
        self.phase == WritePhase::Committed || self.phase == WritePhase::Aborted
    }
}

/// How many successes in a row take phase `p` to `Committed`.
pub open spec fn steps_to_commit(total: nat, p: WritePhase) -> nat {
    match p {
        WritePhase::Beginning => total + 2,
        WritePhase::Inserting(i) => if i < total {
            (total - i + 1) as nat
        } else {
            2
        },
        WritePhase::Committing => 1,
        _ => 0,
    }
}

/// The first `n` outcomes are all successes.
pub open spec fn first_all_ok(events: Seq<bool>, n: nat) -> bool {
    n <= events.len() && forall|i: int| 0 <= i < n ==> events[i]
}

proof fn lemma_never_commits_after_failure(total: nat, p: WritePhase, events: Seq<bool>)
    requires
        p == WritePhase::RollingBack || p == WritePhase::Aborted,
    ensures
        run_phases(total, p, events) != WritePhase::Committed,
    decreases events.len(),
{
    if events.len() > 0 {
        lemma_never_commits_after_failure(total, next_phase(total, p, events[0]), events.drop_first());
    }
}

proof fn lemma_stays_committed(total: nat, events: Seq<bool>)
    ensures
        run_phases(total, WritePhase::Committed, events) == WritePhase::Committed,
    decreases events.len(),
{
    if events.len() > 0 {
        lemma_stays_committed(total, events.drop_first());
    }
}

proof fn lemma_commit_iff_ok(total: nat, p: WritePhase, events: Seq<bool>)
    requires
        total <= usize::MAX,
        p != WritePhase::Committed,
        p != WritePhase::Aborted,
        p != WritePhase::RollingBack,
        match p {
            WritePhase::Inserting(i) => i < total,
            _ => true,
        },
    ensures
        run_phases(total, p, events) == WritePhase::Committed <==> first_all_ok(
            events,
            steps_to_commit(total, p),
        ),
    decreases events.len(),
{
    if events.len() == 0 {
    } else {
        let q = next_phase(total, p, events[0]);
        let rest = events.drop_first();
        if !events[0] {
            lemma_never_commits_after_failure(total, q, rest);
        } else if q == WritePhase::Committed {
            lemma_stays_committed(total, rest);
        } else {
            lemma_commit_iff_ok(total, q, rest);
            assert(steps_to_commit(total, p) == steps_to_commit(total, q) + 1);
            if first_all_ok(rest, steps_to_commit(total, q)) {
                assert forall|i: int| 0 <= i < steps_to_commit(total, p) implies events[i] by {
                    if i > 0 {
                        assert(events[i] == rest[i - 1]);
                    }
                }
            }
            if first_all_ok(events, steps_to_commit(total, p)) {
                assert forall|i: int| 0 <= i < steps_to_commit(total, q) implies rest[i] by {
                    assert(events[i + 1] == rest[i]);
                }
            }
        }
    }
}

/// A batch write is all or nothing: started on `total` rows and fed the
/// outcomes `events` of the store's actions, it ends with every row visible
/// exactly when opening, each of the `total` inserts and the commit all
/// succeeded; if any of them failed, no row of the batch is visible.
pub proof fn lemma_batch_write_atomic(total: usize, events: Seq<bool>)
    ensures
        first_all_ok(events, (total + 2) as nat) ==> visible_rows(
            total as nat,
            run_phases(total as nat, WritePhase::Beginning, events),
        ) == total,
        !first_all_ok(events, (total + 2) as nat) ==> visible_rows(
            total as nat,
            run_phases(total as nat, WritePhase::Beginning, events),
        ) == 0,
{
    lemma_commit_iff_ok(total as nat, WritePhase::Beginning, events);
}

} // verus!
