//! Time series of flagging fractions.
//!
//! Rows are grouped by the exact bit pattern of their timestamp. Each group
//! (a time slot) counts the elements seen and the elements flagged; the
//! report lists the slots in time order.

use vstd::prelude::*;
use vstd::seq_lib::{commutative_foldl, lemma_fold_left_permutation};
use itertools::Itertools;
use crate::timekey::{TimeKey, order, rank};

verus! {

/// The number of `true` entries of a flag array.
pub open spec fn count_true(f: Seq<bool>) -> nat
    decreases f.len(),
{
    if f.len() == 0 {
        0
    } else {
        count_true(f.drop_last()) + if f.last() { 1nat } else { 0nat }
    }
}

/// The index of the slot with key `key`, or -1 if there is none.
/// A slot is modelled as (key bits, elements seen, elements flagged).
pub open spec fn find_slot(s: Seq<(u64, nat, nat)>, key: u64) -> int
    decreases s.len(),
{
    if s.len() == 0 {
        -1
    } else if s.last().0 == key {
        s.len() - 1
    } else {
        find_slot(s.drop_last(), key)
    }
}

/// The slots after one row with timestamp bits `key`, `len` elements and
/// `flagged` flagged elements: the matching slot grows, or a new slot is
/// appended.
pub open spec fn add_to_slots(s: Seq<(u64, nat, nat)>, key: u64, len: nat, flagged: nat) -> Seq<
    (u64, nat, nat),
> {
    let i = find_slot(s, key);
    if i >= 0 {
        s.update(i, (key, s[i].1 + len, s[i].2 + flagged))
    } else {
        s.push((key, len, flagged))
    }
}

/// The slots that a sequence of rows (timestamp bits, flags) produces.
pub open spec fn tally(rows: Seq<(u64, Seq<bool>)>) -> Seq<(u64, nat, nat)>
    decreases rows.len(),
{
    if rows.len() == 0 {
        Seq::empty()
    } else {
        let row = rows.last();
        add_to_slots(tally(rows.drop_last()), row.0, row.1.len(), count_true(row.1))
    }
}

/// Elements seen, summed over all slots.
pub open spec fn slots_total(s: Seq<(u64, nat, nat)>) -> nat
    decreases s.len(),
{
    if s.len() == 0 {
        0
    } else {
        slots_total(s.drop_last()) + s.last().1
    }
}

/// Flagged elements, summed over all slots.
pub open spec fn slots_flagged(s: Seq<(u64, nat, nat)>) -> nat
    decreases s.len(),
{
    if s.len() == 0 {
        0
    } else {
        slots_flagged(s.drop_last()) + s.last().2
    }
}

/// No two slots share a key.
pub open spec fn keys_unique(s: Seq<(u64, nat, nat)>) -> bool {
    forall|i: int, j: int| 0 <= i < j < s.len() ==> s[i].0 != s[j].0
}

/// The running totals of one time slot.
#[derive(Clone, Copy, Debug, PartialEq, Eq, Structural)]
pub struct TimeSlotRecord {
    pub time: TimeKey,
    pub n_total: u64,
    pub n_flagged: u64,
}

/// A record as a model slot.
pub open spec fn slot_of(r: TimeSlotRecord) -> (u64, nat, nat) {
    (r.time.bits, r.n_total as nat, r.n_flagged as nat)
}

/// The model slots of a sequence of records.
pub open spec fn slots_of(s: Seq<TimeSlotRecord>) -> Seq<(u64, nat, nat)> {
    s.map_values(|r: TimeSlotRecord| slot_of(r))
}

/// Why a row could not be added.
#[derive(Clone, Copy, Debug, PartialEq, Eq, Structural)]
pub enum FlagTsError {
    /// A slot's element count would no longer fit in 64 bits.
    CountOverflow,
}

/// The time-ordered result of an aggregation.
pub struct FlagReport {
    /// The time of the first slot, from which elapsed times are measured;
    /// `None` when there are no slots.
    pub start: Option<TimeKey>,
    /// The slots, in ascending time order.
    pub slots: Vec<TimeSlotRecord>,
}

/// Accumulates flag counts per exact timestamp.
pub struct FlagAggregator {
    slots: Vec<TimeSlotRecord>,
    rows: Ghost<Seq<(u64, Seq<bool>)>>,
}

proof fn lemma_find_slot(s: Seq<(u64, nat, nat)>, key: u64)
    ensures
        -1 <= find_slot(s, key) < s.len(),
        find_slot(s, key) >= 0 ==> s[find_slot(s, key)].0 == key,
        find_slot(s, key) < 0 ==> forall|i: int| 0 <= i < s.len() ==> s[i].0 != key,
    decreases s.len(),
{
    if s.len() > 0 {
        lemma_find_slot(s.drop_last(), key);
        assert forall|i: int| 0 <= i < s.len() - 1 implies s[i] == s.drop_last()[i] by {}
    }
}

proof fn lemma_find_unique(s: Seq<(u64, nat, nat)>, key: u64, i: int)
    requires
        keys_unique(s),
        0 <= i < s.len(),
        s[i].0 == key,
    ensures
        find_slot(s, key) == i,
    decreases s.len(),
{
    if i < s.len() - 1 {
        lemma_find_unique(s.drop_last(), key, i);
    }
}

proof fn lemma_add_unique(s: Seq<(u64, nat, nat)>, key: u64, len: nat, flagged: nat)
    requires
        keys_unique(s),
    ensures
        keys_unique(add_to_slots(s, key, len, flagged)),
        find_slot(add_to_slots(s, key, len, flagged), key) >= 0,
{
    lemma_find_slot(s, key);
    let t = add_to_slots(s, key, len, flagged);
    let i = find_slot(s, key);
    if i >= 0 {
        lemma_find_unique(t, key, i);
    } else {
        lemma_find_unique(t, key, s.len() as int);
    }
}

proof fn lemma_count_true_le(f: Seq<bool>)
    ensures
        count_true(f) <= f.len(),
    decreases f.len(),
{
    if f.len() > 0 {
        lemma_count_true_le(f.drop_last());
    }
}

/// Relies on itertools' `Itertools::sorted_by`: it collects the items into a
/// `Vec` and sorts it with `slice::sort_by` under the given comparison, which
/// here is the total order `order` on the slots' times.
#[verifier::external_body]
fn sort_by_time(slots: Vec<TimeSlotRecord>) -> (r: Vec<TimeSlotRecord>)
    ensures
        r@.to_multiset() == slots@.to_multiset(),
        forall|i: int, j: int|
            0 <= i < j < r@.len() ==> rank(r@[i].time.bits) <= rank(r@[j].time.bits),
{
    slots.into_iter().sorted_by(|a, b| order(a.time, b.time)).collect()
}

/// Elements seen, summed over records.
pub open spec fn records_total(s: Seq<TimeSlotRecord>) -> int {
    s.fold_left(0int, |acc: int, r: TimeSlotRecord| acc + r.n_total)
}

/// Flagged elements, summed over records.
pub open spec fn records_flagged(s: Seq<TimeSlotRecord>) -> int {
    s.fold_left(0int, |acc: int, r: TimeSlotRecord| acc + r.n_flagged)
}

proof fn lemma_records_sums(s: Seq<TimeSlotRecord>)
    ensures
        records_total(s) == slots_total(slots_of(s)),
        records_flagged(s) == slots_flagged(slots_of(s)),
    decreases s.len(),
{
    if s.len() > 0 {
        lemma_records_sums(s.drop_last());
        assert(slots_of(s).drop_last() =~= slots_of(s.drop_last()));
    }
}

proof fn lemma_sums_permutation(a: Seq<TimeSlotRecord>, b: Seq<TimeSlotRecord>)
    requires
        a.to_multiset() == b.to_multiset(),
    ensures
        slots_total(slots_of(a)) == slots_total(slots_of(b)),
        slots_flagged(slots_of(a)) == slots_flagged(slots_of(b)),
{
    let ft = |acc: int, r: TimeSlotRecord| acc + r.n_total;
    let ff = |acc: int, r: TimeSlotRecord| acc + r.n_flagged;
    assert(commutative_foldl(ft));
    assert(commutative_foldl(ff));
    lemma_fold_left_permutation(a, b, ft, 0int);
    lemma_fold_left_permutation(a, b, ff, 0int);
    lemma_records_sums(a);
    lemma_records_sums(b);
}

proof fn lemma_tally_unique(rows: Seq<(u64, Seq<bool>)>)
    ensures
        keys_unique(tally(rows)),
    decreases rows.len(),
{
    if rows.len() > 0 {
        lemma_tally_unique(rows.drop_last());
        let row = rows.last();
        lemma_add_unique(tally(rows.drop_last()), row.0, row.1.len(), count_true(row.1));
    }
}

proof fn lemma_update_sums(s: Seq<(u64, nat, nat)>, i: int, v: (u64, nat, nat))
    requires
        0 <= i < s.len(),
    ensures
        slots_total(s.update(i, v)) + s[i].1 == slots_total(s) + v.1,
        slots_flagged(s.update(i, v)) + s[i].2 == slots_flagged(s) + v.2,
    decreases s.len(),
{
    if i < s.len() - 1 {
        lemma_update_sums(s.drop_last(), i, v);
        assert(s.update(i, v).drop_last() =~= s.drop_last().update(i, v));
    } else {
        assert(s.update(i, v).drop_last() =~= s.drop_last());
    }
}

/// Elements over all rows.
pub open spec fn rows_total(rows: Seq<(u64, Seq<bool>)>) -> nat
    decreases rows.len(),
{
    if rows.len() == 0 {
        0
    } else {
        rows_total(rows.drop_last()) + rows.last().1.len()
    }
}

/// Flagged elements over all rows.
pub open spec fn rows_flagged(rows: Seq<(u64, Seq<bool>)>) -> nat
    decreases rows.len(),
{
    if rows.len() == 0 {
        0
    } else {
        rows_flagged(rows.drop_last()) + count_true(rows.last().1)
    }
}

proof fn lemma_tally_sums(rows: Seq<(u64, Seq<bool>)>)
    ensures
        slots_total(tally(rows)) == rows_total(rows),
        slots_flagged(tally(rows)) == rows_flagged(rows),
        rows_flagged(rows) <= rows_total(rows),
    decreases rows.len(),
{
    if rows.len() > 0 {
        let prev = rows.drop_last();
        let row = rows.last();
        lemma_tally_sums(prev);
        lemma_count_true_le(row.1);
        let s = tally(prev);
        let i = find_slot(s, row.0);
        lemma_find_slot(s, row.0);
        if i >= 0 {
            lemma_update_sums(s, i, (row.0, s[i].1 + row.1.len(), s[i].2 + count_true(row.1)));
        } else {
            assert(s.push((row.0, row.1.len(), count_true(row.1))).drop_last() =~= s);
        }
    }
}

proof fn lemma_rows_total_uniform(rows: Seq<(u64, Seq<bool>)>, per_row: nat)
    requires
        forall|i: int| 0 <= i < rows.len() ==> (#[trigger] rows[i]).1.len() == per_row,
    ensures
        rows_total(rows) == rows.len() * per_row,
    decreases rows.len(),
{
    if rows.len() > 0 {
        lemma_rows_total_uniform(rows.drop_last(), per_row);
        assert(rows.last() == rows[rows.len() - 1]);
        assert((rows.len() - 1) * per_row + per_row == rows.len() * per_row) by (nonlinear_arith);
    }
}

/// Grouping is by exact bit pattern. After any rows, two more rows with
/// timestamp bits `t1` and `t2` land in the same slot exactly when `t1` and
/// `t2` are identical; in that case the slot grows by both rows' elements.
pub proof fn grouping_exactness(
    rows: Seq<(u64, Seq<bool>)>,
    t1: u64,
    f1: Seq<bool>,
    t2: u64,
    f2: Seq<bool>,
)
    ensures
        ({
            let s = tally(rows.push((t1, f1)).push((t2, f2)));
            &&& find_slot(s, t1) >= 0
            &&& find_slot(s, t2) >= 0
            &&& (t1 == t2 <==> find_slot(s, t1) == find_slot(s, t2))
        }),
        t1 == t2 ==> ({
            let s0 = tally(rows);
            let s = tally(rows.push((t1, f1)).push((t2, f2)));
            let before: nat = if find_slot(s0, t1) >= 0 {
                s0[find_slot(s0, t1)].1
            } else {
                0
            };
            s[find_slot(s, t1)].1 == before + f1.len() + f2.len()
        }),
{
    let r1 = rows.push((t1, f1));
    let r2 = r1.push((t2, f2));
    assert(r2.drop_last() =~= r1);
    assert(r1.drop_last() =~= rows);
    let s0 = tally(rows);
    let s1 = tally(r1);
    let s = tally(r2);
    lemma_tally_unique(rows);
    lemma_add_unique(s0, t1, f1.len(), count_true(f1));
    lemma_add_unique(s1, t2, f2.len(), count_true(f2));
    lemma_find_slot(s0, t1);
    lemma_find_slot(s1, t1);
    lemma_find_slot(s1, t2);
    lemma_find_slot(s, t1);
    lemma_find_slot(s, t2);
    let i1 = find_slot(s1, t1);
    assert(s[i1].0 == t1);
    lemma_find_unique(s, t1, i1);
    if t1 == t2 {
        if find_slot(s0, t1) >= 0 {
            lemma_find_unique(s1, t1, find_slot(s0, t1));
        } else {
            lemma_find_unique(s1, t1, s0.len() as int);
        }
    }
}

/// Every element of every row is counted exactly once. With `per_row`
/// elements in each row, the slots that a report emits (any reordering of the
/// aggregated records) hold rows × `per_row` elements together, and never
/// more flagged elements than elements.
pub proof fn conservation(
    rows: Seq<(u64, Seq<bool>)>,
    per_row: nat,
    records: Seq<TimeSlotRecord>,
    emitted: Seq<TimeSlotRecord>,
)
    requires
        forall|i: int| 0 <= i < rows.len() ==> (#[trigger] rows[i]).1.len() == per_row,
        slots_of(records) == tally(rows),
        emitted.to_multiset() == records.to_multiset(),
    ensures
        slots_total(slots_of(emitted)) == rows.len() * per_row,
        slots_flagged(slots_of(emitted)) <= slots_total(slots_of(emitted)),
{
    lemma_sums_permutation(emitted, records);
    lemma_tally_sums(rows);
    lemma_rows_total_uniform(rows, per_row);
}

impl FlagAggregator {
    /// The rows added so far, as (timestamp bits, flags).
    pub closed spec fn rows(&self) -> Seq<(u64, Seq<bool>)> {
        self.rows@
    }

    /// The current slot records, in order of first appearance.
    pub closed spec fn records(&self) -> Seq<TimeSlotRecord> {
        self.slots@
    }

    /// The current slots, in order of first appearance.
    pub open spec fn slots(&self) -> Seq<(u64, nat, nat)> {
        slots_of(self.records())
    }

    pub closed spec fn wf(&self) -> bool {
        &&& slots_of(self.slots@) == tally(self.rows@)
        &&& keys_unique(slots_of(self.slots@))
        &&& forall|i: int|
            0 <= i < self.slots@.len() ==> #[trigger] self.slots@[i].n_flagged
                <= self.slots@[i].n_total
    }

    /// An aggregator that has seen no rows.
    pub fn new() -> (r: FlagAggregator)
        ensures
            r.wf(),
            r.records() == Seq::<TimeSlotRecord>::empty(),
            r.rows() == Seq::<(u64, Seq<bool>)>::empty(),
            r.slots() == Seq::<(u64, nat, nat)>::empty(),
    {
        let r = FlagAggregator { slots: Vec::new(), rows: Ghost(Seq::empty()) };
        assert(slots_of(r.slots@) =~= Seq::<(u64, nat, nat)>::empty());
        r
    }

    /// The slots in ascending time order, with the first slot's time as the
    /// start of the series. Every slot appears exactly once, so the element
    /// and flag counts summed over the report equal those over all rows.
    pub fn report(&self) -> (r: FlagReport)
        requires
            self.wf(),
        ensures
            r.slots@.to_multiset() == self.records().to_multiset(),
            forall|i: int, j: int|
                0 <= i < j < r.slots@.len() ==> rank(r.slots@[i].time.bits) <= rank(
                    r.slots@[j].time.bits,
                ),
            r.slots@.len() == 0 ==> r.start.is_none(),
            r.slots@.len() > 0 ==> r.start == Some(r.slots@[0].time),
            slots_total(slots_of(r.slots@)) == slots_total(self.slots()),
            slots_flagged(slots_of(r.slots@)) == slots_flagged(self.slots()),
    {
        let mut copy: Vec<TimeSlotRecord> = Vec::new();
        let mut i: usize = 0;
        while i < self.slots.len()
            invariant
                0 <= i <= self.slots@.len(),
                copy@ == self.slots@.subrange(0, i as int),
            decreases self.slots@.len() - i,
        {
            copy.push(self.slots[i]);
            i = i + 1;
            proof {
                assert(copy@ =~= self.slots@.subrange(0, i as int));
            }
        }
        proof {
            assert(copy@ =~= self.slots@);
        }
        let sorted = sort_by_time(copy);
        proof {
            lemma_sums_permutation(sorted@, self.slots@);
        }
        let start = if sorted.len() > 0 {
            Some(sorted[0].time)
        } else {
            None
        };
        FlagReport { start, slots: sorted }
    }
    /// Counts one row with timestamp `time` and flag array `flags` into the
    /// slot of its exact timestamp, creating the slot on first sight.
    ///
    /// Fails, changing nothing, exactly when the slot's element count would
    /// exceed `u64::MAX`.
    pub fn add_row(&mut self, time: TimeKey, flags: &Vec<bool>) -> (r: Result<(), FlagTsError>)
        requires
            old(self).wf(),
        ensures
            final(self).wf(),
            r.is_err() <==> ({
                let i = find_slot(old(self).slots(), time.bits);
                i >= 0 && old(self).slots()[i].1 + flags@.len() > u64::MAX
            }),
            r.is_err() ==> r == Err::<(), FlagTsError>(FlagTsError::CountOverflow),
            r.is_err() ==> final(self).rows() == old(self).rows() && final(self).slots() == old(
                self,
            ).slots(),
            r.is_ok() ==> final(self).rows() == old(self).rows().push((time.bits, flags@)),
            r.is_ok() ==> final(self).slots() == add_to_slots(
                old(self).slots(),
                time.bits,
                flags@.len(),
                count_true(flags@),
            ),
    {
        let mut n_flagged: u64 = 0;
        let mut i: usize = 0;
        while i < flags.len()
            invariant
                0 <= i <= flags.len(),
                n_flagged as nat == count_true(flags@.subrange(0, i as int)),
                n_flagged <= i,
            decreases flags.len() - i,
        {
            proof {
                assert(flags@.subrange(0, i + 1).drop_last() =~= flags@.subrange(0, i as int));
            }
            if flags[i] {
                n_flagged = n_flagged + 1;
            }
            i = i + 1;
        }
        proof {
            assert(flags@.subrange(0, flags@.len() as int) =~= flags@);
            lemma_count_true_le(flags@);
            lemma_find_slot(self.slots(), time.bits);
            lemma_add_unique(self.slots(), time.bits, flags@.len(), count_true(flags@));
        }
        let len = flags.len() as u64;
        let ghost old_rows = self.rows@;
        let mut j: usize = 0;
        while j < self.slots.len()
            invariant
                *self == *old(self),
                self.wf(),
                n_flagged as nat == count_true(flags@),
                n_flagged <= len,
                len as nat == flags@.len(),
                old_rows == old(self).rows@,
                keys_unique(
                    add_to_slots(old(self).slots(), time.bits, flags@.len(), count_true(flags@)),
                ),
                0 <= j <= self.slots@.len(),
                forall|k: int| 0 <= k < j ==> self.slots@[k].time.bits != time.bits,
            decreases self.slots@.len() - j,
        {
            if self.slots[j].time.bits == time.bits {
                let rec = self.slots[j];
                proof {
                    assert(slots_of(self.slots@)[j as int] == slot_of(rec));
                    lemma_find_unique(self.slots(), time.bits, j as int);
                }
                if len > u64::MAX - rec.n_total {
                    return Err(FlagTsError::CountOverflow);
                }
                let updated = TimeSlotRecord {
                    time,
                    n_total: rec.n_total + len,
                    n_flagged: rec.n_flagged + n_flagged,
                };
                self.slots.set(j, updated);
                self.rows = Ghost(old_rows.push((time.bits, flags@)));
                proof {
                    assert(self.rows@.drop_last() =~= old_rows);
                    assert(slots_of(self.slots@) =~= add_to_slots(
                        slots_of(old(self).slots@),
                        time.bits,
                        flags@.len(),
                        count_true(flags@),
                    ));
                }
                return Ok(());
            }
            j = j + 1;
        }
        proof {
            assert(find_slot(self.slots(), time.bits) < 0);
        }
        self.slots.push(TimeSlotRecord { time, n_total: len, n_flagged });
        self.rows = Ghost(old_rows.push((time.bits, flags@)));
        proof {
            assert(self.rows@.drop_last() =~= old_rows);
            assert(slots_of(self.slots@) =~= add_to_slots(
                slots_of(old(self).slots@),
                time.bits,
                flags@.len(),
                count_true(flags@),
            ));
        }
        Ok(())
    }
}

} // verus!
