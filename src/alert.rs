//! The alert store: alert rows kept in order of event time, rows of
//! equal time in the order they were added.
use vstd::prelude::*;

verus! {

/// One alert: a record that matched a rule, or a window that satisfied
/// a rule's aggregation.
#[derive(Clone, Debug)]
pub struct AlertRow {
    /// Event time in seconds since the epoch.
    pub timestamp: i64,
    pub event_id: String,
    pub channel: String,
    pub computer: String,
    pub rule_id: String,
    pub rule_title: String,
    pub rule_level: String,
    pub details: String,
    pub source_file: String,
    pub is_aggregate: bool,
}

/// Where a row of time `t` goes: after every row, scanning from the end,
/// whose time is not later.
pub open spec fn row_insert_pos(s: Seq<AlertRow>, t: int) -> int
    decreases s.len(),
{
    if s.len() == 0 {
        0
    } else if s.last().timestamp <= t {
        s.len() as int
    } else {
        row_insert_pos(s.drop_last(), t)
    }
}

proof fn lemma_row_insert_pos_range(s: Seq<AlertRow>, t: int)
    ensures
        0 <= row_insert_pos(s, t) <= s.len(),
    decreases s.len(),
{
    if s.len() > 0 {
        lemma_row_insert_pos_range(s.drop_last(), t);
    }
}

/// Rows in non-decreasing order of time.
pub open spec fn rows_sorted(s: Seq<AlertRow>) -> bool {
    forall|i: int, j: int| 0 <= i <= j < s.len() ==> s[i].timestamp <= s[j].timestamp
}

/// Two rows are the same alert: same time, event and rule.
pub open spec fn same_alert(a: AlertRow, b: AlertRow) -> bool {
    a.timestamp == b.timestamp && a.event_id@ == b.event_id@ && a.rule_id@ == b.rule_id@
}

/// The alerts of a run, in order of time.
pub struct AlertStore {
    rows: Vec<AlertRow>,
}

impl AlertStore {
    pub closed spec fn view(&self) -> Seq<AlertRow> {
        self.rows@
    }

    /// The rows are in order of time.
    pub open spec fn wf(&self) -> bool {
        rows_sorted(self@)
    }

    pub fn new() -> (r: AlertStore)
        ensures
            r.wf(),
            r@.len() == 0,
    {
        AlertStore { rows: Vec::new() }
    }

    /// The rows, in order of time.
    pub fn rows(&self) -> (r: &Vec<AlertRow>)
        ensures
            r@ == self@,
    {
        &self.rows
    }

    /// Adds `row` after every row whose time is not later than its own.
    pub fn insert(&mut self, row: AlertRow)
        requires
            old(self).wf(),
        ensures
            final(self).wf(),
            final(self)@ == old(self)@.insert(row_insert_pos(old(self)@, row.timestamp as int), row),
            final(self)@.len() == old(self)@.len() + 1,
    {
        let t = row.timestamp;
        let mut j = self.rows.len();
        proof {
            assert(self.rows@.subrange(0, j as int) =~= self.rows@);
        }
        while j > 0 && self.rows[j - 1].timestamp > t
            invariant
                j <= self.rows@.len(),
                self.rows@ == old(self)@,
                row_insert_pos(self.rows@, t as int) == row_insert_pos(
                    self.rows@.subrange(0, j as int),
                    t as int,
                ),
                forall|k: int| j <= k < self.rows@.len() ==> self.rows@[k].timestamp > t,
            decreases j,
        {
            proof {
                assert(self.rows@.subrange(0, j as int).drop_last() =~= self.rows@.subrange(
                    0,
                    j - 1,
                ));
            }
            j -= 1;
        }
        proof {
            if j > 0 {
                assert(self.rows@.subrange(0, j as int).last() == self.rows@[j - 1]);
            }
        }
        let ghost before = self.rows@;
        proof {
            lemma_row_insert_pos_range(before, t as int);
        }
        self.rows.insert(j, row);
        proof {
            let q = self.rows@;
            assert forall|a: int, b: int| 0 <= a <= b < q.len() implies q[a].timestamp
                <= q[b].timestamp by {
                if a < j && b < j {
                } else if a < j && b == j {
                    assert(before[a].timestamp <= before[j - 1].timestamp);
                } else if a < j && b > j {
                    assert(q[b] == before[b - 1]);
                } else if a == j && b > j {
                    assert(q[b] == before[b - 1]);
                } else if a > j {
                    assert(q[a] == before[a - 1]);
                    assert(q[b] == before[b - 1]);
                }
            }
        }
    }

    /// Whether a row that is the same alert as `row` is stored.
    pub fn contains_alert(&self, row: &AlertRow) -> (r: bool)
        ensures
            r == exists|i: int| 0 <= i < self@.len() && same_alert(#[trigger] self@[i], *row),
    {
        let mut i: usize = 0;
        while i < self.rows.len()
            invariant
                i <= self.rows@.len(),
                forall|k: int| 0 <= k < i ==> !same_alert(#[trigger] self.rows@[k], *row),
            decreases self.rows@.len() - i,
        {
            let r = &self.rows[i];
            if r.timestamp == row.timestamp && r.event_id == row.event_id && r.rule_id
                == row.rule_id {
                assert(same_alert(self@[i as int], *row));
                return true;
            }
            i += 1;
        }
        false
    }

    /// Adds `row` as [`AlertStore::insert`] does, unless the same alert
    /// is stored already; says whether it was added.
    pub fn insert_unique(&mut self, row: AlertRow) -> (added: bool)
        requires
            old(self).wf(),
        ensures
            final(self).wf(),
            added == !exists|i: int| 0 <= i < old(self)@.len() && same_alert(#[trigger] old(self)@[i], row),
            added ==> final(self)@ == old(self)@.insert(
                row_insert_pos(old(self)@, row.timestamp as int),
                row,
            ),
            !added ==> final(self)@ == old(self)@,
    {
        if self.contains_alert(&row) {
            false
        } else {
            self.insert(row);
            true
        }
    }
}

/// However rows are added, the store lists them in non-decreasing order of
/// time.
pub proof fn lemma_store_sorted(store: AlertStore)
    requires
        store.wf(),
    ensures
        forall|i: int, j: int| 0 <= i <= j < store@.len() ==> store@[i].timestamp <= store@[j].timestamp,
{
}

} // verus!
