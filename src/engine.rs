//! Rules at run time: a rule's `select` on one record, its aggregation
//! flush, the rendering of alert details, and a batch of records pumped
//! through a set of rules into the alert store.
use vstd::prelude::*;

use crate::alert::{row_insert_pos, AlertRow, AlertStore};
use crate::count::{
    aggregation_condition_select, count, count_key, counted_into, counted_value, decimal,
    lemma_reports_all_at, tf_int, reports, reports_all, slot_windows, sort_by_time, agg_eq_text, AggResult, AggregationParseInfo, CountData,
};
use crate::filter::{TargetEventIds, TargetEventTime};
use crate::node::ConditionNode;
use crate::rule::{field_value, satisfied_names, Detection, EventRecord, FieldAliases};
use crate::text::{chars_of, string_of};

verus! {

/// The time given to an alert whose record has no event time.
pub const MISSING_TIME: i64 = -9223372036854775808;

/// `t` with each `%name%` replaced by the value of field `name` of the
/// record (or `n/a`); a `%` without a closing one is kept as it is.
pub open spec fn render(t: Seq<char>, aliases: FieldAliases, record: EventRecord) -> Seq<char>
    decreases t.len(),
{
    if t.len() == 0 {
        t
    } else if t[0] == '%' {
        match close_percent(t, 1) {
            Some(q) => if 1 <= q < t.len() {
                (match field_value(aliases, record, t.subrange(1, q)) {
                    Some(v) => v,
                    None => "n/a"@,
                }) + render(t.subrange(q + 1, t.len() as int), aliases, record)
            } else {
                t
            },
            None => t,
        }
    } else {
        seq![t[0]] + render(t.drop_first(), aliases, record)
    }
}

/// Index of the first `%` of `t` at or after `i`.
pub open spec fn close_percent(t: Seq<char>, i: int) -> Option<int>
    decreases t.len() - i,
{
    if i < 0 || i >= t.len() {
        None
    } else if t[i] == '%' {
        Some(i)
    } else {
        close_percent(t, i + 1)
    }
}

fn close_percent_exec(t: &Vec<char>, i: usize) -> (r: Option<usize>)
    requires
        1 <= i <= t@.len(),
    ensures
        match close_percent(t@, i as int) {
            Some(q) => r == Some(q as usize) && i <= q < t@.len(),
            None => r is None,
        },
{
    let mut j = i;
    while j < t.len()
        invariant
            i <= j <= t@.len(),
            close_percent(t@, i as int) == close_percent(t@, j as int),
        decreases t@.len() - j,
    {
        if t[j] == '%' {
            return Some(j);
        }
        j += 1;
    }
    None
}

fn append_chars(out: &mut Vec<char>, v: &Vec<char>)
    ensures
        final(out)@ == old(out)@ + v@,
{
    let mut i: usize = 0;
    while i < v.len()
        invariant
            i <= v@.len(),
            out@ == old(out)@ + v@.subrange(0, i as int),
        decreases v@.len() - i,
    {
        out.push(v[i]);
        i += 1;
        assert(out@ =~= old(out)@ + v@.subrange(0, i as int));
    }
    assert(v@.subrange(0, v@.len() as int) =~= v@);
}

/// Renders a details template for `record`: each `%name%` becomes the
/// value of field `name` (through the alias table), or `n/a`.
pub fn render_details(template: &str, aliases: &FieldAliases, record: &EventRecord) -> (r: String)
    ensures
        r@ == render(template@, *aliases, *record),
{
    let t = chars_of(template);
    let n = t.len();
    let na = chars_of("n/a");
    let mut out: Vec<char> = Vec::new();
    let mut i: usize = 0;
    assert(t@.subrange(0, n as int) =~= t@);
    assert(out@ + render(t@, *aliases, *record) =~= render(t@, *aliases, *record));
    while i < n
        invariant
            i <= n,
            n == t@.len(),
            t@ == template@,
            na@ == "n/a"@,
            render(t@, *aliases, *record) == out@ + render(t@.subrange(i as int, n as int), *aliases, *record),
        decreases n - i,
    {
        let ghost rest = t@.subrange(i as int, n as int);
        let ghost before = out@;
        if t[i] == '%' {
            let q0 = if i + 1 <= n {
                close_percent_exec(&t, i + 1)
            } else {
                None
            };
            proof {
                assert forall|k: int| 1 <= k <= rest.len() implies close_percent(rest, k)
                    == (match close_percent(t@, i + k) {
                        Some(x) => Some(x - i),
                        None => None,
                    }) by {
                    lemma_close_percent_shift(t@, i as int, k);
                }
            }
            match q0 {
                None => {
                    let mut x = i;
                    while x < n
                        invariant
                            i <= x <= n,
                            n == t@.len(),
                            out@ == before + t@.subrange(i as int, x as int),
                        decreases n - x,
                    {
                        out.push(t[x]);
                        x += 1;
                        assert(out@ =~= before + t@.subrange(i as int, x as int));
                    }
                    assert(out@ =~= before + rest);
                    proof {
                        assert(render(rest, *aliases, *record) == rest);
                        assert(render(t@.subrange(n as int, n as int), *aliases, *record) =~= Seq::<char>::empty());
                        assert(out@ + Seq::<char>::empty() =~= out@);
                    }
                    i = n;
                },
                Some(q) => {
                    let mut name: Vec<char> = Vec::new();
                    let mut x = i + 1;
                    while x < q
                        invariant
                            i + 1 <= x <= q < n,
                            n == t@.len(),
                            name@ == t@.subrange(i + 1, x as int),
                        decreases q - x,
                    {
                        name.push(t[x]);
                        x += 1;
                        assert(name@ =~= t@.subrange(i + 1, x as int));
                    }
                    let name_s = string_of(&name);
                    match aliases.get(&name_s, record) {
                        Some(v) => {
                            let vc = chars_of(v.as_str());
                            append_chars(&mut out, &vc);
                        },
                        None => {
                            append_chars(&mut out, &na);
                        },
                    }
                    proof {
                        assert(rest.subrange(1, q - i) =~= name@);
                        assert(rest.subrange(q - i + 1, rest.len() as int) =~= t@.subrange(q + 1, n as int));
                    }
                    i = q + 1;
                },
            }
        } else {
            out.push(t[i]);
            proof {
                assert(rest.drop_first() =~= t@.subrange(i + 1, n as int));
            }
            i += 1;
        }
    }
    string_of(&out)
}

proof fn lemma_close_percent_shift(t: Seq<char>, i: int, k: int)
    requires
        0 <= i <= t.len(),
        1 <= k <= t.len() - i,
    ensures
        close_percent(t.subrange(i, t.len() as int), k) == (match close_percent(t, i + k) {
            Some(x) => Some(x - i),
            None => None,
        }),
    decreases t.len() - i - k,
{
    if i + k < t.len() && t[i + k] != '%' {
        lemma_close_percent_shift(t, i, k + 1);
    }
}

/// A rule at run time: its metadata, its detection part, its optional
/// aggregation and timeframe (seconds), and the observations recorded so
/// far.
#[derive(Debug)]
pub struct RuleNode {
    pub rulepath: String,
    pub id: String,
    pub title: String,
    pub level: String,
    pub details: String,
    pub detection: Detection,
    pub aggregation: Option<AggregationParseInfo>,
    pub timeframe: Option<i64>,
    pub countdata: CountData,
}

/// One record of a batch: the record, its event time (none when it could
/// not be read) and the file it came from.
#[derive(Clone, Debug)]
pub struct EventInput {
    pub record: EventRecord,
    pub time: Option<i64>,
    pub source_file: String,
}

impl RuleNode {
    pub fn new(
        rulepath: String,
        id: String,
        title: String,
        level: String,
        details: String,
        detection: Detection,
        aggregation: Option<AggregationParseInfo>,
        timeframe: Option<i64>,
    ) -> (r: RuleNode)
        ensures
            r.wf(),
            r.countdata.slots@.len() == 0,
            r.detection == detection,
            r.aggregation == aggregation,
            r.timeframe == timeframe,
    {
        RuleNode {
            rulepath,
            id,
            title,
            level,
            details,
            detection,
            aggregation,
            timeframe,
            countdata: CountData::new(),
        }
    }

    pub open spec fn wf(&self) -> bool {
        self.countdata.wf()
    }

    /// Every slot holds few enough observations to be swept.
    pub open spec fn sweepable(&self) -> bool {
        forall|i: int|
            0 <= i < self.countdata.slots@.len() ==> (#[trigger] self.countdata.slots@[i]).records@.len()
                < usize::MAX / 2
    }

    /// Whether `record` satisfies the rule's condition. For an aggregating
    /// rule a satisfying record with an event time is also recorded as an
    /// observation; the alert waits for the flush.
    pub fn select(&mut self, aliases: &FieldAliases, record: &EventRecord, time: Option<i64>) -> (r: bool)
        requires
            old(self).wf(),
        ensures
            final(self).wf(),
            r == old(self).detection.condition.eval(
                satisfied_names(old(self).detection.selections@, *aliases, *record),
            ),
            final(self).detection == old(self).detection,
            final(self).aggregation == old(self).aggregation,
            final(self).timeframe == old(self).timeframe,
            final(self).id == old(self).id,
            final(self).title == old(self).title,
            final(self).level == old(self).level,
            final(self).details == old(self).details,
            (!r || old(self).aggregation is None || time is None) ==> final(self).countdata.slots@
                == old(self).countdata.slots@,
            (r && old(self).aggregation is Some && time is Some) ==> counted_into(
                old(self).countdata,
                final(self).countdata,
                count_key(old(self).aggregation->0, *aliases, *record),
                counted_value(old(self).aggregation->0, *aliases, *record),
                time->0,
            ),
    {
        let hit = self.detection.select(aliases, record);
        if hit {
            match &self.aggregation {
                Some(agg) => {
                    count(&mut self.countdata, agg, aliases, record, time);
                },
                None => {},
            }
        }
        hit
    }

    /// The windows of the recorded observations that satisfy the rule's
    /// aggregation; none for a rule without aggregation, or when a slot
    /// holds too many observations to sweep.
    pub fn judge_satisfy_aggcondition(&self) -> (r: Vec<AggResult>)
        ensures
            r@.len() == flush_len(*self),
            self.aggregation is None ==> r@.len() == 0,
            (self.aggregation is Some && forall|i: int|
                0 <= i < self.countdata.slots@.len() ==> (#[trigger] self.countdata.slots@[i]).records@.len()
                    < usize::MAX / 2) ==> reports_all(
                r@,
                self.countdata.slots@,
                self.aggregation->0,
                self.timeframe,
            ),
    {
        match &self.aggregation {
            None => Vec::new(),
            Some(agg) => {
                let mut i: usize = 0;
                while i < self.countdata.slots.len()
                    invariant
                        i <= self.countdata.slots@.len(),
                        forall|k: int|
                            0 <= k < i ==> (#[trigger] self.countdata.slots@[k]).records@.len()
                                < usize::MAX / 2,
                    decreases self.countdata.slots@.len() - i,
                {
                    if self.countdata.slots[i].records.len() >= usize::MAX / 2 {
                        assert(self.countdata.slots@[i as int].records@.len() >= usize::MAX / 2);
                        return Vec::new();
                    }
                    i += 1;
                }
                let r = aggregation_condition_select(&self.countdata, agg, self.timeframe);
                assert(self.aggregation->0 == *agg);
                r
            },
        }
    }
}

/// A field value for an alert row, `-` when there is none.
pub open spec fn or_dash(v: Option<Seq<char>>) -> Seq<char> {
    match v {
        Some(v) => v,
        None => "-"@,
    }
}

/// The value of a field for an alert row, `-` when the record lacks it.
fn field_or_dash(aliases: &FieldAliases, record: &EventRecord, name: &str) -> (r: String)
    ensures
        match field_value(*aliases, *record, name@) {
            Some(v) => r@ == v,
            None => r@ == "-"@,
        },
{
    let key = name.to_string();
    match aliases.get(&key, record) {
        Some(v) => v,
        None => "-".to_string(),
    }
}

/// `r` is the alert row of the record of `input` under `rule`: the event
/// time (or the time of a record without one), the rule's id, title and
/// level, the record's event ID, channel and computer (`-` when missing),
/// the rule's details rendered over the record, and the source file.
pub open spec fn alert_of(r: AlertRow, rule: RuleNode, input: EventInput, aliases: FieldAliases) -> bool {
    &&& r.timestamp == (match input.time {
        Some(t) => t,
        None => MISSING_TIME,
    })
    &&& r.rule_id@ == rule.id@
    &&& r.rule_title@ == rule.title@
    &&& r.rule_level@ == rule.level@
    &&& r.event_id@ == or_dash(field_value(aliases, input.record, "EventID"@))
    &&& r.channel@ == or_dash(field_value(aliases, input.record, "Channel"@))
    &&& r.computer@ == or_dash(field_value(aliases, input.record, "Computer"@))
    &&& r.details@ == render(rule.details@, aliases, input.record)
    &&& r.source_file@ == input.source_file@
    &&& !r.is_aggregate
}

/// The alert row of a record that satisfied a rule without aggregation.
pub fn make_alert(rule: &RuleNode, input: &EventInput, aliases: &FieldAliases) -> (r: AlertRow)
    ensures
        alert_of(r, *rule, *input, *aliases),
{
    AlertRow {
        timestamp: match input.time {
            Some(t) => t,
            None => MISSING_TIME,
        },
        event_id: field_or_dash(aliases, &input.record, "EventID"),
        channel: field_or_dash(aliases, &input.record, "Channel"),
        computer: field_or_dash(aliases, &input.record, "Computer"),
        rule_id: rule.id.clone(),
        rule_title: rule.title.clone(),
        rule_level: rule.level.clone(),
        details: render_details(rule.details.as_str(), aliases, &input.record),
        source_file: input.source_file.clone(),
        is_aggregate: false,
    }
}

/// The alert row of a window that satisfied a rule's aggregation.
pub fn make_aggregate_alert(rule: &RuleNode, res: &AggResult) -> (r: AlertRow)
    ensures
        r.timestamp == res.start_timedate,
        r.rule_id@ == rule.id@,
        r.rule_title@ == rule.title@,
        r.rule_level@ == rule.level@,
        r.details@ == "Count: "@ + decimal(res.data as int) + " ¦ "@ + res.condition_op_num@
            + " ¦ Key: "@ + res.key@,
        r.event_id@ == "-"@,
        r.channel@ == "-"@,
        r.computer@ == "-"@,
        r.source_file@ == "-"@,
        r.is_aggregate,
{
    let d = crate::text::concat("Count: ", crate::count::decimal_string(res.data).as_str());
    let d = crate::text::concat(d.as_str(), " ¦ ");
    let d = crate::text::concat(d.as_str(), res.condition_op_num.as_str());
    let d = crate::text::concat(d.as_str(), " ¦ Key: ");
    let d = crate::text::concat(d.as_str(), res.key.as_str());
    AlertRow {
        timestamp: res.start_timedate,
        event_id: "-".to_string(),
        channel: "-".to_string(),
        computer: "-".to_string(),
        rule_id: rule.id.clone(),
        rule_title: rule.title.clone(),
        rule_level: rule.level.clone(),
        details: d,
        source_file: "-".to_string(),
        is_aggregate: true,
    }
}

/// The number of windows a flush finds for `rule`: none without
/// aggregation or when a slot is too large to sweep.
pub open spec fn flush_len(rule: RuleNode) -> nat {
    match rule.aggregation {
        Some(agg) => if rule.sweepable() {
            slot_windows(
                rule.countdata.slots@,
                agg._field_name is Some,
                agg._cmp_op,
                agg._cmp_num as int,
                match rule.timeframe {
                    Some(t) => Some(t as int),
                    None => None,
                },
            ).len()
        } else {
            0
        },
        None => 0,
    }
}

/// The windows a flush finds for `rule`, each with the index of its slot.
pub open spec fn flush_windows(rule: RuleNode) -> Seq<(int, (int, int, int))> {
    match rule.aggregation {
        Some(agg) => if rule.sweepable() {
            slot_windows(
                rule.countdata.slots@,
                agg._field_name is Some,
                agg._cmp_op,
                agg._cmp_num as int,
                match rule.timeframe {
                    Some(t) => Some(t as int),
                    None => None,
                },
            )
        } else {
            Seq::empty()
        },
        None => Seq::empty(),
    }
}

/// `r` is the alert row of the window `w` (slot index, then first, end and
/// count) of the aggregating rule `rule`: anchored at the time of the
/// window's first observation, with the count, the comparison and the key
/// in its details.
pub open spec fn aggregate_alert_of(r: AlertRow, rule: RuleNode, w: (int, (int, int, int))) -> bool {
    let slot = rule.countdata.slots@[w.0];
    let obs = sort_by_time(slot.records@);
    let agg = rule.aggregation->0;
    &&& 0 <= w.0 < rule.countdata.slots@.len()
    &&& 0 <= w.1.0 < obs.len()
    &&& r.timestamp == obs[w.1.0].record_time
    &&& r.rule_id@ == rule.id@
    &&& r.rule_title@ == rule.title@
    &&& r.rule_level@ == rule.level@
    &&& r.details@ == "Count: "@ + decimal(w.1.2) + " ¦ "@ + agg_eq_text(agg._cmp_op, agg._cmp_num as int)
        + " ¦ Key: "@ + slot.key@
    &&& r.event_id@ == "-"@
    &&& r.channel@ == "-"@
    &&& r.computer@ == "-"@
    &&& r.source_file@ == "-"@
    &&& r.is_aggregate
}

/// `rows` are the alert rows of the windows a flush finds over `rules`:
/// rule after rule, each rule's windows in order.
pub open spec fn flush_rows(rows: Seq<AlertRow>, rules: Seq<RuleNode>) -> bool
    decreases rules.len(),
{
    if rules.len() == 0 {
        rows.len() == 0
    } else {
        let ws = flush_windows(rules.last());
        let n = ws.len() as int;
        &&& n <= rows.len()
        &&& flush_rows(rows.subrange(0, rows.len() - n), rules.drop_last())
        &&& forall|k: int|
            0 <= k < n ==> aggregate_alert_of(#[trigger] rows[rows.len() - n + k], rules.last(), ws[k])
    }
}

/// The number of windows a flush finds over all of `rules`.
pub open spec fn flush_total(rules: Seq<RuleNode>) -> nat
    decreases rules.len(),
{
    if rules.len() == 0 {
        0
    } else {
        flush_total(rules.drop_last()) + flush_len(rules.last())
    }
}

/// How the record of `input` changes the observations of `rule`, from
/// `before` to `after`: a satisfying record with an event time is counted
/// under its key when the rule aggregates; otherwise nothing changes.
pub open spec fn observe_step(
    before: CountData,
    after: CountData,
    rule: RuleNode,
    input: EventInput,
    aliases: FieldAliases,
) -> bool {
    if hits(rule, input, aliases) && rule.aggregation is Some && input.time is Some {
        counted_into(
            before,
            after,
            count_key(rule.aggregation->0, aliases, input.record),
            counted_value(rule.aggregation->0, aliases, input.record),
            input.time->0,
        )
    } else {
        after.slots@ == before.slots@
    }
}

/// `states` runs from `before` to `after`, each state the one before it
/// with one record of `batch` observed under `rule`.
pub open spec fn observe_chain(
    states: Seq<CountData>,
    before: CountData,
    after: CountData,
    rule: RuleNode,
    batch: Seq<EventInput>,
    aliases: FieldAliases,
) -> bool {
    &&& states.len() == batch.len() + 1
    &&& states[0] == before
    &&& states.last() == after
    &&& forall|i: int|
        0 <= i < batch.len() ==> observe_step(#[trigger] states[i], states[i + 1], rule, batch[i], aliases)
}

/// `after` holds the observations of `before` and, record after record,
/// those that `batch` adds to them under `rule`.
pub open spec fn observed(
    before: CountData,
    after: CountData,
    rule: RuleNode,
    batch: Seq<EventInput>,
    aliases: FieldAliases,
) -> bool {
    exists|states: Seq<CountData>| #[trigger] observe_chain(states, before, after, rule, batch, aliases)
}

/// Whether the record of `input` satisfies the condition of `rule`.
pub open spec fn hits(rule: RuleNode, input: EventInput, aliases: FieldAliases) -> bool {
    rule.detection.condition.eval(satisfied_names(rule.detection.selections@, aliases, input.record))
}

/// The number of records of `batch` that satisfy `rule`.
pub open spec fn rule_hits(rule: RuleNode, batch: Seq<EventInput>, aliases: FieldAliases) -> nat
    decreases batch.len(),
{
    if batch.len() == 0 {
        0
    } else {
        rule_hits(rule, batch.drop_last(), aliases) + if hits(rule, batch.last(), aliases) {
            1nat
        } else {
            0nat
        }
    }
}

/// `rows` are the alert rows that `rule` gives for `batch`, in record
/// order: one for each record it satisfies, when it does not aggregate.
pub open spec fn alerts_for(rows: Seq<AlertRow>, rule: RuleNode, batch: Seq<EventInput>, aliases: FieldAliases) -> bool
    decreases batch.len(),
{
    if batch.len() == 0 {
        rows.len() == 0
    } else if rule.aggregation is None && hits(rule, batch.last(), aliases) {
        &&& rows.len() > 0
        &&& alert_of(rows.last(), rule, batch.last(), aliases)
        &&& alerts_for(rows.drop_last(), rule, batch.drop_last(), aliases)
    } else {
        alerts_for(rows, rule, batch.drop_last(), aliases)
    }
}

/// `rows` are the alert rows that `rules` give for `batch`: rule after
/// rule, each rule's rows in record order.
pub open spec fn batch_rows(rows: Seq<AlertRow>, rules: Seq<RuleNode>, batch: Seq<EventInput>, aliases: FieldAliases) -> bool
    decreases rules.len(),
{
    if rules.len() == 0 {
        rows.len() == 0
    } else {
        let n = if rules.last().aggregation is None {
            rule_hits(rules.last(), batch, aliases) as int
        } else {
            0
        };
        &&& n <= rows.len()
        &&& batch_rows(rows.subrange(0, rows.len() - n), rules.drop_last(), batch, aliases)
        &&& alerts_for(rows.subrange(rows.len() - n, rows.len() as int), rules.last(), batch, aliases)
    }
}

/// The store rows `s` with `rows` inserted one after another, each after
/// the rows whose time is not later than its own.
pub open spec fn inserted(s: Seq<AlertRow>, rows: Seq<AlertRow>) -> Seq<AlertRow>
    decreases rows.len(),
{
    if rows.len() == 0 {
        s
    } else {
        let t = inserted(s, rows.drop_last());
        t.insert(row_insert_pos(t, rows.last().timestamp as int), rows.last())
    }
}

proof fn lemma_alerts_for_len(rows: Seq<AlertRow>, rule: RuleNode, batch: Seq<EventInput>, aliases: FieldAliases)
    requires
        alerts_for(rows, rule, batch, aliases),
    ensures
        rows.len() == if rule.aggregation is None {
            rule_hits(rule, batch, aliases) as int
        } else {
            0
        },
    decreases batch.len(),
{
    if batch.len() > 0 {
        if rule.aggregation is None && hits(rule, batch.last(), aliases) {
            lemma_alerts_for_len(rows.drop_last(), rule, batch.drop_last(), aliases);
        } else {
            lemma_alerts_for_len(rows, rule, batch.drop_last(), aliases);
        }
    }
}

/// The number of alerts a batch gives at once: one per record and rule
/// without aggregation that it satisfies.
pub open spec fn batch_alerts(rules: Seq<RuleNode>, batch: Seq<EventInput>, aliases: FieldAliases) -> nat
    decreases rules.len(),
{
    if rules.len() == 0 {
        0
    } else {
        batch_alerts(rules.drop_last(), batch, aliases) + if rules.last().aggregation is None {
            rule_hits(rules.last(), batch, aliases)
        } else {
            0nat
        }
    }
}

/// Pumps a batch of records through the rules, rule after rule: a record
/// that satisfies a rule without aggregation becomes an alert in the store;
/// one that satisfies an aggregating rule is recorded for the flush.
pub fn detect_batch(
    rules: &mut Vec<RuleNode>,
    batch: &Vec<EventInput>,
    aliases: &FieldAliases,
    store: &mut AlertStore,
)
    requires
        forall|i: int| 0 <= i < old(rules)@.len() ==> (#[trigger] old(rules)@[i]).wf(),
        old(store).wf(),
    ensures
        final(store).wf(),
        final(rules)@.len() == old(rules)@.len(),
        forall|i: int| 0 <= i < final(rules)@.len() ==> (#[trigger] final(rules)@[i]).wf(),
        forall|i: int|
            0 <= i < final(rules)@.len() ==> (#[trigger] final(rules)@[i]).detection == old(
                rules,
            )@[i].detection && final(rules)@[i].aggregation == old(rules)@[i].aggregation,
        forall|i: int|
            0 <= i < final(rules)@.len() ==> observed(
                old(rules)@[i].countdata,
                (#[trigger] final(rules)@[i]).countdata,
                old(rules)@[i],
                batch@,
                *aliases,
            ),
        final(store)@.len() == old(store)@.len() + batch_alerts(old(rules)@, batch@, *aliases),
        exists|rows: Seq<AlertRow>|
            #[trigger] batch_rows(rows, old(rules)@, batch@, *aliases) && final(store)@ == inserted(
                old(store)@,
                rows,
            ),
{
    let ghost mut rows: Seq<AlertRow> = Seq::empty();
    let mut i: usize = 0;
    assert(old(rules)@.subrange(0, 0) =~= Seq::<RuleNode>::empty());
    while i < rules.len()
        invariant
            i <= rules@.len(),
            rules@.len() == old(rules)@.len(),
            store@.len() == old(store)@.len() + batch_alerts(
                old(rules)@.subrange(0, i as int),
                batch@,
                *aliases,
            ),
            forall|k: int| 0 <= k < rules@.len() ==> (#[trigger] rules@[k]).wf(),
            forall|k: int|
                0 <= k < rules@.len() ==> (#[trigger] rules@[k]).detection == old(
                    rules,
                )@[k].detection && rules@[k].aggregation == old(rules)@[k].aggregation,
            forall|k: int|
                0 <= k < i ==> observed(
                    old(rules)@[k].countdata,
                    (#[trigger] rules@[k]).countdata,
                    old(rules)@[k],
                    batch@,
                    *aliases,
                ),
            forall|k: int| i <= k < rules@.len() ==> (#[trigger] rules@[k]) == old(rules)@[k],
            store.wf(),
            store@.len() >= old(store)@.len(),
            batch_rows(rows, old(rules)@.subrange(0, i as int), batch@, *aliases),
            store@ == inserted(old(store)@, rows),
        decreases rules@.len() - i,
    {
        let ghost before = rules@;
        let ghost orig = old(rules)@[i as int];
        let ghost base = store@.len();
        let mut rule = rules.remove(i);
        assert(rule == before[i as int]);
        assert(batch@.subrange(0, 0) =~= Seq::<EventInput>::empty());
        assert(rule == orig);
        let ghost rows0 = rows;
        let ghost mut cur: Seq<AlertRow> = Seq::empty();
        let ghost mut states: Seq<CountData> = seq![rule.countdata];
        let mut j: usize = 0;
        while j < batch.len()
            invariant
                j <= batch@.len(),
                rule.wf(),
                rule.detection == orig.detection,
                rule.aggregation == orig.aggregation,
                observe_chain(states, orig.countdata, rule.countdata, orig, batch@.subrange(0, j as int), *aliases),
                rule.id == orig.id,
                rule.title == orig.title,
                rule.level == orig.level,
                rule.details == orig.details,
                rows == rows0 + cur,
                alerts_for(cur, orig, batch@.subrange(0, j as int), *aliases),
                store@ == inserted(old(store)@, rows),
                store.wf(),
                store@.len() >= old(store)@.len(),
                base >= old(store)@.len(),
                store@.len() == base + if orig.aggregation is None {
                    rule_hits(orig, batch@.subrange(0, j as int), *aliases)
                } else {
                    0nat
                },
            decreases batch@.len() - j,
        {
            let input = &batch[j];
            proof {
                let sub = batch@.subrange(0, j + 1);
                assert(sub.drop_last() =~= batch@.subrange(0, j as int));
                assert(sub.last() == batch@[j as int]);
            }
            let ghost prev = rule.countdata;
            let hit = rule.select(aliases, &input.record, input.time);
            proof {
                let sub = batch@.subrange(0, j + 1);
                assert(observe_step(prev, rule.countdata, orig, sub.last(), *aliases));
                let s0 = states;
                states = states.push(rule.countdata);
                assert forall|k: int| 0 <= k < sub.len() implies observe_step(#[trigger] states[k], states[k + 1], orig, sub[k], *aliases) by {
                    if k < j {
                        assert(states[k] == s0[k] && states[k + 1] == s0[k + 1]);
                        assert(sub[k] == batch@.subrange(0, j as int)[k]);
                    }
                }
            }
            if hit && rule.aggregation.is_none() {
                let row = make_alert(&rule, input, aliases);
                let ghost s0 = store@;
                store.insert(row);
                proof {
                    let sub = batch@.subrange(0, j + 1);
                    let c0 = cur;
                    cur = cur.push(row);
                    rows = rows.push(row);
                    assert(rows.drop_last() =~= rows0 + c0);
                    assert(rows =~= rows0 + cur);
                    assert(cur.drop_last() =~= c0);
                    assert(alert_of(row, orig, sub.last(), *aliases));
                }
            }
            j += 1;
        }
        proof {
            assert(batch@.subrange(0, batch@.len() as int) =~= batch@);
            assert(observe_chain(states, orig.countdata, rule.countdata, orig, batch@, *aliases));
            lemma_alerts_for_len(cur, orig, batch@, *aliases);
            let now_rules = old(rules)@.subrange(0, i + 1);
            assert(now_rules.drop_last() =~= old(rules)@.subrange(0, i as int));
            assert(now_rules.last() == orig);
            assert(rows.subrange(0, rows.len() - cur.len()) =~= rows0);
            assert(rows.subrange(rows.len() - cur.len(), rows.len() as int) =~= cur);
            assert(batch_rows(rows, now_rules, batch@, *aliases));
            let pre = old(rules)@.subrange(0, i as int);
            let now = old(rules)@.subrange(0, i + 1);
            assert(now.drop_last() =~= pre);
            assert(now.last() == orig);
        }
        rules.insert(i, rule);
        proof {
            assert forall|k: int| 0 <= k < rules@.len() implies (#[trigger] rules@[k]).wf()
                && rules@[k].detection == old(rules)@[k].detection && rules@[k].aggregation == old(
                rules,
            )@[k].aggregation by {
                if k != i {
                    assert(rules@[k] == before[k]);
                }
            }
            assert forall|k: int| 0 <= k < i + 1 implies observed(
                old(rules)@[k].countdata,
                (#[trigger] rules@[k]).countdata,
                old(rules)@[k],
                batch@,
                *aliases,
            ) by {
                if k != i {
                    assert(rules@[k] == before[k]);
                }
            }
            assert forall|k: int| i + 1 <= k < rules@.len() implies (#[trigger] rules@[k]) == old(rules)@[k] by {
                assert(rules@[k] == before[k]);
            }
        }
        i += 1;
    }
    assert(old(rules)@.subrange(0, old(rules)@.len() as int) =~= old(rules)@);
    assert(batch_rows(rows, old(rules)@, batch@, *aliases));
}

/// Whether an event of time `t` lies in `range`, bounds included; an
/// event without a time always does.
pub open spec fn in_range(range: TargetEventTime, t: Option<i64>) -> bool {
    match t {
        None => true,
        Some(t) => (match range.spec_start() {
            Some(s) => s <= t,
            None => true,
        }) && (match range.spec_end() {
            Some(e) => t <= e,
            None => true,
        }),
    }
}

/// Whether the rules look at the record of `input`: always in search mode;
/// otherwise it must have a channel (the field `channel_key`), lie in the
/// time range, and, when the event ID filter is on, have an event ID (the
/// field `eid_key`) that `ids` lists or none at all.
pub fn is_target_record(
    input: &EventInput,
    aliases: &FieldAliases,
    channel_key: &String,
    eid_key: &String,
    eid_filter: bool,
    ids: &TargetEventIds,
    range: &TargetEventTime,
    search: bool,
) -> (r: bool)
    ensures
        r == (search || (field_value(*aliases, input.record, channel_key@) is Some && (!eid_filter
            || match field_value(*aliases, input.record, eid_key@) {
            Some(id) => ids@.len() == 0 || ids@.contains(id),
            None => true,
        }) && in_range(*range, input.time))),
{
    if search {
        return true;
    }
    if aliases.get(channel_key, &input.record).is_none() {
        return false;
    }
    if eid_filter {
        match aliases.get(eid_key, &input.record) {
            Some(id) => {
                if !ids.is_target(&id) {
                    return false;
                }
            },
            None => {},
        }
    }
    range.is_target(&input.time)
}

/// After the last batch: every window that satisfies an aggregating rule
/// becomes an alert in the store, rule after rule in their order.
pub fn flush_rules(rules: &Vec<RuleNode>, store: &mut AlertStore)
    requires
        old(store).wf(),
    ensures
        final(store).wf(),
        final(store)@.len() == old(store)@.len() + flush_total(rules@),
        exists|rows: Seq<AlertRow>|
            #[trigger] flush_rows(rows, rules@) && final(store)@ == inserted(old(store)@, rows),
{
    let ghost mut rows: Seq<AlertRow> = Seq::empty();
    let mut i: usize = 0;
    assert(rules@.subrange(0, 0) =~= Seq::<RuleNode>::empty());
    while i < rules.len()
        invariant
            i <= rules@.len(),
            store.wf(),
            store@.len() == old(store)@.len() + flush_total(rules@.subrange(0, i as int)),
            flush_rows(rows, rules@.subrange(0, i as int)),
            store@ == inserted(old(store)@, rows),
        decreases rules@.len() - i,
    {
        let results = rules[i].judge_satisfy_aggcondition();
        let ghost base = store@.len();
        let ghost rows0 = rows;
        let ghost rule = rules@[i as int];
        let ghost ws = flush_windows(rule);
        assert(results@.len() == ws.len());
        let mut j: usize = 0;
        while j < results.len()
            invariant
                i < rules@.len(),
                j <= results@.len(),
                store.wf(),
                store@.len() == base + j,
                rule == rules@[i as int],
                ws == flush_windows(rule),
                results@.len() == ws.len(),
                rule.aggregation is Some && rule.sweepable() ==> reports_all(
                    results@,
                    rule.countdata.slots@,
                    rule.aggregation->0,
                    rule.timeframe,
                ),
                rows.len() == rows0.len() + j,
                rows.subrange(0, rows0.len() as int) == rows0,
                forall|k: int| 0 <= k < j ==> aggregate_alert_of(#[trigger] rows[rows0.len() + k], rule, ws[k]),
                store@ == inserted(old(store)@, rows),
            decreases results@.len() - j,
        {
            let row = make_aggregate_alert(&rules[i], &results[j]);
            proof {
                assert(rule.aggregation is Some && rule.sweepable());
                let agg = rule.aggregation->0;
                let all = slot_windows(
                    rule.countdata.slots@,
                    agg._field_name is Some,
                    agg._cmp_op,
                    agg._cmp_num as int,
                    tf_int(rule.timeframe),
                );
                assert(ws == all);
                lemma_reports_all_at(results@, rule.countdata.slots@, agg, rule.timeframe, all, j as int);
                assert(0 <= all[j as int].0 < rule.countdata.slots@.len());
                assert(reports(
                    results@[j as int],
                    all[j as int].1,
                    sort_by_time(rule.countdata.slots@[all[j as int].0].records@),
                    rule.countdata.slots@[all[j as int].0].key@,
                    agg._cmp_op,
                    agg._cmp_num as int,
                ));
                assert(decimal(results@[j as int].data as int) == decimal(all[j as int].1.2));
                assert(aggregate_alert_of(row, rule, ws[j as int]));
            }
            store.insert(row);
            proof {
                let r0 = rows;
                rows = rows.push(row);
                assert(rows.drop_last() =~= r0);
                assert(rows.subrange(0, rows0.len() as int) =~= r0.subrange(0, rows0.len() as int));
                assert forall|k: int| 0 <= k < j + 1 implies aggregate_alert_of(#[trigger] rows[rows0.len() + k], rule, ws[k]) by {
                    if k < j {
                        assert(rows[rows0.len() + k] == r0[rows0.len() + k]);
                    }
                }
            }
            j += 1;
        }
        proof {
            let now = rules@.subrange(0, i + 1);
            assert(now.drop_last() =~= rules@.subrange(0, i as int));
            assert(now.last() == rules@[i as int]);
            let n = ws.len() as int;
            assert(rows.subrange(0, rows.len() - n) =~= rows0);
            assert forall|k: int| 0 <= k < n implies aggregate_alert_of(#[trigger] rows[rows.len() - n + k], now.last(), ws[k]) by {
                assert(rows.len() - n + k == rows0.len() + k);
            }
            assert(flush_rows(rows, now));
        }
        i += 1;
    }
    assert(rules@.subrange(0, rules@.len() as int) =~= rules@);
    assert(flush_rows(rows, rules@));
}

} // verus!
