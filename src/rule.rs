//! Records, the field accessor, selections and a rule's detection part:
//! its selections and compiled condition, evaluated on one record.
use vstd::prelude::*;

use crate::condition::ConditionCompiler;
use crate::expand::string_views;
use crate::node::ConditionNode;
use crate::text::{chars_of, concat, string_of};
use crate::selection::{compile_field, field_compiled, field_ok, matcher_holds, value_matches, FieldMatcher};

verus! {

/// An event record: the text value of each field, by its dotted path
/// (`Event.System.EventID`).
#[derive(Clone, Debug)]
pub struct EventRecord {
    pub fields: Vec<(String, String)>,
}

/// The alias table of the field accessor: alias name to dotted path.
#[derive(Clone, Debug)]
pub struct FieldAliases {
    pub pairs: Vec<(String, String)>,
}

/// The value of the first pair of `pairs` whose key is `key`.
pub open spec fn lookup(pairs: Seq<(String, String)>, key: Seq<char>) -> Option<Seq<char>>
    decreases pairs.len(),
{
    if pairs.len() == 0 {
        None
    } else if pairs[0].0@ == key {
        Some(pairs[0].1@)
    } else {
        lookup(pairs.drop_first(), key)
    }
}

/// The value of field `name` of `record`: `name` is an alias when the
/// table lists it, a dotted path otherwise.
pub open spec fn field_value(aliases: FieldAliases, record: EventRecord, name: Seq<char>) -> Option<
    Seq<char>,
> {
    let path = match lookup(aliases.pairs@, name) {
        Some(p) => p,
        None => name,
    };
    lookup(record.fields@, path)
}

/// The value of the first pair whose key is `key`.
fn lookup_exec(pairs: &Vec<(String, String)>, key: &String) -> (r: Option<String>)
    ensures
        match lookup(pairs@, key@) {
            Some(v) => r is Some && r->0@ == v,
            None => r is None,
        },
{
    let mut i: usize = 0;
    assert(pairs@.subrange(0, pairs@.len() as int) =~= pairs@);
    while i < pairs.len()
        invariant
            i <= pairs@.len(),
            lookup(pairs@, key@) == lookup(pairs@.subrange(i as int, pairs@.len() as int), key@),
        decreases pairs@.len() - i,
    {
        let ghost rest = pairs@.subrange(i as int, pairs@.len() as int);
        assert(rest.drop_first() =~= pairs@.subrange(i + 1, pairs@.len() as int));
        assert(rest[0] == pairs@[i as int]);
        if pairs[i].0 == *key {
            return Some(pairs[i].1.clone());
        }
        i += 1;
    }
    None
}

impl EventRecord {
    /// The value at the dotted path `path`.
    pub fn get_by_path(&self, path: &String) -> (r: Option<String>)
        ensures
            match lookup(self.fields@, path@) {
                Some(v) => r is Some && r->0@ == v,
                None => r is None,
            },
    {
        lookup_exec(&self.fields, path)
    }
}

/// The text of a record's event time: the value at the first of
/// `Event.System.TimeCreated_attributes.SystemTime`,
/// `Event.EventData.@timestamp` and `Event.EventData.TimeGenerated` that
/// the record has.
pub open spec fn event_time_value(record: EventRecord) -> Option<Seq<char>> {
    match lookup(record.fields@, "Event.System.TimeCreated_attributes.SystemTime"@) {
        Some(v) => Some(v),
        None => match lookup(record.fields@, "Event.EventData.@timestamp"@) {
            Some(v) => Some(v),
            None => lookup(record.fields@, "Event.EventData.TimeGenerated"@),
        },
    }
}

/// The text of the event time of `record`, if it has one.
pub fn event_time_text(record: &EventRecord) -> (t: Option<String>)
    ensures
        match event_time_value(*record) {
            Some(v) => t is Some && t->0@ == v,
            None => t is None,
        },
{
    let p1 = "Event.System.TimeCreated_attributes.SystemTime".to_string();
    match record.get_by_path(&p1) {
        Some(v) => Some(v),
        None => {
            let p2 = "Event.EventData.@timestamp".to_string();
            match record.get_by_path(&p2) {
                Some(v) => Some(v),
                None => {
                    let p3 = "Event.EventData.TimeGenerated".to_string();
                    record.get_by_path(&p3)
                },
            }
        },
    }
}

/// `k` without its prefix `p`, when it starts with `p`.
pub open spec fn strip(k: Seq<char>, p: Seq<char>) -> Option<Seq<char>> {
    if p.len() <= k.len() && k.subrange(0, p.len() as int) == p {
        Some(k.subrange(p.len() as int, k.len() as int))
    } else {
        None
    }
}

/// The `EventData` field whose value a normalised JSON record takes for
/// the `System` field `x`, where that is not `x` itself.
pub open spec fn special_source(x: Seq<char>) -> Option<Seq<char>> {
    if x == "EventRecordID"@ {
        Some("RecordNumber"@)
    } else if x == "Provider_attributes.Name"@ {
        Some("SourceName"@)
    } else if x == "Computer"@ {
        Some("Hostname"@)
    } else {
        None
    }
}

/// The value at path `k` of the normalised form of a JSON record with
/// fields `fields`: every `Event.System.x` and `Event.UserData.x` takes
/// the value of `Event.EventData.x`, except that `Event.System.EventRecordID`,
/// `Event.System.Provider_attributes.Name` and `Event.System.Computer` take
/// `RecordNumber`, `SourceName` and `Hostname` of `EventData`; other paths
/// keep their values.
pub open spec fn normalized_value(fields: Seq<(String, String)>, k: Seq<char>) -> Option<Seq<char>> {
    match strip(k, "Event.System."@) {
        Some(x) => match special_source(x) {
            Some(src) => lookup(fields, "Event.EventData."@ + src),
            None => lookup(fields, "Event.EventData."@ + x),
        },
        None => match strip(k, "Event.UserData."@) {
            Some(x) => lookup(fields, "Event.EventData."@ + x),
            None => lookup(fields, k),
        },
    }
}

/// `k` without its prefix `p`, when it starts with `p`.
fn strip_prefix(k: &String, p: &str) -> (r: Option<String>)
    ensures
        match strip(k@, p@) {
            Some(x) => r is Some && r->0@ == x,
            None => r is None,
        },
{
    let kc = chars_of(k.as_str());
    let pc = chars_of(p);
    if pc.len() > kc.len() {
        return None;
    }
    let mut i: usize = 0;
    while i < pc.len()
        invariant
            kc@ == k@,
            pc@ == p@,
            pc@.len() <= kc@.len(),
            i <= pc@.len(),
            forall|j: int| 0 <= j < i ==> kc@[j] == pc@[j],
        decreases pc@.len() - i,
    {
        if kc[i] != pc[i] {
            assert(kc@.subrange(0, pc@.len() as int)[i as int] != pc@[i as int]);
            return None;
        }
        i += 1;
    }
    assert(kc@.subrange(0, pc@.len() as int) =~= pc@);
    let mut rest: Vec<char> = Vec::new();
    let mut j: usize = pc.len();
    while j < kc.len()
        invariant
            kc@ == k@,
            pc@ == p@,
            kc@.subrange(0, pc@.len() as int) == pc@,
            pc@.len() <= j <= kc@.len(),
            rest@ == kc@.subrange(pc@.len() as int, j as int),
        decreases kc@.len() - j,
    {
        rest.push(kc[j]);
        j += 1;
        assert(rest@ =~= kc@.subrange(pc@.len() as int, j as int));
    }
    Some(string_of(&rest))
}

proof fn lemma_strip_concat(p: Seq<char>, x: Seq<char>)
    ensures
        strip(p + x, p) == Some(x),
{
    assert((p + x).subrange(0, p.len() as int) =~= p);
    assert((p + x).subrange(p.len() as int, (p + x).len() as int) =~= x);
}

proof fn lemma_strip_eq(k: Seq<char>, p: Seq<char>, x: Seq<char>)
    ensures
        (k == p + x) == (strip(k, p) == Some(x)),
{
    lemma_strip_concat(p, x);
    if strip(k, p) == Some(x) {
        assert(k =~= p + x);
    }
}

/// The value of the first pair of `pairs` whose key is `key`.
pub open spec fn lookup_views(pairs: Seq<(Seq<char>, Seq<char>)>, key: Seq<char>) -> Option<Seq<char>>
    decreases pairs.len(),
{
    if pairs.len() == 0 {
        None
    } else if pairs[0].0 == key {
        Some(pairs[0].1)
    } else {
        lookup_views(pairs.drop_first(), key)
    }
}

/// The views of a list of text pairs.
pub open spec fn field_views(v: Seq<(String, String)>) -> Seq<(Seq<char>, Seq<char>)> {
    v.map_values(|p: (String, String)| (p.0@, p.1@))
}

proof fn lemma_lookup_views(v: Seq<(String, String)>, key: Seq<char>)
    ensures
        lookup(v, key) == lookup_views(field_views(v), key),
    decreases v.len(),
{
    if v.len() > 0 {
        assert(field_views(v).drop_first() =~= field_views(v.drop_first()));
        lemma_lookup_views(v.drop_first(), key);
    }
}

proof fn lemma_lookup_append(a: Seq<(Seq<char>, Seq<char>)>, b: Seq<(Seq<char>, Seq<char>)>, key: Seq<char>)
    ensures
        lookup_views(a + b, key) == match lookup_views(a, key) {
            Some(v) => Some(v),
            None => lookup_views(b, key),
        },
    decreases a.len(),
{
    if a.len() > 0 {
        assert((a + b).drop_first() =~= a.drop_first() + b);
        lemma_lookup_append(a.drop_first(), b, key);
    } else {
        assert(a + b =~= b);
    }
}

/// The copies, under prefix `dst`, of the `Event.EventData.` fields of
/// `v`, in order; with `system`, those whose name has a special source are
/// left out.
pub open spec fn copies(v: Seq<(Seq<char>, Seq<char>)>, dst: Seq<char>, system: bool) -> Seq<(Seq<char>, Seq<char>)>
    decreases v.len(),
{
    if v.len() == 0 {
        Seq::empty()
    } else {
        let tail = copies(v.drop_first(), dst, system);
        match strip(v[0].0, "Event.EventData."@) {
            Some(x) => if system && special_source(x) is Some {
                tail
            } else {
                seq![(dst + x, v[0].1)] + tail
            },
            None => tail,
        }
    }
}

proof fn lemma_copies(v: Seq<(Seq<char>, Seq<char>)>, dst: Seq<char>, system: bool, k: Seq<char>)
    ensures
        lookup_views(copies(v, dst, system), k) == match strip(k, dst) {
            Some(x) => if system && special_source(x) is Some {
                None
            } else {
                lookup_views(v, "Event.EventData."@ + x)
            },
            None => None,
        },
    decreases v.len(),
{
    if v.len() > 0 {
        lemma_copies(v.drop_first(), dst, system, k);
        let tail = copies(v.drop_first(), dst, system);
        match strip(v[0].0, "Event.EventData."@) {
            Some(y) => {
                lemma_strip_eq(v[0].0, "Event.EventData."@, y);
                lemma_strip_eq(k, dst, y);
                if !(system && special_source(y) is Some) {
                    assert((seq![(dst + y, v[0].1)] + tail).drop_first() =~= tail);
                    if let Some(x) = strip(k, dst) {
                        lemma_strip_eq(k, dst, x);
                        lemma_strip_eq(v[0].0, "Event.EventData."@, x);
                    }
                } else {
                    if let Some(x) = strip(k, dst) {
                        lemma_strip_eq(v[0].0, "Event.EventData."@, x);
                    }
                }
            },
            None => {
                if let Some(x) = strip(k, dst) {
                    lemma_strip_eq(v[0].0, "Event.EventData."@, x);
                }
            },
        }
    }
}

/// The fields of `v` outside `Event.System.` and `Event.UserData.`.
pub open spec fn kept(v: Seq<(Seq<char>, Seq<char>)>) -> Seq<(Seq<char>, Seq<char>)>
    decreases v.len(),
{
    if v.len() == 0 {
        Seq::empty()
    } else if strip(v[0].0, "Event.System."@) is Some || strip(v[0].0, "Event.UserData."@) is Some {
        kept(v.drop_first())
    } else {
        seq![v[0]] + kept(v.drop_first())
    }
}

proof fn lemma_kept(v: Seq<(Seq<char>, Seq<char>)>, k: Seq<char>)
    ensures
        lookup_views(kept(v), k) == if strip(k, "Event.System."@) is Some || strip(k, "Event.UserData."@) is Some {
            None
        } else {
            lookup_views(v, k)
        },
    decreases v.len(),
{
    if v.len() > 0 {
        lemma_kept(v.drop_first(), k);
        if !(strip(v[0].0, "Event.System."@) is Some || strip(v[0].0, "Event.UserData."@) is Some) {
            assert((seq![v[0]] + kept(v.drop_first())).drop_first() =~= kept(v.drop_first()));
        }
    }
}

/// The fields of a normalised JSON record that come from the special
/// sources of `EventData`, for those that the record has.
pub open spec fn specials(v: Seq<(Seq<char>, Seq<char>)>) -> Seq<(Seq<char>, Seq<char>)> {
    special_entry(v, "EventRecordID"@, "RecordNumber"@) + special_entry(
        v,
        "Provider_attributes.Name"@,
        "SourceName"@,
    ) + special_entry(v, "Computer"@, "Hostname"@)
}

/// The field `Event.System.name` with the value of `Event.EventData.src`,
/// if the record has that.
pub open spec fn special_entry(v: Seq<(Seq<char>, Seq<char>)>, name: Seq<char>, src: Seq<char>) -> Seq<
    (Seq<char>, Seq<char>),
> {
    match lookup_views(v, "Event.EventData."@ + src) {
        Some(x) => seq![("Event.System."@ + name, x)],
        None => Seq::empty(),
    }
}

proof fn lemma_special_entry(v: Seq<(Seq<char>, Seq<char>)>, name: Seq<char>, src: Seq<char>, k: Seq<char>)
    ensures
        lookup_views(special_entry(v, name, src), k) == if strip(k, "Event.System."@) == Some(name) {
            lookup_views(v, "Event.EventData."@ + src)
        } else {
            None
        },
{
    lemma_strip_eq(k, "Event.System."@, name);
    let e = special_entry(v, name, src);
    match lookup_views(v, "Event.EventData."@ + src) {
        Some(x) => {
            assert(e == seq![("Event.System."@ + name, x)]);
            assert(e.drop_first() =~= Seq::<(Seq<char>, Seq<char>)>::empty());
            assert(lookup_views(e.drop_first(), k) is None);
        },
        None => {
            assert(e.len() == 0);
        },
    }
}

proof fn lemma_specials(v: Seq<(Seq<char>, Seq<char>)>, k: Seq<char>)
    ensures
        lookup_views(specials(v), k) == match strip(k, "Event.System."@) {
            Some(x) => match special_source(x) {
                Some(src) => lookup_views(v, "Event.EventData."@ + src),
                None => None,
            },
            None => None,
        },
{
    reveal_strlit("EventRecordID");
    reveal_strlit("Provider_attributes.Name");
    reveal_strlit("Computer");
    let a = special_entry(v, "EventRecordID"@, "RecordNumber"@);
    let b = special_entry(v, "Provider_attributes.Name"@, "SourceName"@);
    let c = special_entry(v, "Computer"@, "Hostname"@);
    lemma_lookup_append(a + b, c, k);
    lemma_lookup_append(a, b, k);
    lemma_special_entry(v, "EventRecordID"@, "RecordNumber"@, k);
    lemma_special_entry(v, "Provider_attributes.Name"@, "SourceName"@, k);
    lemma_special_entry(v, "Computer"@, "Hostname"@, k);
}

proof fn lemma_system_not_user(k: Seq<char>)
    ensures
        strip(k, "Event.System."@) is Some ==> strip(k, "Event.UserData."@) is None,
{
    reveal_strlit("Event.System.");
    reveal_strlit("Event.UserData.");
    if strip(k, "Event.System."@) is Some && strip(k, "Event.UserData."@) is Some {
        assert(k.subrange(0, 13)[6] == 'S');
        assert(k.subrange(0, 15)[6] == 'U');
    }
}

/// The copies under `dst` of the `Event.EventData.` fields of `v`.
fn copy_fields(v: &Vec<(String, String)>, dst: &str, system: bool) -> (r: Vec<(String, String)>)
    ensures
        field_views(r@) == copies(field_views(v@), dst@, system),
{
    let ghost all = field_views(v@);
    let mut out: Vec<(String, String)> = Vec::new();
    let mut i: usize = 0;
    assert(all.subrange(0, all.len() as int) =~= all);
    assert(field_views(out@) + copies(all, dst@, system) =~= copies(all, dst@, system));
    while i < v.len()
        invariant
            i <= v@.len(),
            all == field_views(v@),
            copies(all, dst@, system) == field_views(out@) + copies(
                all.subrange(i as int, all.len() as int),
                dst@,
                system,
            ),
        decreases v@.len() - i,
    {
        let ghost rest = all.subrange(i as int, all.len() as int);
        let ghost before = field_views(out@);
        proof {
            assert(rest[0] == (v@[i as int].0@, v@[i as int].1@));
            assert(rest.drop_first() =~= all.subrange(i + 1, all.len() as int));
        }
        match strip_prefix(&v[i].0, "Event.EventData.") {
            Some(x) => {
                let special = {
                    proof {
                        reveal_strlit("EventRecordID");
                        reveal_strlit("Provider_attributes.Name");
                        reveal_strlit("Computer");
                    }
                    let xs = chars_of(x.as_str());
                    let e = chars_of("EventRecordID");
                    let pn = chars_of("Provider_attributes.Name");
                    let c = chars_of("Computer");
                    same_chars(&xs, &e) || same_chars(&xs, &pn) || same_chars(&xs, &c)
                };
                if system && special {
                    proof {
                        assert(special_source(x@) is Some);
                    }
                } else {
                    let key = concat(dst, x.as_str());
                    out.push((key, v[i].1.clone()));
                    proof {
                        assert(field_views(out@) =~= before.push((key@, v@[i as int].1@)));
                        assert(before.push((key@, v@[i as int].1@)) + copies(rest.drop_first(), dst@, system)
                            =~= before + (seq![(dst@ + x@, v@[i as int].1@)] + copies(
                            rest.drop_first(),
                            dst@,
                            system,
                        )));
                    }
                }
            },
            None => {},
        }
        i += 1;
    }
    assert(all.subrange(i as int, all.len() as int) =~= Seq::<(Seq<char>, Seq<char>)>::empty());
    assert(field_views(out@) + Seq::<(Seq<char>, Seq<char>)>::empty() =~= field_views(out@));
    out
}

/// Whether `a` and `b` hold the same characters.
fn same_chars(a: &Vec<char>, b: &Vec<char>) -> (r: bool)
    ensures
        r == (a@ == b@),
{
    if a.len() != b.len() {
        return false;
    }
    let mut i: usize = 0;
    while i < a.len()
        invariant
            a@.len() == b@.len(),
            i <= a@.len(),
            forall|j: int| 0 <= j < i ==> a@[j] == b@[j],
        decreases a@.len() - i,
    {
        if a[i] != b[i] {
            return false;
        }
        i += 1;
    }
    assert(a@ =~= b@);
    true
}

/// The fields of `v` outside `Event.System.` and `Event.UserData.`.
fn keep_fields(v: &Vec<(String, String)>) -> (r: Vec<(String, String)>)
    ensures
        field_views(r@) == kept(field_views(v@)),
{
    let ghost all = field_views(v@);
    let mut out: Vec<(String, String)> = Vec::new();
    let mut i: usize = 0;
    assert(all.subrange(0, all.len() as int) =~= all);
    assert(field_views(out@) + kept(all) =~= kept(all));
    while i < v.len()
        invariant
            i <= v@.len(),
            all == field_views(v@),
            kept(all) == field_views(out@) + kept(all.subrange(i as int, all.len() as int)),
        decreases v@.len() - i,
    {
        let ghost rest = all.subrange(i as int, all.len() as int);
        let ghost before = field_views(out@);
        proof {
            assert(rest[0] == (v@[i as int].0@, v@[i as int].1@));
            assert(rest.drop_first() =~= all.subrange(i + 1, all.len() as int));
        }
        let sys = strip_prefix(&v[i].0, "Event.System.");
        let usr = strip_prefix(&v[i].0, "Event.UserData.");
        if sys.is_none() && usr.is_none() {
            out.push((v[i].0.clone(), v[i].1.clone()));
            proof {
                assert(field_views(out@) =~= before.push(rest[0]));
                assert(before.push(rest[0]) + kept(rest.drop_first()) =~= before + (seq![rest[0]]
                    + kept(rest.drop_first())));
            }
        }
        i += 1;
    }
    assert(all.subrange(i as int, all.len() as int) =~= Seq::<(Seq<char>, Seq<char>)>::empty());
    assert(field_views(out@) + Seq::<(Seq<char>, Seq<char>)>::empty() =~= field_views(out@));
    out
}

/// `a` followed by `b`.
fn join_fields(a: Vec<(String, String)>, b: Vec<(String, String)>) -> (r: Vec<(String, String)>)
    ensures
        field_views(r@) == field_views(a@) + field_views(b@),
{
    let mut out = a;
    let ghost a0 = field_views(out@);
    let mut i: usize = 0;
    while i < b.len()
        invariant
            i <= b@.len(),
            field_views(out@) == a0 + field_views(b@.subrange(0, i as int)),
        decreases b@.len() - i,
    {
        let ghost before = field_views(out@);
        let x = b[i].0.clone();
        let y = b[i].1.clone();
        out.push((x, y));
        assert(field_views(out@) =~= before.push((b@[i as int].0@, b@[i as int].1@)));
        assert(field_views(b@.subrange(0, i + 1)) =~= field_views(b@.subrange(0, i as int)).push(
            (b@[i as int].0@, b@[i as int].1@),
        ));
        assert(field_views(out@) =~= a0 + field_views(b@.subrange(0, i + 1)));
        i += 1;
    }
    assert(b@.subrange(0, b@.len() as int) =~= b@);
    out
}

/// The normalised form of a record read from JSON, whose `System` data
/// stands under `EventData`: `Event.System` and `Event.UserData` become
/// copies of `Event.EventData`, with `EventRecordID`, the provider name and
/// `Computer` of `System` taken from `RecordNumber`, `SourceName` and
/// `Hostname`.
pub fn normalize_json_record(record: &EventRecord) -> (r: EventRecord)
    ensures
        forall|k: Seq<char>| #[trigger] lookup(r.fields@, k) == normalized_value(record.fields@, k),
{
    let ghost v = field_views(record.fields@);
    let mut special: Vec<(String, String)> = Vec::new();
    let p1 = "Event.EventData.RecordNumber".to_string();
    let p2 = "Event.EventData.SourceName".to_string();
    let p3 = "Event.EventData.Hostname".to_string();
    proof {
        reveal_strlit("Event.EventData.RecordNumber");
        reveal_strlit("Event.EventData.SourceName");
        reveal_strlit("Event.EventData.Hostname");
        reveal_strlit("Event.EventData.");
        reveal_strlit("RecordNumber");
        reveal_strlit("SourceName");
        reveal_strlit("Hostname");
        reveal_strlit("Event.System.EventRecordID");
        reveal_strlit("Event.System.Provider_attributes.Name");
        reveal_strlit("Event.System.Computer");
        reveal_strlit("Event.System.");
        reveal_strlit("EventRecordID");
        reveal_strlit("Provider_attributes.Name");
        reveal_strlit("Computer");
        assert(p1@ =~= "Event.EventData."@ + "RecordNumber"@);
        assert(p2@ =~= "Event.EventData."@ + "SourceName"@);
        assert(p3@ =~= "Event.EventData."@ + "Hostname"@);
        lemma_lookup_views(record.fields@, p1@);
        lemma_lookup_views(record.fields@, p2@);
        lemma_lookup_views(record.fields@, p3@);
        assert("Event.System.EventRecordID"@ =~= "Event.System."@ + "EventRecordID"@);
        assert("Event.System.Provider_attributes.Name"@ =~= "Event.System."@ + "Provider_attributes.Name"@);
        assert("Event.System.Computer"@ =~= "Event.System."@ + "Computer"@);
    }
    let ghost e1 = special_entry(v, "EventRecordID"@, "RecordNumber"@);
    let ghost e2 = special_entry(v, "Provider_attributes.Name"@, "SourceName"@);
    let ghost e3 = special_entry(v, "Computer"@, "Hostname"@);
    if let Some(x) = record.get_by_path(&p1) {
        special.push(("Event.System.EventRecordID".to_string(), x));
    }
    assert(field_views(special@) =~= e1);
    if let Some(x) = record.get_by_path(&p2) {
        let ghost before = field_views(special@);
        special.push(("Event.System.Provider_attributes.Name".to_string(), x));
        assert(field_views(special@) =~= before + e2);
    } else {
        assert(field_views(special@) =~= e1 + e2);
    }
    assert(field_views(special@) =~= e1 + e2);
    if let Some(x) = record.get_by_path(&p3) {
        let ghost before = field_views(special@);
        special.push(("Event.System.Computer".to_string(), x));
        assert(field_views(special@) =~= before + e3);
    } else {
        assert(field_views(special@) =~= e1 + e2 + e3);
    }
    assert(field_views(special@) == specials(v));
    let c1 = copy_fields(&record.fields, "Event.System.", true);
    let c2 = copy_fields(&record.fields, "Event.UserData.", false);
    let k = keep_fields(&record.fields);
    let out = join_fields(join_fields(join_fields(special, c1), c2), k);
    proof {
        assert forall|key: Seq<char>| #[trigger] lookup(out@, key) == normalized_value(record.fields@, key) by {
            let s = specials(v);
            let a = copies(v, "Event.System."@, true);
            let b = copies(v, "Event.UserData."@, false);
            let c = kept(v);
            lemma_lookup_views(out@, key);
            lemma_lookup_append(s + a + b, c, key);
            lemma_lookup_append(s + a, b, key);
            lemma_lookup_append(s, a, key);
            lemma_specials(v, key);
            lemma_copies(v, "Event.System."@, true, key);
            lemma_copies(v, "Event.UserData."@, false, key);
            lemma_kept(v, key);
            lemma_system_not_user(key);
            lemma_lookup_views(record.fields@, key);
            if let Some(x) = strip(key, "Event.System."@) {
                lemma_lookup_views(record.fields@, "Event.EventData."@ + x);
                if let Some(src) = special_source(x) {
                    lemma_lookup_views(record.fields@, "Event.EventData."@ + src);
                }
            }
            if let Some(x) = strip(key, "Event.UserData."@) {
                lemma_lookup_views(record.fields@, "Event.EventData."@ + x);
            }
        }
    }
    EventRecord { fields: out }
}

impl FieldAliases {
    /// The value of field `name` of `record`, through the alias table.
    pub fn get(&self, name: &String, record: &EventRecord) -> (r: Option<String>)
        ensures
            match field_value(*self, *record, name@) {
                Some(v) => r is Some && r->0@ == v,
                None => r is None,
            },
    {
        let path = match lookup_exec(&self.pairs, name) {
            Some(p) => p,
            None => name.clone(),
        };
        record.get_by_path(&path)
    }
}

/// A named selection: fields and the values they must match.
#[derive(Clone, Debug)]
pub struct SelectionNode {
    pub name: String,
    pub matchers: Vec<FieldMatcher>,
}

/// Every field of the selection is in the record and matches; a field
/// that is missing does not match.
pub open spec fn selection_holds(sel: SelectionNode, aliases: FieldAliases, record: EventRecord) -> bool {
    forall|i: int|
        0 <= i < sel.matchers@.len() ==> match field_value(
            aliases,
            record,
            (#[trigger] sel.matchers@[i]).field@,
        ) {
            Some(v) => matcher_holds(sel.matchers@[i], v),
            None => false,
        }
}

impl SelectionNode {
    /// Reads a selection from its field entries (`field|modifiers`, values).
    /// A selection without entries is an error, as is an entry that
    /// [`compile_field`] rejects.
    pub fn compile(name: String, entries: Vec<(String, Vec<String>)>) -> (r: Result<SelectionNode, String>)
        ensures
            r is Ok <==> entries@.len() > 0 && forall|i: int|
                0 <= i < entries@.len() ==> field_ok((#[trigger] entries@[i]).0@, entries@[i].1@),
            r is Ok ==> r->Ok_0.name == name && r->Ok_0.matchers@.len() == entries@.len() && forall|i: int|
                0 <= i < entries@.len() ==> field_compiled(
                    #[trigger] r->Ok_0.matchers@[i],
                    entries@[i].0@,
                    entries@[i].1@,
                ),
    {
        if entries.len() == 0 {
            return Err(crate::text::concat("A selection has no fields: ", name.as_str()));
        }
        let mut matchers: Vec<FieldMatcher> = Vec::new();
        let mut i: usize = 0;
        while i < entries.len()
            invariant
                i <= entries@.len(),
                matchers@.len() == i,
                forall|k: int| 0 <= k < i ==> field_ok((#[trigger] entries@[k]).0@, entries@[k].1@),
                forall|k: int|
                    0 <= k < i ==> field_compiled(#[trigger] matchers@[k], entries@[k].0@, entries@[k].1@),
            decreases entries@.len() - i,
        {
            let patterns = entries[i].1.clone();
            assert(patterns@ =~= entries@[i as int].1@);
            match compile_field(entries[i].0.as_str(), patterns) {
                Ok(m) => {
                    matchers.push(m);
                },
                Err(err) => {
                    return Err(err);
                },
            }
            i += 1;
        }
        Ok(SelectionNode { name, matchers })
    }

    /// Whether `record` satisfies the selection.
    pub fn select(&self, aliases: &FieldAliases, record: &EventRecord) -> (r: bool)
        ensures
            r == selection_holds(*self, *aliases, *record),
    {
        let mut i: usize = 0;
        while i < self.matchers.len()
            invariant
                i <= self.matchers@.len(),
                forall|k: int|
                    0 <= k < i ==> match field_value(
                        *aliases,
                        *record,
                        (#[trigger] self.matchers@[k]).field@,
                    ) {
                        Some(v) => matcher_holds(self.matchers@[k], v),
                        None => false,
                    },
            decreases self.matchers@.len() - i,
        {
            let m = &self.matchers[i];
            match aliases.get(&m.field, record) {
                None => {
                    return false;
                },
                Some(v) => {
                    if !value_matches(m, &v) {
                        return false;
                    }
                },
            }
            i += 1;
        }
        true
    }
}

/// The names of the selections of `sels` that `record` satisfies, in order.
pub open spec fn satisfied_names(sels: Seq<SelectionNode>, aliases: FieldAliases, record: EventRecord) -> Seq<Seq<char>>
    decreases sels.len(),
{
    if sels.len() == 0 {
        Seq::empty()
    } else if selection_holds(sels.last(), aliases, record) {
        satisfied_names(sels.drop_last(), aliases, record).push(sels.last().name@)
    } else {
        satisfied_names(sels.drop_last(), aliases, record)
    }
}

/// The names of the selections of `sels`, in order.
pub open spec fn selection_names(sels: Seq<SelectionNode>) -> Seq<Seq<char>> {
    sels.map_values(|s: SelectionNode| s.name@)
}

/// The detection part of a rule: its selections and its compiled
/// condition over their names.
#[derive(Debug)]
pub struct Detection {
    pub selections: Vec<SelectionNode>,
    pub condition: ConditionNode,
}

impl Detection {
    /// Compiles the condition of a rule over its selections, as
    /// [`ConditionCompiler::compile_detection`] does.
    pub fn new(selections: Vec<SelectionNode>, condition: Option<&str>) -> (r: Result<Detection, Vec<String>>)
        ensures
            selections@.len() == 0 ==> r is Err && r->Err_0@.len() == 1 && r->Err_0@[0]@
                == "There is no selection node under detection."@,
            selections@.len() == 1 && condition is None ==> r is Ok && r->Ok_0.condition is Reference
                && r->Ok_0.condition->Reference_0@ == selections@[0].name@,
            selections@.len() > 1 && condition is None ==> r is Err && r->Err_0@.len() == 1
                && r->Err_0@[0]@ == "There is no condition node under detection."@,
            r is Ok ==> r->Ok_0.selections@ == selections@ && r->Ok_0.condition.refs_within(
                selection_names(selections@),
            ),
    {
        let mut names: Vec<String> = Vec::new();
        let mut i: usize = 0;
        while i < selections.len()
            invariant
                i <= selections@.len(),
                names@.len() == i,
                forall|k: int| 0 <= k < i ==> (#[trigger] names@[k])@ == selections@[k].name@,
            decreases selections@.len() - i,
        {
            names.push(selections[i].name.clone());
            i += 1;
        }
        assert(string_views(names@) =~= selection_names(selections@));
        let compiler = ConditionCompiler::new();
        match compiler.compile_detection(condition, &names) {
            Ok(node) => Ok(Detection { selections, condition: node }),
            Err(e) => Err(e),
        }
    }

    /// Whether `record` satisfies the condition, given which selections
    /// it satisfies.
    pub fn select(&self, aliases: &FieldAliases, record: &EventRecord) -> (r: bool)
        ensures
            r == self.condition.eval(satisfied_names(self.selections@, *aliases, *record)),
    {
        let mut sat: Vec<String> = Vec::new();
        let mut i: usize = 0;
        while i < self.selections.len()
            invariant
                i <= self.selections@.len(),
                string_views(sat@) == satisfied_names(
                    self.selections@.subrange(0, i as int),
                    *aliases,
                    *record,
                ),
            decreases self.selections@.len() - i,
        {
            proof {
                let sub = self.selections@.subrange(0, i + 1);
                assert(sub.drop_last() =~= self.selections@.subrange(0, i as int));
                assert(sub.last() == self.selections@[i as int]);
            }
            if self.selections[i].select(aliases, record) {
                let ghost before = sat@;
                sat.push(self.selections[i].name.clone());
                assert(string_views(sat@) =~= string_views(before).push(
                    self.selections@[i as int].name@,
                ));
            }
            i += 1;
        }
        assert(self.selections@.subrange(0, self.selections@.len() as int) =~= self.selections@);
        self.condition.evaluate(&sat)
    }
}

/// The views of alias pairs.
pub open spec fn pair_views(t: Seq<(String, String)>) -> Seq<(Seq<char>, Seq<char>)> {
    t.map_values(|e: (String, String)| (e.0@, e.1@))
}

/// `t` with `k` mapped to `v`: its pair replaced if `k` has one, else a
/// new last pair.
pub open spec fn upsert(t: Seq<(Seq<char>, Seq<char>)>, k: Seq<char>, v: Seq<char>) -> Seq<
    (Seq<char>, Seq<char>),
>
    decreases t.len(),
{
    if t.len() == 0 {
        seq![(k, v)]
    } else if t[0].0 == k {
        t.update(0, (k, v))
    } else {
        seq![t[0]] + upsert(t.drop_first(), k, v)
    }
}

/// An alias line `alias,path`: exactly two comma-separated fields, both
/// non-empty.
pub open spec fn alias_row(line: Seq<char>) -> Option<(Seq<char>, Seq<char>)> {
    match crate::pivot::index_from(line, ',', 0) {
        None => None,
        Some(p) => if crate::pivot::index_from(line, ',', p + 1) is None && p > 0 && p + 1
            < line.len() {
            Some((line.subrange(0, p), line.subrange(p + 1, line.len() as int)))
        } else {
            None
        },
    }
}

/// The alias table of the lines of an alias file; a later line for the
/// same alias replaces an earlier one.
pub open spec fn alias_table(lines: Seq<Seq<char>>) -> Seq<(Seq<char>, Seq<char>)>
    decreases lines.len(),
{
    if lines.len() == 0 {
        Seq::empty()
    } else {
        let t = alias_table(lines.drop_last());
        match alias_row(lines.last()) {
            Some((a, p)) => upsert(t, a, p),
            None => t,
        }
    }
}

fn upsert_exec(table: &mut Vec<(String, String)>, k: String, v: String)
    ensures
        pair_views(final(table)@) == upsert(pair_views(old(table)@), k@, v@),
{
    let ghost t0 = pair_views(table@);
    let mut i: usize = 0;
    assert(t0.subrange(0, 0) + t0.subrange(0, t0.len() as int) =~= t0);
    while i < table.len()
        invariant
            i <= table@.len(),
            pair_views(table@) == t0,
            t0 == pair_views(old(table)@),
            upsert(t0, k@, v@) == t0.subrange(0, i as int) + upsert(
                t0.subrange(i as int, t0.len() as int),
                k@,
                v@,
            ),
        decreases table@.len() - i,
    {
        let ghost rest = t0.subrange(i as int, t0.len() as int);
        assert(rest[0] == t0[i as int]);
        if table[i].0 == k {
            let ghost tb = table@;
            table.set(i, (k, v));
            proof {
                assert(pair_views(table@) =~= t0.update(i as int, (tb[i as int].0@, v@)));
                assert(t0.update(i as int, (tb[i as int].0@, v@)) =~= t0.subrange(0, i as int)
                    + rest.update(0, (tb[i as int].0@, v@)));
            }
            return;
        }
        proof {
            assert(rest.drop_first() =~= t0.subrange(i + 1, t0.len() as int));
            assert(t0.subrange(0, i + 1) =~= t0.subrange(0, i as int) + seq![rest[0]]);
            assert(t0.subrange(0, i as int) + (seq![rest[0]] + upsert(rest.drop_first(), k@, v@))
                =~= t0.subrange(0, i + 1) + upsert(rest.drop_first(), k@, v@));
        }
        i += 1;
    }
    let ghost tb = table@;
    table.push((k, v));
    proof {
        assert(t0.subrange(0, i as int) =~= t0);
        assert(pair_views(table@) =~= pair_views(tb).push((k@, v@)));
    }
}

/// The alias table of the lines of an alias file (`alias,dotted.path`):
/// lines without exactly two non-empty fields are left out, and a later
/// line for an alias replaces an earlier one.
pub fn load_eventkey_alias(lines: &Vec<String>) -> (r: FieldAliases)
    ensures
        pair_views(r.pairs@) == alias_table(lines@.map_values(|l: String| l@)),
{
    let ghost lv = lines@.map_values(|l: String| l@);
    let mut pairs: Vec<(String, String)> = Vec::new();
    let mut i: usize = 0;
    assert(pair_views(pairs@) =~= Seq::<(Seq<char>, Seq<char>)>::empty());
    assert(lv.subrange(0, 0) =~= Seq::<Seq<char>>::empty());
    while i < lines.len()
        invariant
            i <= lines@.len(),
            lv == lines@.map_values(|l: String| l@),
            pair_views(pairs@) == alias_table(lv.subrange(0, i as int)),
        decreases lines@.len() - i,
    {
        let ghost sub = lv.subrange(0, i + 1);
        assert(sub.drop_last() =~= lv.subrange(0, i as int));
        assert(sub.last() == lines@[i as int]@);
        let line = crate::text::chars_of(lines[i].as_str());
        let n = line.len();
        if let Some(p) = crate::pivot::index_from_exec(&line, ',', 0) {
            let second = crate::pivot::index_from_exec(&line, ',', p + 1);
            if second.is_none() && p > 0 && p + 1 < n {
                let a = crate::pivot::chars_between(&line, 0, p);
                let path = crate::pivot::chars_between(&line, p + 1, n);
                upsert_exec(&mut pairs, a, path);
            }
        }
        i += 1;
    }
    assert(lv.subrange(0, lines@.len() as int) =~= lv);
    FieldAliases { pairs }
}

} // verus!
