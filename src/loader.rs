//! Which rules a run loads: exclusion and noisy lists, excluded statuses
//! and the minimum level.
use vstd::prelude::*;

use crate::expand::string_views;
use crate::text::{chars_of, lower_of, lowercase};

verus! {

/// The rank of a level name: `informational` 1, `low` 2, `medium` 3,
/// `high` 4, `critical` 5; none for any other name.
pub open spec fn rank_of(level: Seq<char>) -> Option<u64> {
    if level == "informational"@ {
        Some(1)
    } else if level == "low"@ {
        Some(2)
    } else if level == "medium"@ {
        Some(3)
    } else if level == "high"@ {
        Some(4)
    } else if level == "critical"@ {
        Some(5)
    } else {
        None
    }
}

fn same_text(a: &Vec<char>, b: &str) -> (r: bool)
    ensures
        r == (a@ == b@),
{
    let bc = chars_of(b);
    if a.len() != bc.len() {
        return false;
    }
    let mut i: usize = 0;
    while i < a.len()
        invariant
            i <= a@.len(),
            a@.len() == bc@.len(),
            bc@ == b@,
            forall|k: int| 0 <= k < i ==> a@[k] == bc@[k],
        decreases a@.len() - i,
    {
        if a[i] != bc[i] {
            assert(a@[i as int] != bc@[i as int]);
            return false;
        }
        i += 1;
    }
    assert(a@ =~= bc@);
    true
}

/// The rank of a level name already in lowercase.
pub fn folded_level_rank(level: &str) -> (r: Option<u64>)
    ensures
        r == rank_of(level@),
{
    let l = chars_of(level);
    if same_text(&l, "informational") {
        Some(1)
    } else if same_text(&l, "low") {
        Some(2)
    } else if same_text(&l, "medium") {
        Some(3)
    } else if same_text(&l, "high") {
        Some(4)
    } else if same_text(&l, "critical") {
        Some(5)
    } else {
        None
    }
}

/// The rank of a level name, whatever its letter case.
pub fn level_rank(level: &str) -> (r: Option<u64>)
    ensures
        r == rank_of(lower_of(level@)),
{
    let l = lowercase(level);
    folded_level_rank(l.as_str())
}

/// What the loader does with a rule.
#[derive(Clone, Copy, Debug, PartialEq, Eq)]
pub enum LoadDecision {
    Load,
    /// Its id is on the exclusion list.
    Excluded,
    /// Its id is on the noisy list and noisy rules are not enabled.
    Noisy,
    /// Its status is one of the excluded statuses.
    StatusExcluded,
    /// Its level is below the minimum.
    BelowLevel,
    /// Its level is none of the five.
    UnknownLevel,
}

/// The settings that decide which rules load.
#[derive(Clone, Debug)]
pub struct LoadFilter {
    pub excluded_ids: Vec<String>,
    pub noisy_ids: Vec<String>,
    pub enable_noisy: bool,
    pub exclude_status: Vec<String>,
    /// Minimum level rank (1 for `informational` up to 5 for `critical`).
    pub min_level: u64,
}

/// The decision for a rule of id `id`, status `status` and level rank
/// `rank` (none for an unknown level), the checks in this order:
/// exclusion list, noisy list, status, level.
pub open spec fn decide(f: LoadFilter, id: Seq<char>, status: Seq<char>, rank: Option<u64>) -> LoadDecision {
    if string_views(f.excluded_ids@).contains(id) {
        LoadDecision::Excluded
    } else if !f.enable_noisy && string_views(f.noisy_ids@).contains(id) {
        LoadDecision::Noisy
    } else if string_views(f.exclude_status@).contains(status) {
        LoadDecision::StatusExcluded
    } else {
        match rank {
            None => LoadDecision::UnknownLevel,
            Some(r) => if r < f.min_level {
                LoadDecision::BelowLevel
            } else {
                LoadDecision::Load
            },
        }
    }
}

fn holds_text(v: &Vec<String>, x: &str) -> (r: bool)
    ensures
        r == string_views(v@).contains(x@),
{
    let ghost sv = string_views(v@);
    let mut i: usize = 0;
    while i < v.len()
        invariant
            i <= v@.len(),
            sv == string_views(v@),
            forall|k: int| 0 <= k < i ==> sv[k] != x@,
        decreases v@.len() - i,
    {
        let c = chars_of(v[i].as_str());
        if same_text(&c, x) {
            assert(sv[i as int] == x@);
            return true;
        }
        i += 1;
    }
    false
}

impl LoadFilter {
    /// Decides whether a rule loads, from its id, status and level name
    /// (in any letter case).
    pub fn judge(&self, id: &str, status: &str, level: &str) -> (r: LoadDecision)
        ensures
            r == decide(*self, id@, status@, rank_of(lower_of(level@))),
    {
        if holds_text(&self.excluded_ids, id) {
            LoadDecision::Excluded
        } else if !self.enable_noisy && holds_text(&self.noisy_ids, id) {
            LoadDecision::Noisy
        } else if holds_text(&self.exclude_status, status) {
            LoadDecision::StatusExcluded
        } else {
            match level_rank(level) {
                None => LoadDecision::UnknownLevel,
                Some(r) => if r < self.min_level {
                    LoadDecision::BelowLevel
                } else {
                    LoadDecision::Load
                },
            }
        }
    }
}

/// The count that `entries` holds for `key`: that of its first entry with
/// that key, zero when there is none.
pub open spec fn tally_of(entries: Seq<(String, u64)>, key: Seq<char>) -> int
    decreases entries.len(),
{
    if entries.len() == 0 {
        0
    } else if entries[0].0@ == key {
        entries[0].1 as int
    } else {
        tally_of(entries.drop_first(), key)
    }
}

proof fn lemma_tally_push(e: Seq<(String, u64)>, x: (String, u64), k: Seq<char>)
    requires
        forall|j: int| 0 <= j < e.len() ==> (#[trigger] e[j]).0@ != x.0@,
    ensures
        tally_of(e.push(x), k) == if k == x.0@ {
            x.1 as int
        } else {
            tally_of(e, k)
        },
    decreases e.len(),
{
    if e.len() > 0 {
        assert(e.push(x).drop_first() =~= e.drop_first().push(x));
        assert forall|j: int| 0 <= j < e.drop_first().len() implies (#[trigger] e.drop_first()[j]).0@ != x.0@ by {
            assert(e.drop_first()[j] == e[j + 1]);
        }
        lemma_tally_push(e.drop_first(), x, k);
        assert(e[0].0@ != x.0@);
        assert(e.push(x)[0] == e[0]);
        if e[0].0@ == k {
            assert(tally_of(e.push(x), k) == e[0].1 as int);
        } else {
            assert(tally_of(e.push(x), k) == tally_of(e.push(x).drop_first(), k));
        }
    } else {
        let q = e.push(x);
        assert(q.drop_first() =~= Seq::<(String, u64)>::empty());
        assert(q[0] == x);
        assert(tally_of(q.drop_first(), k) == 0);
        assert(tally_of(e, k) == 0);
    }
}

proof fn lemma_tally_update(e: Seq<(String, u64)>, i: int, x: (String, u64), k: Seq<char>)
    requires
        0 <= i < e.len(),
        x.0@ == e[i].0@,
        forall|j: int| 0 <= j < i ==> (#[trigger] e[j]).0@ != x.0@,
    ensures
        tally_of(e.update(i, x), k) == if k == x.0@ {
            x.1 as int
        } else {
            tally_of(e, k)
        },
    decreases i,
{
    if i > 0 {
        assert(e.update(i, x).drop_first() =~= e.drop_first().update(i - 1, x));
        assert forall|j: int| 0 <= j < i - 1 implies (#[trigger] e.drop_first()[j]).0@ != x.0@ by {
            assert(e.drop_first()[j] == e[j + 1]);
        }
        lemma_tally_update(e.drop_first(), i - 1, x, k);
        assert(e[0].0@ != x.0@);
    } else {
        assert(e.update(0, x).drop_first() =~= e.drop_first());
    }
}

/// Counts by name, such as the loaded rules by rule type or by status.
#[derive(Clone, Debug)]
pub struct Tally {
    pub entries: Vec<(String, u64)>,
}

impl Tally {
    pub fn new() -> (r: Tally)
        ensures
            forall|k: Seq<char>| #[trigger] tally_of(r.entries@, k) == 0,
    {
        Tally { entries: Vec::new() }
    }

    /// Counts one more under `key` (the count stops at the largest `u64`);
    /// the other counts stay as they were.
    pub fn add(&mut self, key: &String)
        ensures
            tally_of(final(self).entries@, key@) == if tally_of(old(self).entries@, key@) < u64::MAX {
                tally_of(old(self).entries@, key@) + 1
            } else {
                tally_of(old(self).entries@, key@)
            },
            forall|k: Seq<char>|
                k != key@ ==> #[trigger] tally_of(final(self).entries@, k) == tally_of(
                    old(self).entries@,
                    k,
                ),
    {
        let mut i: usize = 0;
        assert(self.entries@.subrange(0, self.entries@.len() as int) =~= self.entries@);
        while i < self.entries.len()
            invariant
                i <= self.entries@.len(),
                self.entries@ == old(self).entries@,
                forall|j: int| 0 <= j < i ==> (#[trigger] self.entries@[j]).0@ != key@,
                tally_of(self.entries@, key@) == tally_of(self.entries@.subrange(i as int, self.entries@.len() as int), key@),
            decreases self.entries@.len() - i,
        {
            let ghost rest = self.entries@.subrange(i as int, self.entries@.len() as int);
            assert(rest[0] == self.entries@[i as int]);
            if self.entries[i].0 == *key {
                let n = self.entries[i].1;
                let v = if n < u64::MAX {
                    n + 1
                } else {
                    n
                };
                let ghost e0 = self.entries@;
                let x = (self.entries[i].0.clone(), v);
                self.entries.set(i, x);
                proof {
                    assert(self.entries@ == e0.update(i as int, x));
                    assert forall|k: Seq<char>| #[trigger] tally_of(self.entries@, k) == if k == key@ {
                        v as int
                    } else {
                        tally_of(e0, k)
                    } by {
                        lemma_tally_update(e0, i as int, x, k);
                    }
                }
                return;
            }
            assert(rest.drop_first() =~= self.entries@.subrange(i + 1, self.entries@.len() as int));
            i += 1;
        }
        let ghost e0 = self.entries@;
        proof {
            assert(e0.subrange(i as int, e0.len() as int) =~= Seq::<(String, u64)>::empty());
        }
        let x = (key.clone(), 1u64);
        self.entries.push(x);
        proof {
            assert forall|k: Seq<char>| #[trigger] tally_of(self.entries@, k) == if k == key@ {
                1int
            } else {
                tally_of(e0, k)
            } by {
                lemma_tally_push(e0, x, k);
            }
        }
    }

    /// The count under `key`.
    pub fn get(&self, key: &String) -> (r: u64)
        ensures
            r as int == tally_of(self.entries@, key@),
    {
        let mut i: usize = 0;
        assert(self.entries@.subrange(0, self.entries@.len() as int) =~= self.entries@);
        while i < self.entries.len()
            invariant
                i <= self.entries@.len(),
                tally_of(self.entries@, key@) == tally_of(self.entries@.subrange(i as int, self.entries@.len() as int), key@),
            decreases self.entries@.len() - i,
        {
            let ghost rest = self.entries@.subrange(i as int, self.entries@.len() as int);
            assert(rest[0] == self.entries@[i as int]);
            if self.entries[i].0 == *key {
                return self.entries[i].1;
            }
            assert(rest.drop_first() =~= self.entries@.subrange(i + 1, self.entries@.len() as int));
            i += 1;
        }
        0
    }
}

} // verus!
