//! Record pre-filters of a run: the event IDs to look at, the time range,
//! and the file extensions of the inputs.
use vstd::prelude::*;

use crate::count::distinct;
use crate::expand::string_views;

verus! {

/// The event IDs a run looks at; an empty set means all of them.
#[derive(Clone, Debug)]
pub struct TargetEventIds {
    ids: Vec<String>,
}

impl TargetEventIds {
    pub closed spec fn view(&self) -> Seq<Seq<char>> {
        string_views(self.ids@)
    }

    pub fn new() -> (r: TargetEventIds)
        ensures
            r@.len() == 0,
    {
        TargetEventIds { ids: Vec::new() }
    }

    /// Whether records of event ID `id` are looked at.
    pub fn is_target(&self, id: &String) -> (r: bool)
        ensures
            r == (self@.len() == 0 || self@.contains(id@)),
    {
        if self.ids.len() == 0 {
            return true;
        }
        let ghost sv = string_views(self.ids@);
        let mut i: usize = 0;
        while i < self.ids.len()
            invariant
                i <= self.ids@.len(),
                sv == string_views(self.ids@),
                sv == self@,
                forall|k: int| 0 <= k < i ==> sv[k] != id@,
            decreases self.ids@.len() - i,
        {
            if self.ids[i] == *id {
                assert(sv[i as int] == id@);
                return true;
            }
            i += 1;
        }
        false
    }
}

/// The non-empty lines of `s`, in order.
pub open spec fn non_empty_lines(s: Seq<Seq<char>>) -> Seq<Seq<char>>
    decreases s.len(),
{
    if s.len() == 0 {
        s
    } else if s.last().len() == 0 {
        non_empty_lines(s.drop_last())
    } else {
        non_empty_lines(s.drop_last()).push(s.last())
    }
}

/// The event IDs listed by the lines of an ID file, empty lines left out.
pub fn load_target_ids(lines: &Vec<String>) -> (r: TargetEventIds)
    ensures
        r@ == non_empty_lines(string_views(lines@)),
{
    let mut ids: Vec<String> = Vec::new();
    let ghost lv = string_views(lines@);
    let mut i: usize = 0;
    while i < lines.len()
        invariant
            i <= lines@.len(),
            lv == string_views(lines@),
            string_views(ids@) == non_empty_lines(lv.subrange(0, i as int)),
        decreases lines@.len() - i,
    {
        let ghost before = string_views(ids@);
        let ghost now = lv.subrange(0, i + 1);
        assert(now.drop_last() =~= lv.subrange(0, i as int));
        assert(now.last() == lines@[i as int]@);
        if !lines[i].as_str().is_empty() {
            ids.push(lines[i].clone());
            assert(string_views(ids@) =~= before.push(lines@[i as int]@));
        }
        i += 1;
    }
    assert(lv.subrange(0, lines@.len() as int) =~= lv);
    TargetEventIds { ids }
}

/// The time range of a run, in seconds; a bound that is missing does not
/// restrict.
#[derive(Clone, Debug)]
pub struct TargetEventTime {
    parse_success_flag: bool,
    start_time: Option<i64>,
    end_time: Option<i64>,
}

impl TargetEventTime {
    pub closed spec fn spec_start(&self) -> Option<i64> {
        self.start_time
    }

    pub closed spec fn spec_end(&self) -> Option<i64> {
        self.end_time
    }

    pub closed spec fn spec_parse_success(&self) -> bool {
        self.parse_success_flag
    }

    pub fn set(
        input_parse_success_flag: bool,
        input_start_time: Option<i64>,
        input_end_time: Option<i64>,
    ) -> (r: Self)
        ensures
            r.spec_parse_success() == input_parse_success_flag,
            r.spec_start() == input_start_time,
            r.spec_end() == input_end_time,
    {
        Self {
            parse_success_flag: input_parse_success_flag,
            start_time: input_start_time,
            end_time: input_end_time,
        }
    }

    pub fn is_parse_success(&self) -> (r: bool)
        ensures
            r == self.spec_parse_success(),
    {
        self.parse_success_flag
    }

    /// Whether an event of time `eventtime` lies in the range, bounds
    /// included; an event without a time always does.
    pub fn is_target(&self, eventtime: &Option<i64>) -> (r: bool)
        ensures
            r == match *eventtime {
                None => true,
                Some(t) => (match self.spec_start() {
                    Some(s) => s <= t,
                    None => true,
                }) && (match self.spec_end() {
                    Some(e) => t <= e,
                    None => true,
                }),
            },
    {
        match eventtime {
            None => true,
            Some(t) => {
                if let Some(s) = self.start_time {
                    if *t < s {
                        return false;
                    }
                }
                if let Some(e) = self.end_time {
                    if *t > e {
                        return false;
                    }
                }
                true
            },
        }
    }
}

/// `v` with `x` added unless it holds it already.
fn push_distinct(v: &mut Vec<String>, x: String)
    ensures
        string_views(old(v)@).contains(x@) ==> final(v)@ == old(v)@,
        !string_views(old(v)@).contains(x@) ==> string_views(final(v)@) == string_views(old(v)@).push(x@),
{
    let ghost sv = string_views(v@);
    let mut i: usize = 0;
    while i < v.len()
        invariant
            i <= v@.len(),
            v@ == old(v)@,
            sv == string_views(v@),
            forall|k: int| 0 <= k < i ==> sv[k] != x@,
        decreases v@.len() - i,
    {
        if v[i] == x {
            assert(sv[i as int] == x@);
            return;
        }
        i += 1;
    }
    let ghost before = v@;
    v.push(x);
    assert(string_views(v@) =~= string_views(before).push(x@));
}

/// The distinct values of `arg` (none for no argument), in the order
/// they first occur.
pub fn convert_option_vecs_to_hs(arg: Option<&Vec<String>>) -> (r: Vec<String>)
    ensures
        string_views(r@) == match arg {
            Some(v) => distinct(string_views(v@)),
            None => Seq::empty(),
        },
{
    let mut out: Vec<String> = Vec::new();
    match arg {
        None => {
            assert(string_views(out@) =~= Seq::<Seq<char>>::empty());
            out
        },
        Some(v) => {
            let ghost vv = string_views(v@);
            let mut i: usize = 0;
            assert(string_views(out@) =~= Seq::<Seq<char>>::empty());
            assert(vv.subrange(0, 0) =~= Seq::<Seq<char>>::empty());
            while i < v.len()
                invariant
                    i <= v@.len(),
                    vv == string_views(v@),
                    string_views(out@) == distinct(vv.subrange(0, i as int)),
                decreases v@.len() - i,
            {
                let ghost now = vv.subrange(0, i + 1);
                assert(now.drop_last() =~= vv.subrange(0, i as int));
                assert(now.last() == v@[i as int]@);
                push_distinct(&mut out, v[i].clone());
                i += 1;
            }
            assert(vv.subrange(0, v@.len() as int) =~= vv);
            out
        },
    }
}

/// The input file extensions of a run: the distinct ones given, then
/// `json` when the input is JSON (`evtx` otherwise) unless given already.
pub fn get_target_extensions(arg: Option<&Vec<String>>, json_input_flag: bool) -> (r: Vec<String>)
    ensures
        string_views(r@) == distinct(
            (match arg {
                Some(v) => string_views(v@),
                None => Seq::empty(),
            }).push(
                if json_input_flag {
                    "json"@
                } else {
                    "evtx"@
                },
            ),
        ),
{
    let mut r = convert_option_vecs_to_hs(arg);
    let ext = if json_input_flag {
        "json".to_string()
    } else {
        "evtx".to_string()
    };
    let ghost given = match arg {
        Some(v) => string_views(v@),
        None => Seq::<Seq<char>>::empty(),
    };
    proof {
        assert(distinct(Seq::<Seq<char>>::empty()) =~= Seq::<Seq<char>>::empty());
        assert(given.push(ext@).drop_last() =~= given);
    }
    push_distinct(&mut r, ext);
    r
}

} // verus!
