//! Pivot keywords: the table of keys and the record fields listed under
//! each, read from the lines of a pivot keyword file.
use vstd::prelude::*;

use crate::rule::{lookup, EventRecord, FieldAliases};
use crate::text::{chars_of, string_of};

verus! {

/// Index of the first `c` of `s` at or after `from`.
pub open spec fn index_from(s: Seq<char>, c: char, from: int) -> Option<int>
    decreases s.len() - from,
{
    if from < 0 || from >= s.len() {
        None
    } else if s[from] == c {
        Some(from)
    } else {
        index_from(s, c, from + 1)
    }
}

/// The key and the field of a pivot keyword line `key.field[.rest]`; none
/// for a line without a `.`.
pub open spec fn pivot_entry(line: Seq<char>) -> Option<(Seq<char>, Seq<char>)> {
    match index_from(line, '.', 0) {
        None => None,
        Some(d) => {
            let end = match index_from(line, '.', d + 1) {
                Some(e) => e,
                None => line.len() as int,
            };
            Some((line.subrange(0, d), line.subrange(d + 1, end)))
        },
    }
}

/// `table` with `field` added under `key`: appended to that key's fields
/// if not among them already, or as a new last key.
pub open spec fn add_pivot(
    table: Seq<(Seq<char>, Seq<Seq<char>>)>,
    key: Seq<char>,
    field: Seq<char>,
) -> Seq<(Seq<char>, Seq<Seq<char>>)>
    decreases table.len(),
{
    if table.len() == 0 {
        seq![(key, seq![field])]
    } else if table[0].0 == key {
        if table[0].1.contains(field) {
            table
        } else {
            table.update(0, (key, table[0].1.push(field)))
        }
    } else {
        seq![table[0]] + add_pivot(table.drop_first(), key, field)
    }
}

/// The pivot keyword table of `lines`, line by line.
pub open spec fn pivot_table(lines: Seq<Seq<char>>) -> Seq<(Seq<char>, Seq<Seq<char>>)>
    decreases lines.len(),
{
    if lines.len() == 0 {
        Seq::empty()
    } else {
        let t = pivot_table(lines.drop_last());
        match pivot_entry(lines.last()) {
            Some((k, f)) => add_pivot(t, k, f),
            None => t,
        }
    }
}

/// The view of a pivot keyword table.
pub open spec fn pivot_view(t: Seq<(String, Vec<String>)>) -> Seq<(Seq<char>, Seq<Seq<char>>)> {
    t.map_values(|e: (String, Vec<String>)| (e.0@, e.1@.map_values(|f: String| f@)))
}

pub(crate) fn index_from_exec(s: &Vec<char>, c: char, from: usize) -> (r: Option<usize>)
    requires
        from <= s@.len(),
    ensures
        match index_from(s@, c, from as int) {
            Some(k) => r == Some(k as usize) && from <= k < s@.len(),
            None => r is None,
        },
{
    let mut i = from;
    while i < s.len()
        invariant
            from <= i <= s@.len(),
            index_from(s@, c, from as int) == index_from(s@, c, i as int),
        decreases s@.len() - i,
    {
        if s[i] == c {
            return Some(i);
        }
        i += 1;
    }
    None
}

pub(crate) fn chars_between(s: &Vec<char>, lo: usize, hi: usize) -> (r: String)
    requires
        lo <= hi <= s@.len(),
    ensures
        r@ == s@.subrange(lo as int, hi as int),
{
    let mut v: Vec<char> = Vec::new();
    let mut i = lo;
    while i < hi
        invariant
            lo <= i <= hi <= s@.len(),
            v@ == s@.subrange(lo as int, i as int),
        decreases hi - i,
    {
        v.push(s[i]);
        i += 1;
        assert(v@ =~= s@.subrange(lo as int, i as int));
    }
    string_of(&v)
}

/// Whether `v` holds a string equal to `x`.
fn holds(v: &Vec<String>, x: &String) -> (r: bool)
    ensures
        r == v@.map_values(|f: String| f@).contains(x@),
{
    let ghost fv = v@.map_values(|f: String| f@);
    let mut j: usize = 0;
    while j < v.len()
        invariant
            j <= v@.len(),
            fv == v@.map_values(|f: String| f@),
            forall|y: int| 0 <= y < j ==> fv[y] != x@,
        decreases v@.len() - j,
    {
        if v[j] == *x {
            assert(fv[j as int] == x@);
            return true;
        }
        j += 1;
    }
    false
}

/// Adds `field` under `key` in `table`.
fn add_pivot_exec(table: &mut Vec<(String, Vec<String>)>, key: String, field: String)
    ensures
        pivot_view(final(table)@) == add_pivot(pivot_view(old(table)@), key@, field@),
{
    let ghost t0 = pivot_view(table@);
    let mut i: usize = 0;
    assert(t0.subrange(0, 0) + t0.subrange(0, t0.len() as int) =~= t0);
    while i < table.len()
        invariant
            i <= table@.len(),
            pivot_view(table@) == t0,
            t0 == pivot_view(old(table)@),
            add_pivot(t0, key@, field@) == t0.subrange(0, i as int) + add_pivot(
                t0.subrange(i as int, t0.len() as int),
                key@,
                field@,
            ),
        decreases table@.len() - i,
    {
        let ghost rest = t0.subrange(i as int, t0.len() as int);
        assert(rest[0] == t0[i as int]);
        if table[i].0 == key {
            let ghost tb = table@;
            let (k, mut fields) = table.remove(i);
            let ghost fv = fields@.map_values(|f: String| f@);
            let found = holds(&fields, &field);
            if !found {
                fields.push(field);
            }
            let ghost kv = k@;
            let ghost fnew = fields@.map_values(|f: String| f@);
            table.insert(i, (k, fields));
            proof {
                assert(fv == rest[0].1);
                assert(kv == key@);
                assert(table@ =~= tb.update(i as int, table@[i as int]));
                assert(pivot_view(table@) =~= t0.update(i as int, (key@, fnew)));
                if found {
                    assert(pivot_view(table@) =~= t0);
                    assert(add_pivot(rest, key@, field@) == rest);
                    assert(t0.subrange(0, i as int) + rest =~= t0);
                } else {
                    let upd = rest.update(0, (key@, rest[0].1.push(field@)));
                    assert(fnew =~= fv.push(field@));
                    assert(add_pivot(rest, key@, field@) == upd);
                    assert(pivot_view(table@) =~= t0.subrange(0, i as int) + upd);
                }
            }
            return;
        }
        proof {
            assert(rest.drop_first() =~= t0.subrange(i + 1, t0.len() as int));
            assert(t0.subrange(0, i + 1) =~= t0.subrange(0, i as int) + seq![rest[0]]);
            assert(t0.subrange(0, i as int) + (seq![rest[0]] + add_pivot(
                rest.drop_first(),
                key@,
                field@,
            )) =~= t0.subrange(0, i + 1) + add_pivot(rest.drop_first(), key@, field@));
        }
        i += 1;
    }
    let mut fields: Vec<String> = Vec::new();
    fields.push(field);
    let ghost fnew = fields@.map_values(|f: String| f@);
    assert(fnew =~= seq![field@]);
    let ghost tb = table@;
    table.push((key, fields));
    proof {
        assert(table@ == tb.push(table@.last()));
        assert(pivot_view(table@) =~= pivot_view(tb).push((key@, fnew)));
        assert(t0.subrange(i as int, t0.len() as int).len() == 0);
        assert(t0.subrange(0, i as int) =~= t0);
        assert(pivot_view(table@) =~= t0 + seq![(key@, seq![field@])]);
    }
}

/// The pivot keyword table of the lines of a pivot keyword file: each
/// line `key.field` adds `field` under `key`, keys and their fields in the
/// order they first occur. A line without a `.` adds nothing.
pub fn load_pivot_keywords(lines: &Vec<String>) -> (r: Vec<(String, Vec<String>)>)
    ensures
        pivot_view(r@) == pivot_table(lines@.map_values(|l: String| l@)),
{
    let ghost lv = lines@.map_values(|l: String| l@);
    let mut table: Vec<(String, Vec<String>)> = Vec::new();
    let mut i: usize = 0;
    assert(pivot_view(table@) =~= Seq::<(Seq<char>, Seq<Seq<char>>)>::empty());
    assert(lv.subrange(0, 0) =~= Seq::<Seq<char>>::empty());
    while i < lines.len()
        invariant
            i <= lines@.len(),
            lv == lines@.map_values(|l: String| l@),
            pivot_view(table@) == pivot_table(lv.subrange(0, i as int)),
        decreases lines@.len() - i,
    {
        let ghost sub = lv.subrange(0, i + 1);
        assert(sub.drop_last() =~= lv.subrange(0, i as int));
        assert(sub.last() == lines@[i as int]@);
        let line = chars_of(lines[i].as_str());
        let n = line.len();
        match index_from_exec(&line, '.', 0) {
            None => {},
            Some(d) => {
                let end = match index_from_exec(&line, '.', d + 1) {
                    Some(e) => e,
                    None => n,
                };
                let key = chars_between(&line, 0, d);
                let field = chars_between(&line, d + 1, end);
                add_pivot_exec(&mut table, key, field);
            },
        }
        i += 1;
    }
    assert(lv.subrange(0, lines@.len() as int) =~= lv);
    table
}

/// The record's level allows collecting pivot keywords: it has one, and
/// it is none of `infomational`, `undefined` and `-`.
pub open spec fn level_allows(record: EventRecord) -> bool {
    match lookup(record.fields@, "Event.System.Level"@) {
        None => false,
        Some(l) => l != "infomational"@ && l != "undefined"@ && l != "-"@,
    }
}

/// The value that field `field` (an alias of the table) gives to the
/// keywords: none when the alias or its path is missing, or the value is
/// `-`, `127.0.0.1` or `::1`.
pub open spec fn pivot_value(aliases: FieldAliases, record: EventRecord, field: Seq<char>) -> Option<Seq<char>> {
    match lookup(aliases.pairs@, field) {
        None => None,
        Some(path) => match lookup(record.fields@, path) {
            None => None,
            Some(v) => if v == "-"@ || v == "127.0.0.1"@ || v == "::1"@ {
                None
            } else {
                Some(v)
            },
        },
    }
}

/// `kw` with the values of `fields` added under `key`, field by field.
pub open spec fn add_fields(
    kw: Seq<(Seq<char>, Seq<Seq<char>>)>,
    key: Seq<char>,
    fields: Seq<Seq<char>>,
    aliases: FieldAliases,
    record: EventRecord,
) -> Seq<(Seq<char>, Seq<Seq<char>>)>
    decreases fields.len(),
{
    if fields.len() == 0 {
        kw
    } else {
        let k2 = add_fields(kw, key, fields.drop_last(), aliases, record);
        match pivot_value(aliases, record, fields.last()) {
            Some(v) => add_pivot(k2, key, v),
            None => k2,
        }
    }
}

/// `kw` with the values of every key of `table` added, key by key.
pub open spec fn add_table(
    kw: Seq<(Seq<char>, Seq<Seq<char>>)>,
    table: Seq<(Seq<char>, Seq<Seq<char>>)>,
    aliases: FieldAliases,
    record: EventRecord,
) -> Seq<(Seq<char>, Seq<Seq<char>>)>
    decreases table.len(),
{
    if table.len() == 0 {
        kw
    } else {
        add_fields(
            add_table(kw, table.drop_last(), aliases, record),
            table.last().0,
            table.last().1,
            aliases,
            record,
        )
    }
}

/// Collects the pivot keywords of `record`: for each key of `table` and
/// each of its fields, the record's value of that field is added under
/// the key in `keywords`, unless the record's level rules it out.
pub fn insert_pivot_keyword(
    record: &EventRecord,
    aliases: &FieldAliases,
    table: &Vec<(String, Vec<String>)>,
    keywords: &mut Vec<(String, Vec<String>)>,
)
    ensures
        level_allows(*record) ==> pivot_view(final(keywords)@) == add_table(
            pivot_view(old(keywords)@),
            pivot_view(table@),
            *aliases,
            *record,
        ),
        !level_allows(*record) ==> final(keywords)@ == old(keywords)@,
{
    proof {
        reveal_strlit("infomational");
        reveal_strlit("undefined");
        reveal_strlit("-");
        reveal_strlit("127.0.0.1");
        reveal_strlit("::1");
    }
    let level = match record.get_by_path(&"Event.System.Level".to_string()) {
        None => {
            return;
        },
        Some(l) => l,
    };
    if level == "infomational".to_string() || level == "undefined".to_string() || level
        == "-".to_string() {
        return;
    }
    let ghost tv = pivot_view(table@);
    let ghost k0 = pivot_view(keywords@);
    let mut i: usize = 0;
    assert(tv.subrange(0, 0) =~= Seq::<(Seq<char>, Seq<Seq<char>>)>::empty());
    while i < table.len()
        invariant
            i <= table@.len(),
            tv == pivot_view(table@),
            pivot_view(keywords@) == add_table(k0, tv.subrange(0, i as int), *aliases, *record),
        decreases table@.len() - i,
    {
        let key = &table[i].0;
        let fields = &table[i].1;
        let ghost fv = fields@.map_values(|f: String| f@);
        let ghost start = pivot_view(keywords@);
        let mut j: usize = 0;
        assert(fv.subrange(0, 0) =~= Seq::<Seq<char>>::empty());
        while j < fields.len()
            invariant
                j <= fields@.len(),
                fv == fields@.map_values(|f: String| f@),
                pivot_view(keywords@) == add_fields(start, key@, fv.subrange(0, j as int), *aliases, *record),
            decreases fields@.len() - j,
        {
            let ghost sub = fv.subrange(0, j + 1);
            assert(sub.drop_last() =~= fv.subrange(0, j as int));
            assert(sub.last() == fields@[j as int]@);
            if let Some(path) = lookup_alias(aliases, &fields[j]) {
                if let Some(v) = record.get_by_path(&path) {
                    if !(v == "-".to_string() || v == "127.0.0.1".to_string() || v == "::1".to_string()) {
                        add_pivot_exec(keywords, key.clone(), v);
                    }
                }
            }
            j += 1;
        }
        proof {
            assert(fv.subrange(0, fields@.len() as int) =~= fv);
            let now = tv.subrange(0, i + 1);
            assert(now.drop_last() =~= tv.subrange(0, i as int));
            assert(now.last() == tv[i as int]);
            assert(tv[i as int] == (key@, fv));
        }
        i += 1;
    }
    assert(tv.subrange(0, table@.len() as int) =~= tv);
}

/// The path of alias `name` in the alias table, if listed.
fn lookup_alias(aliases: &FieldAliases, name: &String) -> (r: Option<String>)
    ensures
        match lookup(aliases.pairs@, name@) {
            Some(v) => r is Some && r->0@ == v,
            None => r is None,
        },
{
    let mut i: usize = 0;
    assert(aliases.pairs@.subrange(0, aliases.pairs@.len() as int) =~= aliases.pairs@);
    while i < aliases.pairs.len()
        invariant
            i <= aliases.pairs@.len(),
            lookup(aliases.pairs@, name@) == lookup(
                aliases.pairs@.subrange(i as int, aliases.pairs@.len() as int),
                name@,
            ),
        decreases aliases.pairs@.len() - i,
    {
        let ghost rest = aliases.pairs@.subrange(i as int, aliases.pairs@.len() as int);
        assert(rest.drop_first() =~= aliases.pairs@.subrange(i + 1, aliases.pairs@.len() as int));
        assert(rest[0] == aliases.pairs@[i as int]);
        if aliases.pairs[i].0 == *name {
            return Some(aliases.pairs[i].1.clone());
        }
        i += 1;
    }
    None
}

} // verus!
