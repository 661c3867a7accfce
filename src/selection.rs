//! Selections of a rule: each names fields of an event record and the
//! values they must match, with modifiers (`contains`, `startswith`,
//! `endswith`, `re`, `all`, `cased`, `gt`, `ge`, `lt`, `le`).
use vstd::prelude::*;

use crate::count::{has_char, parse_i64, parse_i64_text};
use crate::expand::string_views;
use crate::matcher::{
    contains_chars, contains_seq, ends_with_chars, glob, glob_match, has_wildcard, occurs_at,
    starts_with_chars,
};
use crate::text::{
    chars_of, concat, lower_of, lowercase, regex_compiles, regex_hit, regex_search,
    regex_valid,
};

verus! {

/// How a field value is compared with a pattern.
#[derive(Clone, Copy, Debug, PartialEq, Eq)]
pub enum MatchKind {
    /// Equal, or matching the pattern's `*` and `?` wildcards.
    Equals,
    Contains,
    StartsWith,
    EndsWith,
    /// The whole value matches the regular expression.
    Regex,
    Gt,
    Ge,
    Lt,
    Le,
}

/// One field of a selection: the values it may take.
#[derive(Clone, Debug)]
pub struct FieldMatcher {
    pub field: String,
    pub kind: MatchKind,
    /// Every pattern must hit (otherwise one is enough).
    pub all: bool,
    /// Letter case counts (otherwise it is ignored).
    pub cased: bool,
    pub patterns: Vec<String>,
}

/// Whether the (already case-folded) pattern `p` hits the value `v` for
/// a textual comparison.
pub open spec fn text_hit(kind: MatchKind, p: Seq<char>, v: Seq<char>) -> bool {
    match kind {
        MatchKind::Equals => if has_wildcard(p) {
            glob(p, v)
        } else {
            p == v
        },
        MatchKind::Contains => contains_seq(v, p),
        MatchKind::StartsWith => occurs_at(p, v, 0),
        MatchKind::EndsWith => p.len() <= v.len() && occurs_at(p, v, v.len() - p.len()),
        _ => false,
    }
}

/// Whether value `v` compares with pattern `p` as numbers; false when
/// either is no integer.
pub open spec fn number_hit(kind: MatchKind, p: Seq<char>, v: Seq<char>) -> bool {
    match (parse_i64(v), parse_i64(p)) {
        (Some(a), Some(b)) => match kind {
            MatchKind::Gt => a > b,
            MatchKind::Ge => a >= b,
            MatchKind::Lt => a < b,
            MatchKind::Le => a <= b,
            _ => false,
        },
        _ => false,
    }
}

pub open spec fn is_numeric(kind: MatchKind) -> bool {
    kind is Gt || kind is Ge || kind is Lt || kind is Le
}

/// The regular expression that matches exactly the texts whose whole
/// matches `p`, ignoring case when `fold` holds.
pub open spec fn anchored(p: Seq<char>, fold: bool) -> Seq<char> {
    if fold {
        "^(?i:"@ + p + ")$"@
    } else {
        "^(?:"@ + p + ")$"@
    }
}

/// `p` anchored at both ends, ignoring case when `fold` holds.
fn anchor_pattern(p: &str, fold: bool) -> (r: String)
    ensures
        r@ == anchored(p@, fold),
{
    let head = if fold {
        concat("^(?i:", p)
    } else {
        concat("^(?:", p)
    };
    concat(head.as_str(), ")$")
}

/// Whether pattern `p` hits value `v`.
pub open spec fn pattern_holds(kind: MatchKind, cased: bool, p: Seq<char>, v: Seq<char>) -> bool {
    if kind is Regex {
        regex_hit(anchored(p, !cased), v)
    } else if is_numeric(kind) {
        number_hit(kind, p, v)
    } else if cased {
        text_hit(kind, p, v)
    } else {
        text_hit(kind, lower_of(p), lower_of(v))
    }
}

/// Whether the value `v` satisfies the field matcher `m`.
pub open spec fn matcher_holds(m: FieldMatcher, v: Seq<char>) -> bool {
    let ps = string_views(m.patterns@);
    if m.all {
        forall|i: int| 0 <= i < ps.len() ==> pattern_holds(m.kind, m.cased, #[trigger] ps[i], v)
    } else {
        exists|i: int| 0 <= i < ps.len() && pattern_holds(m.kind, m.cased, #[trigger] ps[i], v)
    }
}

/// Whether pattern `p` hits value `v` for a textual comparison, both
/// already case-folded where case is ignored.
#[verifier::loop_isolation(false)]
pub fn text_hit_chars(kind: MatchKind, p: &Vec<char>, v: &Vec<char>) -> (r: bool)
    ensures
        r == text_hit(kind, p@, v@),
{
    match kind {
        MatchKind::Equals => {
            if has_char(p, '*') || has_char(p, '?') {
                glob_match(p, v)
            } else {
                if p.len() != v.len() {
                    return false;
                }
                let mut i: usize = 0;
                while i < p.len()
                    invariant
                        i <= p@.len(),
                        p@.len() == v@.len(),
                        forall|k: int| 0 <= k < i ==> p@[k] == v@[k],
                    decreases p@.len() - i,
                {
                    if p[i] != v[i] {
                        assert(p@[i as int] != v@[i as int]);
                        assert(p@ != v@);
                        return false;
                    }
                    i += 1;
                }
                assert(p@ =~= v@);
                true
            }
        },
        MatchKind::Contains => contains_chars(v, p),
        MatchKind::StartsWith => starts_with_chars(v, p),
        MatchKind::EndsWith => ends_with_chars(v, p),
        _ => false,
    }
}

/// Whether value `v` compares with pattern `p` as integers.
pub fn number_hit_chars(kind: MatchKind, p: &Vec<char>, v: &Vec<char>) -> (r: bool)
    ensures
        r == number_hit(kind, p@, v@),
{
    match (parse_i64_text(v), parse_i64_text(p)) {
        (Some(a), Some(b)) => match kind {
            MatchKind::Gt => a > b,
            MatchKind::Ge => a >= b,
            MatchKind::Lt => a < b,
            MatchKind::Le => a <= b,
            _ => false,
        },
        _ => false,
    }
}

/// Whether pattern `p` hits value `v` under `kind`.
pub fn pattern_hits(kind: MatchKind, cased: bool, p: &String, v: &String) -> (r: bool)
    ensures
        r == pattern_holds(kind, cased, p@, v@),
{
    match kind {
        MatchKind::Regex => {
            let a = anchor_pattern(p.as_str(), !cased);
            regex_search(a.as_str(), v.as_str())
        },
        MatchKind::Gt | MatchKind::Ge | MatchKind::Lt | MatchKind::Le => {
            let pc = chars_of(p.as_str());
            let vc = chars_of(v.as_str());
            number_hit_chars(kind, &pc, &vc)
        },
        _ => {
            if cased {
                let pc = chars_of(p.as_str());
                let vc = chars_of(v.as_str());
                text_hit_chars(kind, &pc, &vc)
            } else {
                let pl = lowercase(p.as_str());
                let vl = lowercase(v.as_str());
                let pc = chars_of(pl.as_str());
                let vc = chars_of(vl.as_str());
                text_hit_chars(kind, &pc, &vc)
            }
        },
    }
}

/// Whether the value `value` satisfies the field matcher `m`: every
/// pattern hits with `all`, some pattern otherwise.
pub fn value_matches(m: &FieldMatcher, value: &String) -> (r: bool)
    ensures
        r == matcher_holds(*m, value@),
{
    let ghost ps = string_views(m.patterns@);
    let mut i: usize = 0;
    while i < m.patterns.len()
        invariant
            i <= m.patterns@.len(),
            ps == string_views(m.patterns@),
            m.all ==> forall|k: int| 0 <= k < i ==> pattern_holds(m.kind, m.cased, #[trigger] ps[k], value@),
            !m.all ==> forall|k: int| 0 <= k < i ==> !pattern_holds(m.kind, m.cased, #[trigger] ps[k], value@),
        decreases m.patterns@.len() - i,
    {
        let hit = pattern_hits(m.kind, m.cased, &m.patterns[i], value);
        assert(ps[i as int] == m.patterns@[i as int]@);
        if m.all && !hit {
            return false;
        }
        if !m.all && hit {
            return true;
        }
        i += 1;
    }
    m.all
}

/// `s` cut at each `|`.
pub open spec fn split_bar(s: Seq<char>) -> Seq<Seq<char>>
    decreases s.len(),
{
    if s.len() == 0 {
        seq![Seq::empty()]
    } else {
        let r = split_bar(s.drop_last());
        if s.last() == '|' {
            r.push(Seq::empty())
        } else {
            r.update(r.len() - 1, r.last().push(s.last()))
        }
    }
}

/// The comparison a modifier names, if it names one.
pub open spec fn kind_word(w: Seq<char>) -> Option<MatchKind> {
    if w == "contains"@ {
        Some(MatchKind::Contains)
    } else if w == "startswith"@ {
        Some(MatchKind::StartsWith)
    } else if w == "endswith"@ {
        Some(MatchKind::EndsWith)
    } else if w == "re"@ {
        Some(MatchKind::Regex)
    } else if w == "gt"@ {
        Some(MatchKind::Gt)
    } else if w == "ge"@ {
        Some(MatchKind::Ge)
    } else if w == "lt"@ {
        Some(MatchKind::Lt)
    } else if w == "le"@ {
        Some(MatchKind::Le)
    } else {
        None
    }
}

/// The comparison of a modifier list: the last one that names one, or
/// `Equals`.
pub open spec fn kind_of(mods: Seq<Seq<char>>) -> MatchKind
    decreases mods.len(),
{
    if mods.len() == 0 {
        MatchKind::Equals
    } else if kind_word(mods.last()) is Some {
        kind_word(mods.last())->0
    } else {
        kind_of(mods.drop_last())
    }
}

/// Modifiers this matcher knows.
pub open spec fn known_modifier(w: Seq<char>) -> bool {
    kind_word(w) is Some || w == "all"@ || w == "cased"@
}

/// A field entry `key` (`field|modifiers`) with `patterns` compiles: its
/// modifiers are all known, and the patterns of a `re` entry are valid
/// regular expressions.
pub open spec fn field_ok(key: Seq<char>, patterns: Seq<String>) -> bool {
    let mods = split_bar(key).drop_first();
    &&& forall|i: int| 0 <= i < mods.len() ==> known_modifier(#[trigger] mods[i])
    &&& kind_of(mods) is Regex ==> forall|i: int|
        0 <= i < patterns.len() ==> regex_valid(#[trigger] patterns[i]@)
}

/// `m` is the matcher of the field entry `key` with `patterns`.
pub open spec fn field_compiled(m: FieldMatcher, key: Seq<char>, patterns: Seq<String>) -> bool {
    let parts = split_bar(key);
    let mods = parts.drop_first();
    &&& m.field@ == parts[0]
    &&& m.kind == kind_of(mods)
    &&& m.all == mods.contains("all"@)
    &&& m.cased == mods.contains("cased"@)
    &&& m.patterns@ == patterns
}

/// Reads one field entry of a selection: `key` is the field name
/// followed by `|`-separated modifiers, `patterns` the values. An unknown
/// modifier, or a regular expression that does not compile, is an error.
#[verifier::loop_isolation(false)]
pub fn compile_field(key: &str, patterns: Vec<String>) -> (r: Result<FieldMatcher, String>)
    ensures
        r is Ok <==> field_ok(key@, patterns@),
        r is Ok ==> field_compiled(r->Ok_0, key@, patterns@),
{
    proof {
        reveal_strlit("contains");
        reveal_strlit("startswith");
        reveal_strlit("endswith");
        reveal_strlit("re");
        reveal_strlit("gt");
        reveal_strlit("ge");
        reveal_strlit("lt");
        reveal_strlit("le");
        reveal_strlit("all");
        reveal_strlit("cased");
    }
    let parts = split_key(key);
    let ghost ps = parts@.map_values(|v: Vec<char>| v@);
    let ghost mods = ps.drop_first();
    let mut kind = MatchKind::Equals;
    let mut all = false;
    let mut cased = false;
    let mut i: usize = 1;
    assert(mods.subrange(0, 0) =~= Seq::<Seq<char>>::empty());
    while i < parts.len()
        invariant
            1 <= i <= parts@.len(),
            ps == parts@.map_values(|v: Vec<char>| v@),
            mods == ps.drop_first(),
            forall|k: int| 0 <= k < i - 1 ==> known_modifier(#[trigger] mods[k]),
            kind == kind_of(mods.subrange(0, i - 1)),
            all == mods.subrange(0, i - 1).contains("all"@),
            cased == mods.subrange(0, i - 1).contains("cased"@),
        decreases parts@.len() - i,
    {
        let w = &parts[i];
        let ghost wv = w@;
        let ghost pre = mods.subrange(0, i - 1);
        let ghost now = mods.subrange(0, i as int);
        assert(now.drop_last() =~= pre);
        assert(now.last() == wv);
        assert(wv == mods[i - 1]);
        let kw = kind_word_of(w);
        assert("all"@.len() == 3 && "cased"@.len() == 5);
        match kw {
            Some(k) => {
                assert(wv != "all"@ && wv != "cased"@);
                kind = k;
            },
            None => {
                if is_word(w, "all") {
                    assert(wv != "cased"@);
                    all = true;
                } else if is_word(w, "cased") {
                    assert(wv != "all"@);
                    cased = true;
                } else {
                    assert(!known_modifier(mods[i - 1]));
                    return Err(concat("Unknown modifier in a selection field: ", key));
                }
            },
        }
        proof {
            assert(now.contains("all"@) == (pre.contains("all"@) || wv == "all"@)) by {
                if now.contains("all"@) {
                    let k = choose|k: int| 0 <= k < now.len() && now[k] == "all"@;
                    if k < pre.len() {
                        assert(pre[k] == now[k]);
                    }
                }
                if pre.contains("all"@) {
                    let k = choose|k: int| 0 <= k < pre.len() && pre[k] == "all"@;
                    assert(now[k] == pre[k]);
                }
            }
            assert(now.contains("cased"@) == (pre.contains("cased"@) || wv == "cased"@)) by {
                if now.contains("cased"@) {
                    let k = choose|k: int| 0 <= k < now.len() && now[k] == "cased"@;
                    if k < pre.len() {
                        assert(pre[k] == now[k]);
                    }
                }
                if pre.contains("cased"@) {
                    let k = choose|k: int| 0 <= k < pre.len() && pre[k] == "cased"@;
                    assert(now[k] == pre[k]);
                }
            }
        }
        i += 1;
    }
    assert(mods.subrange(0, mods.len() as int) =~= mods);
    if let MatchKind::Regex = kind {
        let mut j: usize = 0;
        while j < patterns.len()
            invariant
                j <= patterns@.len(),
                forall|k: int| 0 <= k < j ==> regex_valid(#[trigger] patterns@[k]@),
            decreases patterns@.len() - j,
        {
            if !regex_compiles(patterns[j].as_str()) {
                return Err(concat("A regular expression does not compile: ", patterns[j].as_str()));
            }
            j += 1;
        }
    }
    let field = crate::text::string_of(&parts[0]);
    Ok(FieldMatcher { field, kind, all, cased, patterns })
}

/// Whether the characters of `w` spell `lit`.
fn is_word(w: &Vec<char>, lit: &str) -> (r: bool)
    ensures
        r == (w@ == lit@),
{
    let l = chars_of(lit);
    if w.len() != l.len() {
        return false;
    }
    let mut i: usize = 0;
    while i < w.len()
        invariant
            i <= w@.len(),
            w@.len() == l@.len(),
            l@ == lit@,
            forall|k: int| 0 <= k < i ==> w@[k] == l@[k],
        decreases w@.len() - i,
    {
        if w[i] != l[i] {
            assert(w@[i as int] != l@[i as int]);
            return false;
        }
        i += 1;
    }
    assert(w@ =~= l@);
    true
}

/// The comparison the modifier `w` names, if any.
fn kind_word_of(w: &Vec<char>) -> (r: Option<MatchKind>)
    ensures
        r == kind_word(w@),
{
    if is_word(w, "contains") {
        Some(MatchKind::Contains)
    } else if is_word(w, "startswith") {
        Some(MatchKind::StartsWith)
    } else if is_word(w, "endswith") {
        Some(MatchKind::EndsWith)
    } else if is_word(w, "re") {
        Some(MatchKind::Regex)
    } else if is_word(w, "gt") {
        Some(MatchKind::Gt)
    } else if is_word(w, "ge") {
        Some(MatchKind::Ge)
    } else if is_word(w, "lt") {
        Some(MatchKind::Lt)
    } else if is_word(w, "le") {
        Some(MatchKind::Le)
    } else {
        None
    }
}

/// The parts of `key` between the `|` characters.
fn split_key(key: &str) -> (r: Vec<Vec<char>>)
    ensures
        r@.map_values(|v: Vec<char>| v@) == split_bar(key@),
        r@.len() >= 1,
{
    let s = chars_of(key);
    let mut parts: Vec<Vec<char>> = Vec::new();
    parts.push(Vec::new());
    let mut i: usize = 0;
    assert(s@.subrange(0, 0) =~= Seq::<char>::empty());
    assert(parts@.map_values(|v: Vec<char>| v@) =~= seq![Seq::<char>::empty()]);
    while i < s.len()
        invariant
            i <= s@.len(),
            s@ == key@,
            parts@.len() >= 1,
            parts@.map_values(|v: Vec<char>| v@) == split_bar(s@.subrange(0, i as int)),
        decreases s@.len() - i,
    {
        let ghost before = parts@.map_values(|v: Vec<char>| v@);
        let ghost sub = s@.subrange(0, i + 1);
        assert(sub.drop_last() =~= s@.subrange(0, i as int));
        assert(sub.last() == s@[i as int]);
        if s[i] == '|' {
            parts.push(Vec::new());
            assert(parts@.map_values(|v: Vec<char>| v@) =~= before.push(Seq::<char>::empty()));
        } else {
            let last = parts.len() - 1;
            let mut cur = parts.remove(last);
            cur.push(s[i]);
            parts.push(cur);
            assert(parts@.map_values(|v: Vec<char>| v@) =~= before.update(
                before.len() - 1,
                before.last().push(s@[i as int]),
            ));
        }
        i += 1;
    }
    assert(s@.subrange(0, s@.len() as int) =~= s@);
    parts
}

} // verus!
