//! Pre-expansion of a condition text: each `all of PFX*` becomes
//! `(s1 and s2 ...)` and each `1 of PFX*` becomes `(s1 or s2 ...)`, over
//! the selection names that start with `PFX`, in the order given.
use vstd::prelude::*;

use crate::condition::ConditionCompiler;
use crate::text::{chars_of, string_of};

verus! {

pub open spec fn all_of_word() -> Seq<char> {
    seq!['a', 'l', 'l', ' ', 'o', 'f', ' ']
}

pub open spec fn one_of_word() -> Seq<char> {
    seq!['1', ' ', 'o', 'f', ' ']
}

pub open spec fn and_sep() -> Seq<char> {
    seq![' ', 'a', 'n', 'd', ' ']
}

pub open spec fn or_sep() -> Seq<char> {
    seq![' ', 'o', 'r', ' ']
}

pub open spec fn starts_with(s: Seq<char>, p: Seq<char>) -> bool {
    p.len() <= s.len() && s.subrange(0, p.len() as int) == p
}

/// Index of the first `*` of `s`.
pub open spec fn first_star(s: Seq<char>) -> Option<int>
    decreases s.len(),
{
    if s.len() == 0 {
        None
    } else if s[0] == '*' {
        Some(0)
    } else {
        match first_star(s.drop_first()) {
            Some(k) => Some(k + 1),
            None => None,
        }
    }
}

/// A pattern `(all|1) of ([^*]+)\*` at the start of `s`: its length,
/// whether it is `all of`, and the prefix it names.
pub open spec fn of_match(s: Seq<char>) -> Option<(int, bool, Seq<char>)> {
    let p: int = if starts_with(s, all_of_word()) {
        7
    } else if starts_with(s, one_of_word()) {
        5
    } else {
        0
    };
    if p == 0 {
        None
    } else {
        let rest = s.subrange(p, s.len() as int);
        match first_star(rest) {
            Some(k) => if k > 0 && k < rest.len() {
                Some((p + k + 1, p == 7, rest.subrange(0, k)))
            } else {
                None
            },
            None => None,
        }
    }
}

/// The names of `keys` that start with `pfx`, in order.
pub open spec fn matching_keys(keys: Seq<Seq<char>>, pfx: Seq<char>) -> Seq<Seq<char>>
    decreases keys.len(),
{
    if keys.len() == 0 {
        Seq::empty()
    } else if starts_with(keys.last(), pfx) {
        matching_keys(keys.drop_last(), pfx).push(keys.last())
    } else {
        matching_keys(keys.drop_last(), pfx)
    }
}

/// `parts` joined with `sep` between neighbours.
pub open spec fn join(parts: Seq<Seq<char>>, sep: Seq<char>) -> Seq<char>
    decreases parts.len(),
{
    if parts.len() == 0 {
        Seq::empty()
    } else if parts.len() == 1 {
        parts[0]
    } else {
        join(parts.drop_last(), sep) + sep + parts.last()
    }
}

/// What replaces `all of pfx*` (`all`) or `1 of pfx*`.
pub open spec fn group_text(keys: Seq<Seq<char>>, pfx: Seq<char>, all: bool) -> Seq<char> {
    seq!['('] + join(matching_keys(keys, pfx), if all {
        and_sep()
    } else {
        or_sep()
    }) + seq![')']
}

/// The condition text `s` with each pattern replaced, scanning from the
/// left; matches do not overlap.
pub open spec fn expand(s: Seq<char>, keys: Seq<Seq<char>>) -> Seq<char>
    decreases s.len(),
{
    if s.len() == 0 {
        Seq::empty()
    } else {
        match of_match(s) {
            Some((len, all, pfx)) => if 0 < len <= s.len() {
                group_text(keys, pfx, all) + expand(s.subrange(len, s.len() as int), keys)
            } else {
                seq![s[0]] + expand(s.drop_first(), keys)
            },
            None => seq![s[0]] + expand(s.drop_first(), keys),
        }
    }
}

/// The character views of a sequence of strings.
pub open spec fn string_views(v: Seq<String>) -> Seq<Seq<char>> {
    v.map_values(|k: String| k@)
}

/// Whether `s[i..]` starts with `w`.
fn has_word_at(s: &Vec<char>, i: usize, w: &Vec<char>) -> (r: bool)
    requires
        i <= s@.len(),
    ensures
        r == starts_with(s@.subrange(i as int, s@.len() as int), w@),
{
    let ghost t = s@.subrange(i as int, s@.len() as int);
    if w.len() > s.len() - i {
        return false;
    }
    let n = s.len();
    let mut k: usize = 0;
    while k < w.len()
        invariant
            n == s@.len(),
            i + w@.len() <= s@.len(),
            k <= w@.len(),
            t == s@.subrange(i as int, s@.len() as int),
            forall|x: int| 0 <= x < k ==> t[x] == w@[x],
        decreases w@.len() - k,
    {
        if s[i + k] != w[k] {
            assert(t.subrange(0, w@.len() as int)[k as int] != w@[k as int]);
            return false;
        }
        k += 1;
    }
    assert(t.subrange(0, w@.len() as int) =~= w@);
    true
}

/// The pattern at `s[i..]`, as its length and the length of its
/// `all of ` or `1 of ` word.
fn of_match_at(s: &Vec<char>, i: usize, all_w: &Vec<char>, one_w: &Vec<char>) -> (r: Option<
    (usize, usize),
>)
    requires
        i <= s@.len(),
        all_w@ == all_of_word(),
        one_w@ == one_of_word(),
    ensures
        match of_match(s@.subrange(i as int, s@.len() as int)) {
            Some((len, all, pfx)) => r matches Some((l, p)) && l == len && (p == 7) == all && (
            p == 7 || p == 5) && pfx == s@.subrange(i + p, i + len - 1) && i + len <= s@.len(),
            None => r is None,
        },
{
    let n = s.len();
    let ghost t = s@.subrange(i as int, n as int);
    let p: usize = if has_word_at(s, i, all_w) {
        7
    } else if has_word_at(s, i, one_w) {
        5
    } else {
        0
    };
    if p == 0 {
        return None;
    }
    let ghost rest = t.subrange(p as int, t.len() as int);
    assert(rest =~= s@.subrange(i + p, n as int));
    let mut j = i + p;
    while j < n && s[j] != '*'
        invariant
            i + p <= j <= n,
            n == s@.len(),
            t == s@.subrange(i as int, n as int),
            rest == t.subrange(p as int, t.len() as int),
            forall|x: int| i + p <= x < j ==> s@[x] != '*',
            first_star(rest) == (match first_star(s@.subrange(j as int, n as int)) {
                Some(k) => Some(k + (j - i - p)),
                None => None,
            }),
        decreases n - j,
    {
        proof {
            let u = s@.subrange(j as int, n as int);
            assert(u.drop_first() =~= s@.subrange(j + 1, n as int));
        }
        j += 1;
    }
    if j == n || j == i + p {
        proof {
            if j < n {
                let u = s@.subrange(j as int, n as int);
                assert(u[0] == '*');
            } else {
                assert(s@.subrange(j as int, n as int).len() == 0);
            }
        }
        return None;
    }
    proof {
        let u = s@.subrange(j as int, n as int);
        assert(u[0] == '*');
        assert(rest.subrange(0, (j - i - p) as int) =~= s@.subrange(i + p, j as int));
    }
    Some((j - i + 1, p))
}

/// The text that replaces a pattern naming `s[lo..hi]`.
fn group_chars(keys: &[String], s: &Vec<char>, lo: usize, hi: usize, all: bool) -> (r: Vec<char>)
    requires
        lo <= hi <= s@.len(),
    ensures
        r@ == group_text(string_views(keys@), s@.subrange(lo as int, hi as int), all),
{
    let ghost pfx = s@.subrange(lo as int, hi as int);
    let ghost kv = string_views(keys@);
    let ghost sep = if all {
        and_sep()
    } else {
        or_sep()
    };
    let sep_str = if all {
        " and "
    } else {
        " or "
    };
    let sep_v = chars_of(sep_str);
    proof {
        reveal_strlit(" and ");
        reveal_strlit(" or ");
        assert(sep_v@ =~= sep);
    }
    let mut pfx_v: Vec<char> = Vec::new();
    let mut x = lo;
    while x < hi
        invariant
            lo <= x <= hi <= s@.len(),
            pfx_v@ == s@.subrange(lo as int, x as int),
        decreases hi - x,
    {
        pfx_v.push(s[x]);
        x += 1;
        assert(pfx_v@ =~= s@.subrange(lo as int, x as int));
    }
    let mut body: Vec<char> = Vec::new();
    let mut any = false;
    let mut j: usize = 0;
    while j < keys.len()
        invariant
            j <= keys@.len(),
            kv == string_views(keys@),
            pfx_v@ == pfx,
            sep_v@ == sep,
            body@ == join(matching_keys(kv.subrange(0, j as int), pfx), sep),
            any == (matching_keys(kv.subrange(0, j as int), pfx).len() > 0),
        decreases keys@.len() - j,
    {
        let k = chars_of(keys[j].as_str());
        let hit = has_word_at(&k, 0, &pfx_v);
        let ghost before = matching_keys(kv.subrange(0, j as int), pfx);
        proof {
            assert(kv.subrange(0, j + 1).drop_last() =~= kv.subrange(0, j as int));
            assert(kv.subrange(0, j + 1).last() == k@);
            assert(k@.subrange(0, k@.len() as int) =~= k@);
        }
        if hit {
            if any {
                let mut y: usize = 0;
                let ghost b0 = body@;
                while y < sep_v.len()
                    invariant
                        y <= sep_v@.len(),
                        body@ == b0 + sep_v@.subrange(0, y as int),
                    decreases sep_v@.len() - y,
                {
                    body.push(sep_v[y]);
                    y += 1;
                    assert(body@ =~= b0 + sep_v@.subrange(0, y as int));
                }
                assert(sep_v@.subrange(0, sep_v@.len() as int) =~= sep_v@);
            }
            let ghost b1 = body@;
            let mut y: usize = 0;
            while y < k.len()
                invariant
                    y <= k@.len(),
                    body@ == b1 + k@.subrange(0, y as int),
                decreases k@.len() - y,
            {
                body.push(k[y]);
                y += 1;
                assert(body@ =~= b1 + k@.subrange(0, y as int));
            }
            proof {
                assert(k@.subrange(0, k@.len() as int) =~= k@);
                let m = before.push(k@);
                if before.len() == 0 {
                    assert(m.len() == 1);
                    assert(body@ =~= join(m, sep));
                } else {
                    assert(m.drop_last() =~= before);
                    assert(body@ =~= join(m, sep));
                }
            }
            any = true;
        }
        j += 1;
    }
    assert(kv.subrange(0, keys@.len() as int) =~= kv);
    let mut r: Vec<char> = Vec::new();
    r.push('(');
    let ghost r0 = r@;
    let mut y: usize = 0;
    while y < body.len()
        invariant
            y <= body@.len(),
            r@ == r0 + body@.subrange(0, y as int),
        decreases body@.len() - y,
    {
        r.push(body[y]);
        y += 1;
        assert(r@ =~= r0 + body@.subrange(0, y as int));
    }
    r.push(')');
    assert(body@.subrange(0, body@.len() as int) =~= body@);
    assert(r@ =~= group_text(kv, pfx, all));
    r
}

impl ConditionCompiler {
    /// Replaces each `all of PFX*` by `(s1 and s2 ...)` and each `1 of PFX*`
/// by `(s1 or s2 ...)`, where `s1, s2, ...` are the names of `node_keys`
/// that start with `PFX`, in their order. Other text is kept as it is.
pub fn convert_condition(condition_str: &str, node_keys: &[String]) -> (r: String)
    ensures
        r@ == expand(condition_str@, string_views(node_keys@)),
{
    let s = chars_of(condition_str);
    let n = s.len();
    let all_w = chars_of("all of ");
    let one_w = chars_of("1 of ");
    proof {
        reveal_strlit("all of ");
        reveal_strlit("1 of ");
        assert(all_w@ =~= all_of_word());
        assert(one_w@ =~= one_of_word());
    }
    let ghost kv = string_views(node_keys@);
    let mut out: Vec<char> = Vec::new();
    let mut i: usize = 0;
    assert(s@.subrange(0, n as int) =~= s@);
    while i < n
        invariant
            n == s@.len(),
            s@ == condition_str@,
            all_w@ == all_of_word(),
            one_w@ == one_of_word(),
            kv == string_views(node_keys@),
            i <= n,
            expand(s@, kv) == out@ + expand(s@.subrange(i as int, n as int), kv),
        decreases n - i,
    {
        let ghost t = s@.subrange(i as int, n as int);
        let ghost before = out@;
        match of_match_at(&s, i, &all_w, &one_w) {
            Some((len, p)) => {
                let g = group_chars(node_keys, &s, i + p, i + len - 1, p == 7);
                let mut y: usize = 0;
                while y < g.len()
                    invariant
                        y <= g@.len(),
                        out@ == before + g@.subrange(0, y as int),
                    decreases g@.len() - y,
                {
                    out.push(g[y]);
                    y += 1;
                    assert(out@ =~= before + g@.subrange(0, y as int));
                }
                proof {
                    assert(g@.subrange(0, g@.len() as int) =~= g@);
                    assert(t.subrange(len as int, t.len() as int) =~= s@.subrange(
                        i + len,
                        n as int,
                    ));
                    assert(out@ + expand(s@.subrange(i + len, n as int), kv) =~= before + (g@
                        + expand(s@.subrange(i + len, n as int), kv)));
                }
                i = i + len;
            },
            None => {
                out.push(s[i]);
                proof {
                    assert(t.drop_first() =~= s@.subrange(i + 1, n as int));
                    assert(out@ + expand(s@.subrange(i + 1, n as int), kv) =~= before + (seq![
                        s@[i as int],
                    ] + expand(s@.subrange(i + 1, n as int), kv)));
                }
                i += 1;
            },
        }
    }
    assert(out@ + expand(s@.subrange(n as int, n as int), kv) =~= out@);
    string_of(&out)
}

} // impl ConditionCompiler

proof fn lemma_first_star_after(pfx: Seq<char>)
    requires
        forall|i: int| 0 <= i < pfx.len() ==> pfx[i] != '*',
    ensures
        first_star(pfx + seq!['*']) == Some(pfx.len() as int),
    decreases pfx.len(),
{
    let s = pfx + seq!['*'];
    if pfx.len() > 0 {
        assert(s.drop_first() =~= pfx.drop_first() + seq!['*']);
        lemma_first_star_after(pfx.drop_first());
    }
}

/// `all of PFX*` alone expands to the names starting with `PFX` joined by
/// `and`, and `1 of PFX*` to the same names joined by `or`, each group in
/// parentheses.
pub proof fn lemma_of_pattern_expands(pfx: Seq<char>, keys: Seq<Seq<char>>)
    requires
        pfx.len() > 0,
        forall|i: int| 0 <= i < pfx.len() ==> pfx[i] != '*',
    ensures
        expand(all_of_word() + pfx + seq!['*'], keys) == group_text(keys, pfx, true),
        expand(one_of_word() + pfx + seq!['*'], keys) == group_text(keys, pfx, false),
{
    lemma_first_star_after(pfx);
    let a = all_of_word() + pfx + seq!['*'];
    assert(a.subrange(0, 7) =~= all_of_word());
    assert(a.subrange(7, a.len() as int) =~= pfx + seq!['*']);
    assert((pfx + seq!['*']).subrange(0, pfx.len() as int) =~= pfx);
    assert(a.subrange(a.len() as int, a.len() as int) =~= Seq::<char>::empty());
    assert(starts_with(a, all_of_word()));
    assert(of_match(a) == Some((a.len() as int, true, pfx)));
    assert(expand(Seq::<char>::empty(), keys) == Seq::<char>::empty());
    assert(expand(a, keys) =~= group_text(keys, pfx, true) + Seq::<char>::empty());
    let o = one_of_word() + pfx + seq!['*'];
    assert(o.subrange(0, 5) =~= one_of_word());
    assert(!starts_with(o, all_of_word())) by {
        if starts_with(o, all_of_word()) {
            assert(o.subrange(0, 7)[0] == 'a');
        }
    }
    assert(o.subrange(5, o.len() as int) =~= pfx + seq!['*']);
    assert(o.subrange(o.len() as int, o.len() as int) =~= Seq::<char>::empty());
    assert(starts_with(o, one_of_word()));
    assert(of_match(o) == Some((o.len() as int, false, pfx)));
    assert(expand(o, keys) =~= group_text(keys, pfx, false) + Seq::<char>::empty());
}

proof fn lemma_first_star_prefix(x: Seq<char>, y: Seq<char>)
    requires
        first_star(x) is Some,
    ensures
        first_star(x + y) == first_star(x),
    decreases x.len(),
{
    if x[0] != '*' {
        assert((x + y).drop_first() =~= x.drop_first() + y);
        lemma_first_star_prefix(x.drop_first(), y);
    }
}

/// The word that begins an `all of` (`all`) or a `1 of` pattern.
pub open spec fn of_word(all: bool) -> Seq<char> {
    if all {
        all_of_word()
    } else {
        one_of_word()
    }
}

#[verifier::spinoff_prover]
proof fn lemma_of_pattern_at_start(pfx: Seq<char>, all: bool, b: Seq<char>, keys: Seq<Seq<char>>)
    requires
        pfx.len() > 0,
        forall|i: int| 0 <= i < pfx.len() ==> pfx[i] != '*',
    ensures
        expand(of_word(all) + pfx + seq!['*'] + b, keys) == group_text(keys, pfx, all) + expand(b, keys),
{
    let w = of_word(all);
    let t = w + pfx + seq!['*'] + b;
    lemma_first_star_after(pfx);
    lemma_first_star_prefix(pfx + seq!['*'], b);
    let p = w.len() as int;
    assert(t.subrange(0, p) =~= w);
    assert(t.subrange(p, t.len() as int) =~= pfx + seq!['*'] + b);
    assert((pfx + seq!['*'] + b).subrange(0, pfx.len() as int) =~= pfx);
    assert(t.subrange(p + pfx.len() + 1, t.len() as int) =~= b);
    if !all {
        assert(!starts_with(t, all_of_word())) by {
            if starts_with(t, all_of_word()) {
                assert(t.subrange(0, 7)[0] == 'a');
            }
        }
    }
    assert(of_match(t) == Some((p + pfx.len() + 1, all, pfx)));
}

/// The pattern `all of PFX*` (`all`) or `1 of PFX*` expands in place: the
/// text before it, where no pattern begins, and the text after it expand
/// on their own, and the pattern becomes the group of the names starting
/// with `PFX`, joined by `and` (for `all of`) or by `or`.
#[verifier::spinoff_prover]
pub proof fn lemma_of_pattern_in_context(
    a: Seq<char>,
    pfx: Seq<char>,
    all: bool,
    b: Seq<char>,
    keys: Seq<Seq<char>>,
)
    requires
        pfx.len() > 0,
        forall|i: int| 0 <= i < pfx.len() ==> pfx[i] != '*',
        forall|i: int|
            0 <= i < a.len() ==> !#[trigger] pat_at(a + of_word(all) + pfx + seq!['*'] + b, i),
    ensures
        expand(
            a + of_word(all) + pfx + seq!['*'] + b,
            keys,
        ) == expand(a, keys) + group_text(keys, pfx, all) + expand(b, keys),
    decreases a.len(),
{
    let w = of_word(all);
    let t = w + pfx + seq!['*'] + b;
    let u = a + t;
    assert(u =~= a + w + pfx + seq!['*'] + b);
    if a.len() == 0 {
        assert(u =~= t);
        lemma_of_pattern_at_start(pfx, all, b, keys);
        assert(expand(a, keys) == Seq::<char>::empty());
        assert(expand(t, keys) =~= expand(a, keys) + group_text(keys, pfx, all) + expand(b, keys));
    } else {
        assert(!pat_at(u, 0));
        assert(u.subrange(0, u.len() as int) =~= u);
        if of_match(u) is Some {
            lemma_of_match_needs_word(u, 0);
        }
        let a1 = a.drop_first();
        assert(u.drop_first() =~= a1 + w + pfx + seq!['*'] + b);
        assert forall|i: int| 0 <= i < a1.len() implies !pat_at(a1 + w + pfx + seq!['*'] + b, i) by {
            lemma_pat_shift(u, 1, i);
            assert(u.subrange(1, u.len() as int) =~= a1 + w + pfx + seq!['*'] + b);
        }
        lemma_of_pattern_in_context(a1, pfx, all, b, keys);
        if of_match(a) is Some {
            assert(a.subrange(0, a.len() as int) =~= a);
            lemma_of_match_needs_word(a, 0);
            if starts_with(a, all_of_word()) {
                assert(u.subrange(0, 7) =~= a.subrange(0, 7));
            } else {
                assert(u.subrange(0, 5) =~= a.subrange(0, 5));
            }
            assert(u.subrange(0, u.len() as int) =~= u);
            assert(pat_at(u, 0));
        }
        assert(expand(u, keys) == seq![u[0]] + expand(u.drop_first(), keys));
        assert(expand(a, keys) == seq![a[0]] + expand(a1, keys));
        assert(expand(u, keys) =~= expand(a, keys) + group_text(keys, pfx, all) + expand(b, keys));
    }
}

/// An `all of ` or `1 of ` word starts at `i` of `u`.
pub open spec fn pat_at(u: Seq<char>, i: int) -> bool {
    0 <= i <= u.len() && (starts_with(u.subrange(i, u.len() as int), all_of_word()) || starts_with(
        u.subrange(i, u.len() as int),
        one_of_word(),
    ))
}

/// The selection names hold no space and no `*`.
pub open spec fn plain_names(keys: Seq<Seq<char>>) -> bool {
    forall|k: int, j: int|
        0 <= k < keys.len() && 0 <= j < keys[k].len() ==> keys[k][j] != ' ' && keys[k][j] != '*'
}

proof fn lemma_of_match_needs_word(u: Seq<char>, i: int)
    requires
        0 <= i <= u.len(),
        of_match(u.subrange(i, u.len() as int)) is Some,
    ensures
        pat_at(u, i),
{
}

proof fn lemma_no_pattern_fixed(u: Seq<char>, keys: Seq<Seq<char>>)
    requires
        forall|i: int| 0 <= i < u.len() ==> of_match(#[trigger] u.subrange(i, u.len() as int)) is None,
    ensures
        expand(u, keys) == u,
    decreases u.len(),
{
    if u.len() > 0 {
        let t = u.drop_first();
        assert(u.subrange(0, u.len() as int) =~= u);
        assert forall|i: int| 0 <= i < t.len() implies of_match(
            #[trigger] t.subrange(i, t.len() as int),
        ) is None by {
            assert(t.subrange(i, t.len() as int) =~= u.subrange(i + 1, u.len() as int));
        }
        lemma_no_pattern_fixed(t, keys);
        assert(expand(u, keys) =~= seq![u[0]] + t);
    }
}

pub open spec fn star_free(u: Seq<char>) -> bool {
    forall|i: int| 0 <= i < u.len() ==> u[i] != '*'
}

proof fn lemma_matching_keys_sub(keys: Seq<Seq<char>>, pfx: Seq<char>)
    ensures
        forall|i: int|
            0 <= i < matching_keys(keys, pfx).len() ==> exists|k: int|
                0 <= k < keys.len() && keys[k] == #[trigger] matching_keys(keys, pfx)[i],
    decreases keys.len(),
{
    if keys.len() > 0 {
        lemma_matching_keys_sub(keys.drop_last(), pfx);
        let m0 = matching_keys(keys.drop_last(), pfx);
        let m = matching_keys(keys, pfx);
        assert forall|i: int| 0 <= i < m.len() implies exists|k: int|
            0 <= k < keys.len() && keys[k] == #[trigger] m[i] by {
            if i < m0.len() {
                assert(m[i] == m0[i]);
                let k = choose|k: int| 0 <= k < keys.drop_last().len() && keys.drop_last()[k] == m0[i];
                assert(keys[k] == m0[i]);
            } else {
                assert(m[i] == keys.last());
                assert(keys[keys.len() - 1] == m[i]);
            }
        }
    }
}

/// Every part holds no space and no `*`.
pub open spec fn plain_parts(ms: Seq<Seq<char>>) -> bool {
    forall|k: int, j: int|
        0 <= k < ms.len() && 0 <= j < ms[k].len() ==> ms[k][j] != ' ' && ms[k][j] != '*'
}

proof fn lemma_plain_matching(keys: Seq<Seq<char>>, pfx: Seq<char>)
    requires
        plain_names(keys),
    ensures
        plain_parts(matching_keys(keys, pfx)),
{
    lemma_matching_keys_sub(keys, pfx);
    let m = matching_keys(keys, pfx);
    assert forall|k: int, j: int| 0 <= k < m.len() && 0 <= j < m[k].len() implies m[k][j] != ' '
        && m[k][j] != '*' by {
        let x = choose|x: int| 0 <= x < keys.len() && keys[x] == #[trigger] m[k];
        assert(keys[x][j] == m[k][j]);
    }
}

proof fn lemma_join_star_free(ms: Seq<Seq<char>>, sep: Seq<char>)
    requires
        plain_parts(ms),
        star_free(sep),
    ensures
        star_free(join(ms, sep)),
    decreases ms.len(),
{
    if ms.len() == 1 {
        assert(ms[0] == join(ms, sep));
        assert forall|i: int| 0 <= i < ms[0].len() implies ms[0][i] != '*' by {}
    } else if ms.len() > 1 {
        let d = ms.drop_last();
        assert(plain_parts(d)) by {
            assert forall|k: int, j: int| 0 <= k < d.len() && 0 <= j < d[k].len() implies d[k][j]
                != ' ' && d[k][j] != '*' by {
                assert(d[k] == ms[k]);
            }
        }
        lemma_join_star_free(d, sep);
        let l = ms.last();
        assert(l == ms[ms.len() - 1]);
        let a = join(d, sep);
        let j = join(ms, sep);
        assert(j == a + sep + l);
        assert forall|i: int| 0 <= i < j.len() implies j[i] != '*' by {
            if i < a.len() {
                assert(j[i] == a[i]);
            } else if i < a.len() + sep.len() {
                assert(j[i] == sep[i - a.len()]);
            } else {
                assert(j[i] == l[i - a.len() - sep.len()]);
            }
        }
    }
}

proof fn lemma_group_star_free(keys: Seq<Seq<char>>, pfx: Seq<char>, all: bool)
    requires
        plain_names(keys),
    ensures
        star_free(group_text(keys, pfx, all)),
{
    lemma_plain_matching(keys, pfx);
    let sep = if all {
        and_sep()
    } else {
        or_sep()
    };
    lemma_join_star_free(matching_keys(keys, pfx), sep);
    let j = join(matching_keys(keys, pfx), sep);
    let g = group_text(keys, pfx, all);
    assert(g == seq!['('] + j + seq![')']);
    assert forall|i: int| 0 <= i < g.len() implies g[i] != '*' by {
        if 0 < i < g.len() - 1 {
            assert(g[i] == j[i - 1]);
        }
    }
}

/// Expanding a text without `*` leaves no `*`.
proof fn lemma_expand_star_free(t: Seq<char>, keys: Seq<Seq<char>>)
    requires
        plain_names(keys),
        star_free(t),
    ensures
        star_free(expand(t, keys)),
    decreases t.len(),
{
    if t.len() > 0 {
        let e = expand(t, keys);
        match of_match(t) {
            Some((len, all, pfx)) => {
                if 0 < len <= t.len() {
                    let r = t.subrange(len, t.len() as int);
                    lemma_expand_star_free(r, keys);
                    lemma_group_star_free(keys, pfx, all);
                    let g = group_text(keys, pfx, all);
                    let er = expand(r, keys);
                    assert(e == g + er);
                    assert forall|i: int| 0 <= i < e.len() implies e[i] != '*' by {
                        if i < g.len() {
                            assert(e[i] == g[i]);
                        } else {
                            assert(e[i] == er[i - g.len()]);
                        }
                    }
                } else {
                    let r = t.drop_first();
                    lemma_expand_star_free(r, keys);
                    assert forall|i: int| 0 <= i < e.len() implies e[i] != '*' by {
                        if i > 0 {
                            assert(e[i] == expand(r, keys)[i - 1]);
                        }
                    }
                }
            },
            None => {
                let r = t.drop_first();
                lemma_expand_star_free(r, keys);
                assert forall|i: int| 0 <= i < e.len() implies e[i] != '*' by {
                    if i > 0 {
                        assert(e[i] == expand(r, keys)[i - 1]);
                    }
                }
            },
        }
    }
}

/// The first character of an expansion: `(` where a pattern starts,
/// the first character of the text otherwise.
proof fn lemma_expand_first(t: Seq<char>, keys: Seq<Seq<char>>)
    requires
        t.len() > 0,
    ensures
        expand(t, keys).len() > 0,
        of_match(t) is None ==> expand(t, keys) == seq![t[0]] + expand(t.drop_first(), keys),
        of_match(t) is Some ==> expand(t, keys)[0] == '(',
{
    if let Some((len, all, pfx)) = of_match(t) {
        let g = group_text(keys, pfx, all);
        assert(g[0] == '(');
    }
}

/// An expansion that starts with `w`, a word without `(`, comes from a
/// text that starts with `w`, copied.
proof fn lemma_expand_starts(t: Seq<char>, w: Seq<char>, keys: Seq<Seq<char>>)
    requires
        w.len() <= expand(t, keys).len(),
        expand(t, keys).subrange(0, w.len() as int) == w,
        forall|i: int| 0 <= i < w.len() ==> w[i] != '(',
    ensures
        w.len() <= t.len(),
        t.subrange(0, w.len() as int) == w,
        expand(t, keys) == w + expand(t.subrange(w.len() as int, t.len() as int), keys),
    decreases w.len(),
{
    if w.len() == 0 {
        assert(t.subrange(0, 0) =~= w);
        assert(t.subrange(0, t.len() as int) =~= t);
        assert(w + expand(t, keys) =~= expand(t, keys));
    } else {
        if t.len() == 0 {
            assert(expand(t, keys).len() == 0);
        }
        lemma_expand_first(t, keys);
        assert(expand(t, keys)[0] == w[0]);
        assert(of_match(t) is None);
        let r = t.drop_first();
        let e = expand(t, keys);
        let er = expand(r, keys);
        assert(e == seq![t[0]] + er);
        let w1 = w.drop_first();
        assert(er.subrange(0, w1.len() as int) =~= w1) by {
            assert forall|i: int| 0 <= i < w1.len() implies er[i] == w1[i] by {
                assert(e[i + 1] == er[i]);
                assert(e.subrange(0, w.len() as int)[i + 1] == w[i + 1]);
            }
        }
        lemma_expand_starts(r, w1, keys);
        assert(t.subrange(0, w.len() as int) =~= seq![t[0]] + r.subrange(0, w1.len() as int));
        assert(t[0] == w[0]) by {
            assert(e.subrange(0, w.len() as int)[0] == w[0]);
        }
        assert(t.subrange(0, w.len() as int) =~= w);
        assert(r.subrange(w1.len() as int, r.len() as int) =~= t.subrange(
            w.len() as int,
            t.len() as int,
        ));
        assert(e =~= w + expand(t.subrange(w.len() as int, t.len() as int), keys));
    }
}

/// What may follow a name inside a group: `)` or the separator `sep`.
pub open spec fn good_follow(t: Seq<char>, sep: Seq<char>) -> bool {
    (sep == and_sep() || sep == or_sep()) && t.len() > 0 && (t[0] == ')' || starts_with(t, sep))
}

proof fn lemma_pat_shift(u: Seq<char>, off: int, i: int)
    requires
        0 <= off <= u.len(),
        0 <= i <= u.len() - off,
    ensures
        pat_at(u, off + i) == pat_at(u.subrange(off, u.len() as int), i),
{
    let v = u.subrange(off, u.len() as int);
    assert(v.subrange(i, v.len() as int) =~= u.subrange(off + i, u.len() as int));
}

/// No `all of ` or `1 of ` starts inside a name that is followed by `)`
/// or a separator.
proof fn lemma_name_no_pattern(l: Seq<char>, t: Seq<char>, sep: Seq<char>, i: int)
    requires
        forall|j: int| 0 <= j < l.len() ==> l[j] != ' ',
        good_follow(t, sep),
        0 <= i < l.len(),
    ensures
        !pat_at(l + t, i),
{
    let v = l + t;
    let n = l.len() as int;
    if pat_at(v, i) {
        let w = v.subrange(i, v.len() as int);
        if starts_with(w, all_of_word()) {
            assert(w.subrange(0, 7)[3] == ' ' && w.subrange(0, 7)[1] == 'l' && w.subrange(0, 7)[2]
                == 'l' && w.subrange(0, 7)[4] == 'o' && w.subrange(0, 7)[5] == 'f');
            assert(v[i + 3] == ' ');
            assert(v[i + 1] == 'l' && v[i + 2] == 'l' && v[i + 4] == 'o' && v[i + 5] == 'f');
            assert(i + 3 >= n);
            assert(i + 3 == n) by {
                if i + 1 == n {
                    assert(v[i + 1] == t[0]);
                    if t[0] != ')' {
                        assert(t.subrange(0, sep.len() as int)[0] == sep[0]);
                    }
                } else if i + 2 == n {
                    assert(v[i + 2] == t[0]);
                    if t[0] != ')' {
                        assert(t.subrange(0, sep.len() as int)[0] == sep[0]);
                    }
                }
            }
            assert(v[n] == t[0] && v[n + 1] == t[1] && v[n + 2] == t[2]);
            assert(t[0] == ' ');
            assert(t.subrange(0, sep.len() as int) == sep);
            assert(t.subrange(0, sep.len() as int)[1] == sep[1]);
            assert(t.subrange(0, sep.len() as int)[2] == sep[2]);
        } else {
            assert(starts_with(w, one_of_word()));
            assert(w.subrange(0, 5)[1] == ' ' && w.subrange(0, 5)[2] == 'o' && w.subrange(0, 5)[3]
                == 'f');
            assert(v[i + 1] == ' ' && v[i + 2] == 'o' && v[i + 3] == 'f');
            assert(i + 1 == n);
            assert(v[n] == t[0] && v[n + 1] == t[1] && v[n + 2] == t[2]);
            assert(t.subrange(0, sep.len() as int) == sep);
            assert(t.subrange(0, sep.len() as int)[1] == sep[1]);
            assert(t.subrange(0, sep.len() as int)[2] == sep[2]);
        }
    }
}

/// No `all of ` or `1 of ` starts inside a separator.
proof fn lemma_sep_no_pattern(sep: Seq<char>, t: Seq<char>, i: int)
    requires
        sep == and_sep() || sep == or_sep(),
        0 <= i < sep.len(),
    ensures
        !pat_at(sep + t, i),
{
    let v = sep + t;
    if pat_at(v, i) {
        let w = v.subrange(i, v.len() as int);
        assert(w[0] == v[i]);
        if starts_with(w, all_of_word()) {
            assert(w.subrange(0, 7)[0] == 'a' && w.subrange(0, 7)[1] == 'l');
            assert(v[i] == 'a' && v[i + 1] == 'l');
        } else {
            assert(w.subrange(0, 5)[0] == '1');
            assert(v[i] == '1');
        }
    }
}

/// No `all of ` or `1 of ` starts inside the names joined by `sep` when
/// what follows is `)` or a separator.
proof fn lemma_join_no_pattern(ms: Seq<Seq<char>>, sep: Seq<char>, t: Seq<char>)
    requires
        plain_parts(ms),
        good_follow(t, sep),
    ensures
        forall|i: int| 0 <= i < join(ms, sep).len() ==> !pat_at(#[trigger] (join(ms, sep) + t), i),
    decreases ms.len(),
{
    if ms.len() == 1 {
        let l = ms[0];
        assert forall|j: int| 0 <= j < l.len() implies l[j] != ' ' by {}
        assert forall|i: int| 0 <= i < join(ms, sep).len() implies !pat_at(
            #[trigger] (join(ms, sep) + t),
            i,
        ) by {
            lemma_name_no_pattern(l, t, sep, i);
        }
    } else if ms.len() > 1 {
        let d = ms.drop_last();
        let l = ms.last();
        assert(l == ms[ms.len() - 1]);
        assert(plain_parts(d)) by {
            assert forall|k: int, j: int| 0 <= k < d.len() && 0 <= j < d[k].len() implies d[k][j]
                != ' ' && d[k][j] != '*' by {
                assert(d[k] == ms[k]);
            }
        }
        let a = join(d, sep);
        let t2 = sep + l + t;
        assert(t2.subrange(0, sep.len() as int) =~= sep);
        assert(good_follow(t2, sep));
        lemma_join_no_pattern(d, sep, t2);
        let u = join(ms, sep) + t;
        assert(u =~= a + t2);
        assert forall|i: int| 0 <= i < join(ms, sep).len() implies !pat_at(#[trigger] (join(ms, sep) + t), i) by {
            if i < a.len() {
                assert(!pat_at(a + t2, i));
            } else if i < a.len() + sep.len() {
                let v = sep + (l + t);
                assert(u.subrange(a.len() as int, u.len() as int) =~= v);
                lemma_sep_no_pattern(sep, l + t, i - a.len());
                lemma_pat_shift(u, a.len() as int, i - a.len());
            } else {
                let off = (a.len() + sep.len()) as int;
                let v = l + t;
                assert(u.subrange(off, u.len() as int) =~= v);
                assert forall|j: int| 0 <= j < l.len() implies l[j] != ' ' by {}
                lemma_name_no_pattern(l, t, sep, i - off);
                lemma_pat_shift(u, off, i - off);
            }
        }
    }
}

/// No `all of ` or `1 of ` starts inside the text that replaces a
/// pattern, whatever follows it.
proof fn lemma_group_no_pattern(keys: Seq<Seq<char>>, pfx: Seq<char>, all: bool, e: Seq<char>)
    requires
        plain_names(keys),
    ensures
        forall|i: int| 0 <= i < group_text(keys, pfx, all).len() ==> !pat_at(
            #[trigger] (group_text(keys, pfx, all) + e),
            i,
        ),
{
    lemma_plain_matching(keys, pfx);
    let sep = if all {
        and_sep()
    } else {
        or_sep()
    };
    let ms = matching_keys(keys, pfx);
    let j = join(ms, sep);
    let g = group_text(keys, pfx, all);
    let u = g + e;
    let t = seq![')'] + e;
    assert(good_follow(t, sep));
    lemma_join_no_pattern(ms, sep, t);
    assert(u =~= seq!['('] + (j + t));
    assert forall|i: int| 0 <= i < g.len() implies !pat_at(#[trigger] (group_text(keys, pfx, all) + e), i) by {
        if i == 0 {
            if pat_at(u, 0) {
                let w = u.subrange(0, u.len() as int);
                if starts_with(w, all_of_word()) {
                    assert(w.subrange(0, 7)[0] == 'a');
                } else {
                    assert(w.subrange(0, 5)[0] == '1');
                }
            }
        } else if i < g.len() - 1 {
            assert(u.subrange(1, u.len() as int) =~= j + t);
            lemma_pat_shift(u, 1, i - 1);
        } else {
            if pat_at(u, i) {
                let w = u.subrange(i, u.len() as int);
                assert(u[i] == ')');
                if starts_with(w, all_of_word()) {
                    assert(w.subrange(0, 7)[0] == 'a');
                } else {
                    assert(w.subrange(0, 5)[0] == '1');
                }
            }
        }
    }
}

proof fn lemma_first_star_facts(u: Seq<char>)
    ensures
        first_star(u) is None <==> star_free(u),
        first_star(u) matches Some(k) ==> 0 <= k < u.len() && u[k] == '*',
        u.len() > 0 && u[0] == '*' ==> first_star(u) == Some(0int),
    decreases u.len(),
{
    if u.len() > 0 {
        lemma_first_star_facts(u.drop_first());
        if u[0] != '*' {
            if star_free(u.drop_first()) {
                assert forall|i: int| 0 <= i < u.len() implies u[i] != '*' by {
                    if i > 0 {
                        assert(u[i] == u.drop_first()[i - 1]);
                    }
                }
            }
            if star_free(u) {
                assert forall|i: int| 0 <= i < u.drop_first().len() implies u.drop_first()[i]
                    != '*' by {
                    assert(u.drop_first()[i] == u[i + 1]);
                }
            }
        }
    }
}

/// After `word` (`all of ` or `1 of `) at the start of `s` no pattern
/// could start (`of_match(s)` is none); then none starts at the start of
/// `word` followed by the expansion of the rest of `s`.
proof fn lemma_copied_word(s: Seq<char>, word: Seq<char>, keys: Seq<Seq<char>>)
    requires
        plain_names(keys),
        word == all_of_word() || word == one_of_word(),
        starts_with(s, word),
        of_match(s) is None,
    ensures
        of_match(word + expand(s.subrange(word.len() as int, s.len() as int), keys)) is None,
{
    let p = word.len() as int;
    let rest = s.subrange(p, s.len() as int);
    let er = expand(rest, keys);
    let e = word + er;
    assert(!(word == one_of_word() && starts_with(s, all_of_word()))) by {
        if word == one_of_word() && starts_with(s, all_of_word()) {
            assert(s.subrange(0, 5)[0] == '1');
            assert(s.subrange(0, 7)[0] == 'a');
        }
    }
    assert(e.subrange(0, p) =~= word);
    assert(starts_with(e, word));
    assert(!(word == one_of_word() && starts_with(e, all_of_word()))) by {
        if word == one_of_word() && starts_with(e, all_of_word()) {
            assert(e.subrange(0, 5)[0] == '1');
            assert(e.subrange(0, 7)[0] == 'a');
        }
    }
    assert(e.subrange(p, e.len() as int) =~= er);
    lemma_first_star_facts(rest);
    lemma_first_star_facts(er);
    if first_star(rest) is None {
        lemma_expand_star_free(rest, keys);
    } else {
        assert(rest.len() > 0 && rest[0] == '*');
        lemma_expand_first(rest, keys);
        if of_match(rest) is Some {
            let w = rest;
            if starts_with(w, all_of_word()) {
                assert(w.subrange(0, 7)[0] == 'a');
            } else {
                assert(w.subrange(0, 5)[0] == '1');
            }
        }
        assert(er[0] == '*');
    }
}

/// Nowhere in an expansion does a pattern start.
proof fn lemma_expand_no_match(s: Seq<char>, keys: Seq<Seq<char>>)
    requires
        plain_names(keys),
    ensures
        forall|i: int|
            0 <= i < expand(s, keys).len() ==> of_match(
                #[trigger] expand(s, keys).subrange(i, expand(s, keys).len() as int),
            ) is None,
    decreases s.len(),
{
    let e = expand(s, keys);
    if s.len() == 0 {
    } else {
        let grouped = match of_match(s) {
            Some((len, all, pfx)) => 0 < len <= s.len(),
            None => false,
        };
        if grouped {
            let (len, all, pfx) = of_match(s)->0;
            let r = s.subrange(len, s.len() as int);
            let g = group_text(keys, pfx, all);
            let er = expand(r, keys);
            lemma_expand_no_match(r, keys);
            lemma_group_no_pattern(keys, pfx, all, er);
            assert(e == g + er);
            assert forall|i: int| 0 <= i < e.len() implies of_match(
                #[trigger] e.subrange(i, e.len() as int),
            ) is None by {
                if i < g.len() {
                    if of_match(e.subrange(i, e.len() as int)) is Some {
                        lemma_of_match_needs_word(e, i);
                    }
                } else {
                    assert(e.subrange(i, e.len() as int) =~= er.subrange(i - g.len(), er.len() as int));
                }
            }
        } else {
            let r = s.drop_first();
            let er = expand(r, keys);
            lemma_expand_no_match(r, keys);
            assert(e == seq![s[0]] + er);
            assert forall|i: int| 0 <= i < e.len() implies of_match(
                #[trigger] e.subrange(i, e.len() as int),
            ) is None by {
                if i > 0 {
                    assert(e.subrange(i, e.len() as int) =~= er.subrange(i - 1, er.len() as int));
                } else {
                    assert(e.subrange(0, e.len() as int) =~= e);
                    if of_match(e) is Some {
                        assert(of_match(s) is None) by {
                            if let Some((len, all, pfx)) = of_match(s) {
                                let rest0 = s.subrange(if all { 7int } else { 5int }, s.len() as int);
                                lemma_first_star_facts(rest0);
                            }
                        }
                        lemma_of_match_needs_word(e, 0);
                        let word = if starts_with(e, all_of_word()) {
                            all_of_word()
                        } else {
                            one_of_word()
                        };
                        let p = word.len() as int;
                        assert(e.subrange(0, p) == word);
                        let w1 = word.drop_first();
                        assert(er.subrange(0, w1.len() as int) =~= w1) by {
                            assert forall|k: int| 0 <= k < w1.len() implies er[k] == w1[k] by {
                                assert(e[k + 1] == er[k]);
                                assert(e.subrange(0, p)[k + 1] == word[k + 1]);
                            }
                        }
                        lemma_expand_starts(r, w1, keys);
                        assert(s[0] == word[0]) by {
                            assert(e[0] == s[0]);
                            assert(e.subrange(0, p)[0] == word[0]);
                        }
                        assert(s.subrange(0, p) =~= word) by {
                            assert(s.subrange(0, p) =~= seq![s[0]] + r.subrange(0, w1.len() as int));
                        }
                        assert(r.subrange(w1.len() as int, r.len() as int) =~= s.subrange(p, s.len() as int));
                        assert(e =~= word + expand(s.subrange(p, s.len() as int), keys));
                        lemma_copied_word(s, word, keys);
                    }
                }
            }
        }
    }
}

/// Pre-expansion is a fixed point: expanding an expanded condition gives
/// it back, when no selection name holds a space or a `*`.
pub proof fn lemma_expand_fixed_point(s: Seq<char>, keys: Seq<Seq<char>>)
    requires
        plain_names(keys),
    ensures
        expand(expand(s, keys), keys) == expand(s, keys),
{
    lemma_expand_no_match(s, keys);
    lemma_no_pattern_fixed(expand(s, keys), keys);
}

} // verus!
