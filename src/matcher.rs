//! Matching of one selection field: wildcard patterns, the substring
//! modifiers, numeric comparisons and regular expressions.
use vstd::prelude::*;

verus! {

/// `text` matches the wildcard pattern `p`: `*` stands for any run of
/// characters, `?` for any one character, every other character for
/// itself.
pub open spec fn glob(p: Seq<char>, t: Seq<char>) -> bool
    decreases p.len() + t.len(),
{
    if p.len() == 0 {
        t.len() == 0
    } else if p[0] == '*' {
        glob(p.drop_first(), t) || (t.len() > 0 && glob(p, t.drop_first()))
    } else if t.len() == 0 {
        false
    } else if p[0] == '?' || p[0] == t[0] {
        glob(p.drop_first(), t.drop_first())
    } else {
        false
    }
}

/// `p` occurs in `t` starting at `i`.
pub open spec fn occurs_at(p: Seq<char>, t: Seq<char>, i: int) -> bool {
    0 <= i && i + p.len() <= t.len() && t.subrange(i, i + p.len()) == p
}

pub open spec fn contains_seq(t: Seq<char>, p: Seq<char>) -> bool {
    exists|i: int| occurs_at(p, t, i)
}

pub open spec fn has_wildcard(p: Seq<char>) -> bool {
    p.contains('*') || p.contains('?')
}

/// Whether `p` occurs in `t` at `i`.
fn occurs_at_exec(p: &Vec<char>, t: &Vec<char>, i: usize) -> (r: bool)
    ensures
        r == occurs_at(p@, t@, i as int),
{
    if i > t.len() || p.len() > t.len() - i {
        return false;
    }
    let n = t.len();
    let mut k: usize = 0;
    while k < p.len()
        invariant
            n == t@.len(),
            i + p@.len() <= t@.len(),
            k <= p@.len(),
            forall|x: int| 0 <= x < k ==> t@[i + x] == p@[x],
        decreases p@.len() - k,
    {
        if t[i + k] != p[k] {
            assert(t@.subrange(i as int, i + p@.len())[k as int] != p@[k as int]);
            return false;
        }
        k += 1;
    }
    assert(t@.subrange(i as int, i + p@.len()) =~= p@);
    true
}

/// Whether `p` occurs anywhere in `t`.
pub fn contains_chars(t: &Vec<char>, p: &Vec<char>) -> (r: bool)
    ensures
        r == contains_seq(t@, p@),
{
    let n = t.len();
    let mut i: usize = 0;
    while i < n
        invariant
            i <= n,
            n == t@.len(),
            forall|x: int| 0 <= x < i ==> !occurs_at(p@, t@, x),
        decreases n - i,
    {
        if occurs_at_exec(p, t, i) {
            return true;
        }
        i += 1;
    }
    if occurs_at_exec(p, t, n) {
        return true;
    }
    assert forall|x: int| !occurs_at(p@, t@, x) by {
        if 0 <= x && x < n {
        } else if x > n {
        }
    }
    false
}

/// Whether `t` starts with `p`.
pub fn starts_with_chars(t: &Vec<char>, p: &Vec<char>) -> (r: bool)
    ensures
        r == occurs_at(p@, t@, 0),
{
    occurs_at_exec(p, t, 0)
}

/// Whether `t` ends with `p`.
pub fn ends_with_chars(t: &Vec<char>, p: &Vec<char>) -> (r: bool)
    ensures
        r == (p@.len() <= t@.len() && occurs_at(p@, t@, t@.len() - p@.len())),
{
    if p.len() > t.len() {
        return false;
    }
    occurs_at_exec(p, t, t.len() - p.len())
}

/// Whether `t` matches the wildcard pattern `p`.
pub fn glob_match(p: &Vec<char>, t: &Vec<char>) -> (r: bool)
    ensures
        r == glob(p@, t@),
{
    let m = p.len();
    let n = t.len();
    // the row below the current one: next[j] == glob(p[i+1..], t[j..]) for
    // j < n, and next_end == glob(p[i+1..], empty)
    let mut next: Vec<bool> = Vec::new();
    let mut k: usize = 0;
    while k < n
        invariant
            k <= n,
            next@.len() == k,
            forall|x: int| 0 <= x < k ==> !next@[x],
        decreases n - k,
    {
        next.push(false);
        k += 1;
    }
    let mut next_end = true;
    proof {
        assert forall|x: int| 0 <= x < n implies next@[x] == glob(
            p@.subrange(m as int, m as int),
            t@.subrange(x, n as int),
        ) by {
            assert(p@.subrange(m as int, m as int).len() == 0);
        }
        assert(t@.subrange(n as int, n as int).len() == 0);
    }
    let mut i = m;
    while i > 0
        invariant
            i <= m,
            m == p@.len(),
            n == t@.len(),
            next@.len() == n,
            forall|x: int|
                0 <= x < n ==> next@[x] == glob(p@.subrange(i as int, m as int), t@.subrange(x, n as int)),
            next_end == glob(p@.subrange(i as int, m as int), t@.subrange(n as int, n as int)),
        decreases i,
    {
        i -= 1;
        let c = p[i];
        let ghost pi = p@.subrange(i as int, m as int);
        let ghost pn = p@.subrange(i + 1, m as int);
        let ghost empty = t@.subrange(n as int, n as int);
        assert(pi.drop_first() =~= pn);
        assert(pi[0] == c);
        assert(empty.len() == 0);
        let cur_end = if c == '*' {
            next_end
        } else {
            false
        };
        assert(cur_end == glob(pi, empty));
        let mut cur: Vec<bool> = Vec::new();
        let mut k: usize = 0;
        while k < n
            invariant
                k <= n,
                cur@.len() == k,
            decreases n - k,
        {
            cur.push(false);
            k += 1;
        }
        let mut jj = n;
        while jj > 0
            invariant
                jj <= n,
                n == t@.len(),
                cur@.len() == n,
                next@.len() == n,
                pi.len() > 0,
                pi[0] == c,
                pi.drop_first() == pn,
                empty == t@.subrange(n as int, n as int),
                forall|x: int| 0 <= x < n ==> next@[x] == glob(pn, t@.subrange(x, n as int)),
                next_end == glob(pn, empty),
                cur_end == glob(pi, empty),
                forall|x: int| jj <= x < n ==> cur@[x] == glob(pi, t@.subrange(x, n as int)),
            decreases jj,
        {
            jj -= 1;
            let ghost tx = t@.subrange(jj as int, n as int);
            let after_cur = if jj + 1 < n {
                cur[jj + 1]
            } else {
                cur_end
            };
            let after_next = if jj + 1 < n {
                next[jj + 1]
            } else {
                next_end
            };
            let v = if c == '*' {
                next[jj] || after_cur
            } else {
                (c == '?' || c == t[jj]) && after_next
            };
            proof {
                assert(tx.drop_first() =~= t@.subrange(jj + 1, n as int));
                assert(tx[0] == t@[jj as int]);
                assert(v == glob(pi, tx));
            }
            cur.set(jj, v);
        }
        next = cur;
        next_end = cur_end;
    }
    assert(p@.subrange(0, m as int) =~= p@);
    assert(t@.subrange(0, n as int) =~= t@);
    if n == 0 {
        next_end
    } else {
        next[0]
    }
}

} // verus!
