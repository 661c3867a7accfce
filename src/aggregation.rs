//! The aggregation part of a condition, after its `|`:
//! `count([field]) [by key] OP N` with `OP` one of `==`, `>=`, `<=`, `>`,
//! `<` and `N` a non-negative integer; spaces may stand between the parts.
use vstd::prelude::*;

use crate::count::{digits_value, is_digit, AggregationConditionToken, AggregationParseInfo};
use crate::text::{chars_of, string_of};

verus! {

/// The first index at or after `i` that is not a space.
pub open spec fn skip_ws(s: Seq<char>, i: int) -> int
    decreases s.len() - i,
{
    if 0 <= i < s.len() && s[i] == ' ' {
        skip_ws(s, i + 1)
    } else {
        i
    }
}

/// Characters that end a field or key name.
pub open spec fn name_stop(c: char) -> bool {
    c == ' ' || c == '(' || c == ')' || c == '<' || c == '>' || c == '='
}

/// The end of the name that starts at `i`.
pub open spec fn name_end(s: Seq<char>, i: int) -> int
    decreases s.len() - i,
{
    if 0 <= i < s.len() && !name_stop(s[i]) {
        name_end(s, i + 1)
    } else {
        i
    }
}

/// The end of the run of digits that starts at `i`.
pub open spec fn digits_end(s: Seq<char>, i: int) -> int
    decreases s.len() - i,
{
    if 0 <= i < s.len() && is_digit(s[i]) {
        digits_end(s, i + 1)
    } else {
        i
    }
}

/// `w` stands in `s` at `i`.
pub open spec fn word_at(s: Seq<char>, i: int, w: Seq<char>) -> bool {
    0 <= i && i + w.len() <= s.len() && s.subrange(i, i + w.len()) == w
}

/// The comparison at `i` and its length.
pub open spec fn op_at(s: Seq<char>, i: int) -> Option<(AggregationConditionToken, int)> {
    if word_at(s, i, "=="@) {
        Some((AggregationConditionToken::EQ, 2))
    } else if word_at(s, i, ">="@) {
        Some((AggregationConditionToken::GE, 2))
    } else if word_at(s, i, "<="@) {
        Some((AggregationConditionToken::LE, 2))
    } else if word_at(s, i, ">"@) {
        Some((AggregationConditionToken::GT, 1))
    } else if word_at(s, i, "<"@) {
        Some((AggregationConditionToken::LT, 1))
    } else {
        None
    }
}

/// Where the comparison starts, and the `by` key if there is one, from
/// index `i` (just after the closing parenthesis and its spaces).
pub open spec fn by_part(s: Seq<char>, i: int) -> Option<(Option<Seq<char>>, int)> {
    if word_at(s, i, "by"@) && i + 2 < s.len() && s[i + 2] == ' ' {
        let k = skip_ws(s, i + 2);
        let e = name_end(s, k);
        if e > k {
            Some((Some(s.subrange(k, e)), skip_ws(s, e)))
        } else {
            None
        }
    } else {
        Some((None, i))
    }
}

/// The aggregation text `s` read as field, key, comparison and number;
/// none when it does not follow the grammar.
pub open spec fn agg_parse(s: Seq<char>) -> Option<
    (Option<Seq<char>>, Option<Seq<char>>, AggregationConditionToken, int),
> {
    let i0 = skip_ws(s, 0);
    let i1 = skip_ws(s, i0 + 5);
    let i2 = skip_ws(s, i1 + 1);
    let e2 = name_end(s, i2);
    let i3 = skip_ws(s, e2);
    let i4 = skip_ws(s, i3 + 1);
    if !word_at(s, i0, "count"@) || !(0 <= i1 < s.len() && s[i1] == '(') || !(0 <= i3 < s.len()
        && s[i3] == ')') {
        None
    } else {
        match by_part(s, i4) {
            None => None,
            Some((key, i6)) => match op_at(s, i6) {
                None => None,
                Some((op, l)) => {
                    let i7 = skip_ws(s, i6 + l);
                    let e7 = digits_end(s, i7);
                    let n = digits_value(s.subrange(i7, e7));
                    if e7 > i7 && skip_ws(s, e7) == s.len() && n <= i64::MAX {
                        Some((if e2 > i2 { Some(s.subrange(i2, e2)) } else { None }, key, op, n))
                    } else {
                        None
                    }
                },
            },
        }
    }
}

fn skip_ws_exec(s: &Vec<char>, i: usize) -> (r: usize)
    requires
        i <= s@.len(),
    ensures
        r as int == skip_ws(s@, i as int),
        i <= r <= s@.len(),
{
    let mut j = i;
    while j < s.len() && s[j] == ' '
        invariant
            i <= j <= s@.len(),
            skip_ws(s@, i as int) == skip_ws(s@, j as int),
        decreases s@.len() - j,
    {
        j += 1;
    }
    j
}

fn name_end_exec(s: &Vec<char>, i: usize) -> (r: usize)
    requires
        i <= s@.len(),
    ensures
        r as int == name_end(s@, i as int),
        i <= r <= s@.len(),
{
    let mut j = i;
    while j < s.len() && !(s[j] == ' ' || s[j] == '(' || s[j] == ')' || s[j] == '<' || s[j] == '>'
        || s[j] == '=')
        invariant
            i <= j <= s@.len(),
            name_end(s@, i as int) == name_end(s@, j as int),
        decreases s@.len() - j,
    {
        j += 1;
    }
    j
}

fn digits_end_exec(s: &Vec<char>, i: usize) -> (r: usize)
    requires
        i <= s@.len(),
    ensures
        r as int == digits_end(s@, i as int),
        i <= r <= s@.len(),
{
    let mut j = i;
    while j < s.len() && '0' <= s[j] && s[j] <= '9'
        invariant
            i <= j <= s@.len(),
            digits_end(s@, i as int) == digits_end(s@, j as int),
        decreases s@.len() - j,
    {
        j += 1;
    }
    j
}

fn word_at_exec(s: &Vec<char>, i: usize, w: &str) -> (r: bool)
    ensures
        r == word_at(s@, i as int, w@),
{
    let wc = chars_of(w);
    let n = s.len();
    if i > n || wc.len() > n - i {
        return false;
    }
    let mut k: usize = 0;
    while k < wc.len()
        invariant
            n == s@.len(),
            i + wc@.len() <= s@.len(),
            wc@ == w@,
            k <= wc@.len(),
            forall|x: int| 0 <= x < k ==> s@[i + x] == wc@[x],
        decreases wc@.len() - k,
    {
        if s[i + k] != wc[k] {
            assert(s@.subrange(i as int, i + wc@.len())[k as int] != wc@[k as int]);
            return false;
        }
        k += 1;
    }
    assert(s@.subrange(i as int, i + wc@.len()) =~= wc@);
    true
}

proof fn lemma_digits_run(s: Seq<char>, i: int)
    requires
        0 <= i <= s.len(),
    ensures
        i <= digits_end(s, i) <= s.len(),
        forall|k: int| i <= k < digits_end(s, i) ==> is_digit(#[trigger] s[k]),
    decreases s.len() - i,
{
    if i < s.len() && is_digit(s[i]) {
        lemma_digits_run(s, i + 1);
    }
}

/// The value of the decimal digits `s[lo..hi]`, if it is at most
/// `i64::MAX`.
fn digits_to_i64(s: &Vec<char>, lo: usize, hi: usize) -> (r: Option<i64>)
    requires
        lo <= hi <= s@.len(),
        forall|k: int| lo <= k < hi ==> is_digit(#[trigger] s@[k]),
    ensures
        digits_value(s@.subrange(lo as int, hi as int)) >= 0,
        digits_value(s@.subrange(lo as int, hi as int)) <= i64::MAX ==> r == Some(
            digits_value(s@.subrange(lo as int, hi as int)) as i64,
        ),
        digits_value(s@.subrange(lo as int, hi as int)) > i64::MAX ==> r is None,
{
    let cap: u128 = 9223372036854775808;
    let mut acc: u128 = 0;
    let mut i = lo;
    assert(s@.subrange(lo as int, lo as int).len() == 0);
    while i < hi
        invariant
            lo <= i <= hi <= s@.len(),
            forall|k: int| lo <= k < hi ==> is_digit(#[trigger] s@[k]),
            cap == 9223372036854775808,
            acc <= cap,
            digits_value(s@.subrange(lo as int, i as int)) >= 0,
            acc as int == if digits_value(s@.subrange(lo as int, i as int)) < cap as int {
                digits_value(s@.subrange(lo as int, i as int))
            } else {
                cap as int
            },
        decreases hi - i,
    {
        assert(is_digit(s@[i as int]));
        let d = (s[i] as u32 - '0' as u32) as u128;
        let ghost prev = digits_value(s@.subrange(lo as int, i as int));
        proof {
            assert(s@.subrange(lo as int, i + 1).drop_last() =~= s@.subrange(lo as int, i as int));
            if prev >= cap {
                assert(prev * 10 + d >= cap) by (nonlinear_arith)
                    requires
                        prev >= cap,
                        d >= 0,
                ;
            }
        }
        let next = acc * 10 + d;
        acc = if next < cap {
            next
        } else {
            cap
        };
        i += 1;
    }
    if acc < cap {
        Some(acc as i64)
    } else {
        None
    }
}

/// Reads the aggregation part of a condition (the text after its `|`).
pub fn parse_aggregation(text: &str) -> (r: Result<AggregationParseInfo, String>)
    ensures
        match agg_parse(text@) {
            Some((field, key, op, n)) => r is Ok && (match (field, r->Ok_0._field_name) {
                (Some(f), Some(g)) => f == g@,
                (None, None) => true,
                _ => false,
            }) && (match (key, r->Ok_0._by_field_name) {
                (Some(k), Some(g)) => k == g@,
                (None, None) => true,
                _ => false,
            }) && r->Ok_0._cmp_op == op && r->Ok_0._cmp_num == n,
            None => r is Err,
        },
{
    proof {
        reveal_strlit("count");
        reveal_strlit("by");
        reveal_strlit("==");
        reveal_strlit(">=");
        reveal_strlit("<=");
        reveal_strlit(">");
        reveal_strlit("<");
    }
    let s = chars_of(text);
    let n = s.len();
    let bad = "The aggregation part of the condition is not valid.";
    let i0 = skip_ws_exec(&s, 0);
    if !word_at_exec(&s, i0, "count") {
        return Err(bad.to_string());
    }
    let i1 = skip_ws_exec(&s, i0 + 5);
    if !(i1 < n && s[i1] == '(') {
        return Err(bad.to_string());
    }
    let i2 = skip_ws_exec(&s, i1 + 1);
    let e2 = name_end_exec(&s, i2);
    let i3 = skip_ws_exec(&s, e2);
    if !(i3 < n && s[i3] == ')') {
        return Err(bad.to_string());
    }
    let i4 = skip_ws_exec(&s, i3 + 1);
    let ghost mut keyv: Option<Seq<char>> = None;
    let (key, i6): (Option<String>, usize) = if word_at_exec(&s, i4, "by") && i4 + 2 < n && s[i4 + 2] == ' ' {
        let k = skip_ws_exec(&s, i4 + 2);
        let e = name_end_exec(&s, k);
        if e == k {
            return Err(bad.to_string());
        }
        let mut v: Vec<char> = Vec::new();
        let mut x = k;
        while x < e
            invariant
                k <= x <= e <= s@.len(),
                v@ == s@.subrange(k as int, x as int),
            decreases e - x,
        {
            v.push(s[x]);
            x += 1;
            assert(v@ =~= s@.subrange(k as int, x as int));
        }
        proof {
            keyv = Some(s@.subrange(k as int, e as int));
        }
        (Some(string_of(&v)), skip_ws_exec(&s, e))
    } else {
        (None, i4)
    };
    assert(by_part(s@, i4 as int) == Some((keyv, i6 as int)));
    assert(match (keyv, key) {
        (Some(a), Some(b)) => a == b@,
        (None, None) => true,
        _ => false,
    });
    let (op, l): (AggregationConditionToken, usize) = if word_at_exec(&s, i6, "==") {
        (AggregationConditionToken::EQ, 2)
    } else if word_at_exec(&s, i6, ">=") {
        (AggregationConditionToken::GE, 2)
    } else if word_at_exec(&s, i6, "<=") {
        (AggregationConditionToken::LE, 2)
    } else if word_at_exec(&s, i6, ">") {
        (AggregationConditionToken::GT, 1)
    } else if word_at_exec(&s, i6, "<") {
        (AggregationConditionToken::LT, 1)
    } else {
        return Err(bad.to_string());
    };
    assert(i6 + l <= n);
    assert(op_at(s@, i6 as int) == Some((op, l as int)));
    let i7 = skip_ws_exec(&s, i6 + l);
    let e7 = digits_end_exec(&s, i7);
    proof {
        lemma_digits_run(s@, i7 as int);
    }
    if e7 == i7 || skip_ws_exec(&s, e7) != n {
        return Err(bad.to_string());
    }
    let num = match digits_to_i64(&s, i7, e7) {
        Some(v) => v,
        None => {
            return Err(bad.to_string());
        },
    };
    let field = if e2 > i2 {
        let mut v: Vec<char> = Vec::new();
        let mut x = i2;
        while x < e2
            invariant
                i2 <= x <= e2 <= s@.len(),
                v@ == s@.subrange(i2 as int, x as int),
            decreases e2 - x,
        {
            v.push(s[x]);
            x += 1;
            assert(v@ =~= s@.subrange(i2 as int, x as int));
        }
        Some(string_of(&v))
    } else {
        None
    };
    proof {
        assert(s@ == text@);
        assert(word_at(s@, i0 as int, "count"@));
        assert(0 <= i1 < s@.len() && s@[i1 as int] == '(');
        assert(0 <= i3 < s@.len() && s@[i3 as int] == ')');
        assert(e7 > i7);
        assert(skip_ws(s@, e7 as int) == s@.len());
        assert(digits_value(s@.subrange(i7 as int, e7 as int)) == num as int);
        assert(agg_parse(text@) == Some((
            if e2 > i2 { Some(s@.subrange(i2 as int, e2 as int)) } else { None },
            keyv,
            op,
            num as int,
        )));
    }
    Ok(AggregationParseInfo { _field_name: field, _by_field_name: key, _cmp_op: op, _cmp_num: num })
}

} // verus!
