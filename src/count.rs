//! Aggregation of an aggregating rule: the observations it recorded, the
//! comparison `count(...) OP N`, the timeframe, and the two-cursor sweep
//! that finds the windows satisfying the comparison.
use vstd::prelude::*;

use crate::expand::string_views;
use crate::rule::{field_value, EventRecord, FieldAliases};
use crate::text::{chars_of, concat, string_of};

verus! {

/// A token of the aggregation part of a condition (after the `|`).
#[derive(Clone, Debug)]
pub enum AggregationConditionToken {
    COUNT(String),
    SPACE,
    BY,
    EQ,
    LE,
    LT,
    GE,
    GT,
    KEYWORD(String),
}

/// The parsed aggregation part: `count(field) by key OP N`.
#[derive(Clone, Debug)]
pub struct AggregationParseInfo {
    pub _field_name: Option<String>,
    pub _by_field_name: Option<String>,
    pub _cmp_op: AggregationConditionToken,
    pub _cmp_num: i64,
}

/// One observation of an aggregating rule: the value of the counted
/// field (empty when there is none) and the event time, in seconds.
#[derive(Clone, Debug)]
pub struct AggRecordTimeInfo {
    pub field_record_value: String,
    pub record_time: i64,
}

/// A window that satisfied the aggregation.
#[derive(Clone, Debug)]
pub struct AggResult {
    /// The count that was compared.
    pub data: i64,
    /// The `by` key of the slot.
    pub key: String,
    /// The distinct non-empty field values of the window.
    pub field_values: Vec<String>,
    /// Time of the first observation of the window.
    pub start_timedate: i64,
    /// The comparison, as text (`>= 3`).
    pub condition_op_num: String,
}

/// Whether `c OP n` holds; tokens other than comparisons never hold.
pub open spec fn cmp_holds(op: AggregationConditionToken, c: int, n: int) -> bool {
    match op {
        AggregationConditionToken::EQ => c == n,
        AggregationConditionToken::GE => c >= n,
        AggregationConditionToken::GT => c > n,
        AggregationConditionToken::LE => c <= n,
        AggregationConditionToken::LT => c < n,
        _ => false,
    }
}

/// Whether the count `cnt` satisfies the comparison of `aggcondition`.
pub fn select_aggcon(cnt: i64, aggcondition: &AggregationParseInfo) -> (r: bool)
    ensures
        r == cmp_holds(aggcondition._cmp_op, cnt as int, aggcondition._cmp_num as int),
{
    match aggcondition._cmp_op {
        AggregationConditionToken::EQ => cnt == aggcondition._cmp_num,
        AggregationConditionToken::GE => cnt >= aggcondition._cmp_num,
        AggregationConditionToken::GT => cnt > aggcondition._cmp_num,
        AggregationConditionToken::LE => cnt <= aggcondition._cmp_num,
        AggregationConditionToken::LT => cnt < aggcondition._cmp_num,
        _ => false,
    }
}

/// The text of the comparison `OP N`: the operator, a space and `N`;
/// empty for a token that is no comparison.
pub open spec fn agg_eq_text(op: AggregationConditionToken, n: int) -> Seq<char> {
    match op {
        AggregationConditionToken::EQ => seq!['=', '=', ' '] + decimal(n),
        AggregationConditionToken::GE => seq!['>', '=', ' '] + decimal(n),
        AggregationConditionToken::LE => seq!['<', '=', ' '] + decimal(n),
        AggregationConditionToken::GT => seq!['>', ' '] + decimal(n),
        AggregationConditionToken::LT => seq!['<', ' '] + decimal(n),
        _ => Seq::empty(),
    }
}

/// The comparison of `agg_condition` as text, such as `>= 3`.
pub fn get_str_agg_eq(agg_condition: &AggregationParseInfo) -> (r: String)
    ensures
        r@ == agg_eq_text(agg_condition._cmp_op, agg_condition._cmp_num as int),
{
    let num = decimal_string(agg_condition._cmp_num);
    proof {
        reveal_strlit("== ");
        reveal_strlit(">= ");
        reveal_strlit("<= ");
        reveal_strlit("> ");
        reveal_strlit("< ");
        reveal_strlit("");
    }
    match agg_condition._cmp_op {
        AggregationConditionToken::EQ => concat("== ", num.as_str()),
        AggregationConditionToken::GE => concat(">= ", num.as_str()),
        AggregationConditionToken::LE => concat("<= ", num.as_str()),
        AggregationConditionToken::GT => concat("> ", num.as_str()),
        AggregationConditionToken::LT => concat("< ", num.as_str()),
        _ => "".to_string(),
    }
}

/// The timeframe of a rule: its unit (`s`, `m`, `h`, `d`, or empty when
/// none was found) and its number, `None` when that does not parse.
#[derive(Clone, Debug)]
pub struct TimeFrameInfo {
    pub timetype: String,
    pub timenum: Option<i64>,
}

pub open spec fn is_digit(c: char) -> bool {
    '0' <= c <= '9'
}

/// The value of a run of decimal digits.
pub open spec fn digits_value(s: Seq<char>) -> int
    decreases s.len(),
{
    if s.len() == 0 {
        0
    } else {
        digits_value(s.drop_last()) * 10 + (s.last() as int - '0' as int)
    }
}

/// `s` without its leading sign, if any.
pub open spec fn unsigned_part(s: Seq<char>) -> Seq<char> {
    if s.len() > 0 && (s[0] == '-' || s[0] == '+') {
        s.drop_first()
    } else {
        s
    }
}

/// An `i64` written as an optional sign and at least one decimal digit;
/// `None` for anything else or a value out of range.
pub open spec fn parse_i64(s: Seq<char>) -> Option<int> {
    let neg = s.len() > 0 && s[0] == '-';
    let body = unsigned_part(s);
    let v = if neg {
        -digits_value(body)
    } else {
        digits_value(body)
    };
    if body.len() > 0 && (forall|i: int| 0 <= i < body.len() ==> is_digit(#[trigger] body[i]))
        && i64::MIN <= v <= i64::MAX {
        Some(v)
    } else {
        None
    }
}

/// The unit of a timeframe text: its last character when that is one of
/// `s`, `m`, `h`, `d`.
pub open spec fn tframe_unit(s: Seq<char>) -> Option<char> {
    if s.len() > 0 && (s.last() == 's' || s.last() == 'm' || s.last() == 'h' || s.last() == 'd') {
        Some(s.last())
    } else {
        None
    }
}

/// Every character of `s` is a decimal digit.
pub open spec fn all_digits(s: Seq<char>) -> bool {
    forall|i: int| 0 <= i < s.len() ==> is_digit(#[trigger] s[i])
}

/// The number of a timeframe text: what stands before its unit (the whole
/// text when it has none), which must be decimal digits only and fit an
/// `i64`.
pub open spec fn tframe_number(s: Seq<char>) -> Option<int> {
    let body = match tframe_unit(s) {
        Some(_) => s.drop_last(),
        None => s,
    };
    if body.len() > 0 && all_digits(body) && digits_value(body) <= i64::MAX {
        Some(digits_value(body))
    } else {
        None
    }
}

proof fn lemma_tframe_number(s: Seq<char>, body: Seq<char>)
    requires
        body == (match tframe_unit(s) {
            Some(_) => s.drop_last(),
            None => s,
        }),
    ensures
        !(body.len() > 0 && (forall|i: int| 0 <= i < body.len() ==> is_digit(#[trigger] body[i])))
            ==> tframe_number(s) is None,
        (body.len() > 0 && (forall|i: int| 0 <= i < body.len() ==> is_digit(#[trigger] body[i])))
            ==> tframe_number(s) == parse_i64(body),
{
    if body.len() > 0 && (forall|i: int| 0 <= i < body.len() ==> is_digit(#[trigger] body[i])) {
        lemma_digits_value_nonneg(body);
        assert(is_digit(body[0]));
        assert(unsigned_part(body) == body);
    }
}

proof fn lemma_digits_value_nonneg(s: Seq<char>)
    requires
        forall|i: int| 0 <= i < s.len() ==> is_digit(#[trigger] s[i]),
    ensures
        digits_value(s) >= 0,
    decreases s.len(),
{
    if s.len() > 0 {
        assert forall|i: int| 0 <= i < s.len() - 1 implies is_digit(#[trigger] s.drop_last()[i]) by {
            assert(s.drop_last()[i] == s[i]);
        }
        lemma_digits_value_nonneg(s.drop_last());
        assert(is_digit(s[s.len() - 1]));
    }
}

/// Seconds per unit of a timeframe: `d`, `h`, `m`, else seconds.
pub open spec fn unit_seconds(u: Seq<char>) -> int {
    if u == seq!['d'] {
        86400
    } else if u == seq!['h'] {
        3600
    } else if u == seq!['m'] {
        60
    } else {
        1
    }
}

/// Whether `s` holds `c`.
pub(crate) fn has_char(s: &Vec<char>, c: char) -> (r: bool)
    ensures
        r == s@.contains(c),
{
    let mut i: usize = 0;
    while i < s.len()
        invariant
            i <= s@.len(),
            forall|k: int| 0 <= k < i ==> s@[k] != c,
        decreases s@.len() - i,
    {
        if s[i] == c {
            assert(s@[i as int] == c);
            return true;
        }
        i += 1;
    }
    false
}

/// Parses an `i64` written as an optional sign and decimal digits.
#[verifier::loop_isolation(false)]
pub fn parse_i64_text(s: &Vec<char>) -> (r: Option<i64>)
    ensures
        match parse_i64(s@) {
            Some(v) => r == Some(v as i64),
            None => r is None,
        },
{
    let n = s.len();
    let neg = n > 0 && s[0] == '-';
    let start: usize = if n > 0 && (s[0] == '-' || s[0] == '+') {
        1
    } else {
        0
    };
    let ghost body = s@.subrange(start as int, n as int);
    assert(body =~= unsigned_part(s@));
    if start == n {
        return None;
    }
    let mut i = start;
    while i < n
        invariant
            start <= i <= n,
            n == s@.len(),
            body == s@.subrange(start as int, n as int),
            forall|k: int| start <= k < i ==> is_digit(#[trigger] s@[k]),
        decreases n - i,
    {
        let c = s[i];
        if !('0' <= c && c <= '9') {
            assert(body[i - start] == s@[i as int]);
            assert(!is_digit(body[i - start]));
            assert(body =~= unsigned_part(s@));
            return None;
        }
        i += 1;
    }
    // the value of the digits so far, capped just past the largest magnitude
    let cap: u128 = 9223372036854775809;
    let mut acc: u128 = 0;
    let mut i = start;
    while i < n
        invariant
            start <= i <= n,
            n == s@.len(),
            forall|k: int| start <= k < n ==> is_digit(#[trigger] s@[k]),
            body == s@.subrange(start as int, n as int),
            cap == 9223372036854775809,
            acc <= cap,
            acc as int == if digits_value(s@.subrange(start as int, i as int)) < cap as int {
                digits_value(s@.subrange(start as int, i as int))
            } else {
                cap as int
            },
            digits_value(s@.subrange(start as int, i as int)) >= 0,
        decreases n - i,
    {
        let c = s[i];
        assert(is_digit(s@[i as int]));
        let d = (c as u32 - '0' as u32) as u128;
        let ghost prev = digits_value(s@.subrange(start as int, i as int));
        proof {
            assert(s@.subrange(start as int, i + 1).drop_last() =~= s@.subrange(
                start as int,
                i as int,
            ));
            assert(digits_value(s@.subrange(start as int, i + 1)) == prev * 10 + d);
            if prev >= cap {
                assert(prev * 10 + d >= cap) by (nonlinear_arith)
                    requires
                        prev >= cap,
                        d >= 0,
                ;
            }
        }
        let next = acc * 10 + d;
        acc = if next < cap {
            next
        } else {
            cap
        };
        i += 1;
    }
    proof {
        assert(s@.subrange(start as int, n as int) == body);
        assert forall|k: int| 0 <= k < body.len() implies is_digit(#[trigger] body[k]) by {
            assert(body[k] == s@[start + k]);
        }
    }
    if neg {
        if acc <= 9223372036854775808 {
            proof {
                assert(acc as int == digits_value(body));
            }
            Some((-(acc as i128)) as i64)
        } else {
            None
        }
    } else if acc <= 9223372036854775807 {
        Some(acc as i64)
    } else {
        None
    }
}

impl TimeFrameInfo {
    /// Reads a timeframe text such as `2h`: decimal digits followed by
    /// one unit letter of `s`, `m`, `h`, `d`. A text without a unit at its
    /// end gets an empty unit; one whose number is not digits alone gets no
    /// number.
    pub fn parse_tframe(value: String) -> (r: TimeFrameInfo)
        ensures
            r.timetype@ == (match tframe_unit(value@) {
                Some(u) => seq![u],
                None => Seq::empty(),
            }),
            match tframe_number(value@) {
                Some(v) => r.timenum == Some(v as i64),
                None => r.timenum is None,
            },
    {
        let v = chars_of(value.as_str());
        let n = v.len();
        let last = if n > 0 {
            v[n - 1]
        } else {
            ' '
        };
        let has_unit = n > 0 && (last == 's' || last == 'm' || last == 'h' || last == 'd');
        let end = if has_unit {
            n - 1
        } else {
            n
        };
        let ghost body = if has_unit {
            v@.drop_last()
        } else {
            v@
        };
        let mut digits: Vec<char> = Vec::new();
        let mut ok = end > 0;
        let mut i: usize = 0;
        while i < end
            invariant
                end <= n,
                n == v@.len(),
                v@ == value@,
                body == v@.subrange(0, end as int),
                i <= end,
                digits@ == v@.subrange(0, i as int),
                ok == (end > 0 && forall|k: int| 0 <= k < i ==> is_digit(#[trigger] v@[k])),
            decreases end - i,
        {
            if !('0' <= v[i] && v[i] <= '9') {
                ok = false;
            }
            digits.push(v[i]);
            i += 1;
        }
        proof {
            assert(digits@ =~= body);
            assert((tframe_unit(value@) is Some) == has_unit);
            if has_unit {
                assert(v@.drop_last() =~= v@.subrange(0, end as int));
            } else {
                assert(v@ =~= v@.subrange(0, end as int));
            }
        }
        let ttype = if has_unit {
            let mut u: Vec<char> = Vec::new();
            u.push(last);
            string_of(&u)
        } else {
            let u: Vec<char> = Vec::new();
            string_of(&u)
        };
        proof {
            if has_unit {
                assert(tframe_unit(value@) == Some(last));
                assert(ttype@ =~= seq![last]);
            } else {
                assert(ttype@ =~= Seq::<char>::empty());
            }
        }
        let num = if ok {
            proof {
                assert forall|k: int| 0 <= k < body.len() implies is_digit(#[trigger] body[k]) by {
                    assert(body[k] == v@[k]);
                }
                lemma_digits_value_nonneg(body);
                assert(is_digit(body[0]));
                assert(unsigned_part(body) == body);
            }
            proof {
                lemma_tframe_number(value@, body);
            }
            parse_i64_text(&digits)
        } else {
            proof {
                if body.len() > 0 {
                    if forall|k: int| 0 <= k < body.len() ==> is_digit(#[trigger] body[k]) {
                        assert forall|k: int| 0 <= k < end implies is_digit(#[trigger] v@[k]) by {
                            assert(body[k] == v@[k]);
                        }
                    }
                }
                lemma_tframe_number(value@, body);
            }
            None
        };
        TimeFrameInfo { timetype: ttype, timenum: num }
    }
}

/// The timeframe in seconds: its number times the seconds of its unit;
/// `None` when there is no timeframe, it has no unit, its number did not
/// parse or is not positive, or the product leaves the range of `i64`.
pub fn get_sec_timeframe(timeframe: &Option<TimeFrameInfo>) -> (r: Option<i64>)
    ensures
        match timeframe {
            None => r is None,
            Some(t) => match t.timenum {
                None => r is None,
                Some(n) => {
                    let p = n * unit_seconds(t.timetype@);
                    if t.timetype@.len() == 0 || n <= 0 {
                        r is None
                    } else if p <= i64::MAX {
                        r == Some(p as i64)
                    } else {
                        r is None
                    }
                },
            },
        },
{
    match timeframe {
        None => None,
        Some(tfi) => match tfi.timenum {
            None => None,
            Some(n) => {
                let t = chars_of(tfi.timetype.as_str());
                if t.len() == 0 || n <= 0 {
                    return None;
                }
                let mul: i64 = if t.len() == 1 && t[0] == 'd' {
                    assert(t@ =~= seq!['d']);
                    86400
                } else if t.len() == 1 && t[0] == 'h' {
                    assert(t@ =~= seq!['h']);
                    3600
                } else if t.len() == 1 && t[0] == 'm' {
                    assert(t@ =~= seq!['m']);
                    60
                } else {
                    assert(t@ != seq!['d'] && t@ != seq!['h'] && t@ != seq!['m']);
                    1
                };
                n.checked_mul(mul)
            },
        },
    }
}

pub open spec fn digit_char(d: int) -> char {
    if d == 0 {
        '0'
    } else if d == 1 {
        '1'
    } else if d == 2 {
        '2'
    } else if d == 3 {
        '3'
    } else if d == 4 {
        '4'
    } else if d == 5 {
        '5'
    } else if d == 6 {
        '6'
    } else if d == 7 {
        '7'
    } else if d == 8 {
        '8'
    } else {
        '9'
    }
}

/// The decimal digits of `n >= 0`, without leading zeros.
pub open spec fn nat_digits(n: nat) -> Seq<char>
    decreases n,
{
    if n < 10 {
        seq![digit_char(n as int)]
    } else {
        nat_digits(n / 10) + seq![digit_char((n % 10) as int)]
    }
}

/// The decimal text of `n`, with `-` before a negative number.
pub open spec fn decimal(n: int) -> Seq<char> {
    if n < 0 {
        seq!['-'] + nat_digits((-n) as nat)
    } else {
        nat_digits(n as nat)
    }
}

fn digit_of(d: u64) -> (r: char)
    requires
        d < 10,
    ensures
        r == digit_char(d as int),
{
    if d == 0 {
        '0'
    } else if d == 1 {
        '1'
    } else if d == 2 {
        '2'
    } else if d == 3 {
        '3'
    } else if d == 4 {
        '4'
    } else if d == 5 {
        '5'
    } else if d == 6 {
        '6'
    } else if d == 7 {
        '7'
    } else if d == 8 {
        '8'
    } else {
        '9'
    }
}

/// The decimal text of `n`.
pub fn decimal_string(n: i64) -> (r: String)
    ensures
        r@ == decimal(n as int),
{
    let neg = n < 0;
    let mag: u64 = if neg {
        (-(n as i128)) as u64
    } else {
        n as u64
    };
    // digits from the last one back
    let mut rev: Vec<char> = Vec::new();
    if mag == 0 {
        rev.push('0');
        proof {
            assert(reverse(rev@) =~= seq![digit_char(0)]) by {
                lemma_reverse_push(Seq::<char>::empty(), '0');
                assert(Seq::<char>::empty().push('0') =~= rev@);
            }
        }
    }
    let mut m = mag;
    while m > 0
        invariant
            mag > 0 ==> nat_digits(mag as nat) == nat_digits_or_empty(m as nat) + reverse(rev@),
            mag == 0 ==> m == 0 && reverse(rev@) == seq![digit_char(0)],
        decreases m,
    {
        let ghost before = rev@;
        let ghost m0 = m;
        rev.push(digit_of(m % 10));
        m = m / 10;
        proof {
            lemma_reverse_push(before, digit_char((m0 % 10) as int));
            lemma_digits_step(m0 as nat);
            assert(nat_digits_or_empty(m0 as nat) + reverse(before) =~= nat_digits_or_empty(
                m as nat,
            ) + reverse(rev@));
        }
    }
    let mut out: Vec<char> = Vec::new();
    if neg {
        out.push('-');
    }
    let ghost o0 = out@;
    let mut i = rev.len();
    while i > 0
        invariant
            i <= rev@.len(),
            out@ == o0 + reverse(rev@.subrange(i as int, rev@.len() as int)),
        decreases i,
    {
        i -= 1;
        let ghost b = out@;
        out.push(rev[i]);
        proof {
            let tail = rev@.subrange(i + 1, rev@.len() as int);
            let t2 = rev@.subrange(i as int, rev@.len() as int);
            assert(t2 =~= seq![rev@[i as int]] + tail);
            lemma_reverse_prepend(rev@[i as int], tail);
        }
    }
    proof {
        assert(rev@.subrange(0, rev@.len() as int) =~= rev@);
        assert(nat_digits_or_empty(0) =~= Seq::<char>::empty());
        if mag > 0 {
            assert(nat_digits(mag as nat) =~= Seq::<char>::empty() + reverse(rev@));
        }
        assert(nat_digits(mag as nat) =~= reverse(rev@));
        if neg {
            assert(mag as int == -(n as int));
        }
    }
    string_of(&out)
}

/// `nat_digits(n)` for `n > 0`; empty for zero.
pub open spec fn nat_digits_or_empty(n: nat) -> Seq<char> {
    if n == 0 {
        Seq::empty()
    } else {
        nat_digits(n)
    }
}

pub open spec fn reverse(s: Seq<char>) -> Seq<char>
    decreases s.len(),
{
    if s.len() == 0 {
        s
    } else {
        seq![s.last()] + reverse(s.drop_last())
    }
}

proof fn lemma_reverse_push(s: Seq<char>, c: char)
    ensures
        reverse(s.push(c)) =~= seq![c] + reverse(s),
{
    assert(s.push(c).drop_last() =~= s);
    assert(s.push(c).last() == c);
}

proof fn lemma_reverse_prepend(c: char, s: Seq<char>)
    ensures
        reverse(seq![c] + s) =~= reverse(s) + seq![c],
    decreases s.len(),
{
    if s.len() == 0 {
        assert(seq![c] + s =~= Seq::<char>::empty().push(c));
        lemma_reverse_push(Seq::<char>::empty(), c);
        assert(reverse(Seq::<char>::empty()) =~= Seq::<char>::empty());
    } else {
        let t = seq![c] + s;
        assert(t.drop_last() =~= seq![c] + s.drop_last());
        lemma_reverse_prepend(c, s.drop_last());
    }
}

proof fn lemma_digits_step(m: nat)
    requires
        m > 0,
    ensures
        nat_digits_or_empty(m) =~= nat_digits_or_empty(m / 10) + seq![digit_char((m % 10) as int)],
{
    if m > 0 && m < 10 {
        assert(m / 10 == 0);
        assert(m % 10 == m);
    }
}

} // verus!

verus! {

/// Where an observation at time `t` goes into `s`: after every
/// observation of `s`, scanning from the end, whose time is not later.
pub open spec fn insert_pos(s: Seq<AggRecordTimeInfo>, t: int) -> int
    decreases s.len(),
{
    if s.len() == 0 {
        0
    } else if s.last().record_time <= t {
        s.len() as int
    } else {
        insert_pos(s.drop_last(), t)
    }
}

/// `s` sorted by time; observations with equal times keep their order.
pub open spec fn sort_by_time(s: Seq<AggRecordTimeInfo>) -> Seq<AggRecordTimeInfo>
    decreases s.len(),
{
    if s.len() == 0 {
        s
    } else {
        let r = sort_by_time(s.drop_last());
        r.insert(insert_pos(r, s.last().record_time as int), s.last())
    }
}

/// The field values of the observations of `s`.
pub open spec fn values_of(s: Seq<AggRecordTimeInfo>) -> Seq<Seq<char>> {
    s.map_values(|o: AggRecordTimeInfo| o.field_record_value@)
}

/// The distinct values of `s`, in the order they first occur.
pub open spec fn distinct(s: Seq<Seq<char>>) -> Seq<Seq<char>>
    decreases s.len(),
{
    if s.len() == 0 {
        s
    } else if distinct(s.drop_last()).contains(s.last()) {
        distinct(s.drop_last())
    } else {
        distinct(s.drop_last()).push(s.last())
    }
}

/// The values of `s` that are not empty, in order.
pub open spec fn non_empty(s: Seq<Seq<char>>) -> Seq<Seq<char>>
    decreases s.len(),
{
    if s.len() == 0 {
        s
    } else if s.last().len() == 0 {
        non_empty(s.drop_last())
    } else {
        non_empty(s.drop_last()).push(s.last())
    }
}

/// How far the right cursor stands from the left one, plus one: `N`,
/// at least one, and at most one past the end of `n` observations.
pub open spec fn window_width(num: int, n: int) -> int {
    if num <= 0 {
        1
    } else if num > n + 1 {
        n + 1
    } else {
        num
    }
}

/// The window `[lo, hi)` is too wide: `hi` is past the observations, or
/// its time is more than `tf` seconds after that of `lo`.
pub open spec fn too_wide(s: Seq<AggRecordTimeInfo>, lo: int, hi: int, tf: int) -> bool {
    hi >= s.len() || s[hi].record_time - s[lo].record_time > tf
}

pub open spec fn min(a: int, b: int) -> int {
    if a <= b {
        a
    } else {
        b
    }
}

/// The count of the window `[lo, hi)` (cut at the end of `s`): distinct
/// field values when a field is counted, observations otherwise.
pub open spec fn window_count(s: Seq<AggRecordTimeInfo>, lo: int, hi: int, field: bool) -> int {
    let e = min(hi, s.len() as int);
    if field {
        distinct(values_of(s.subrange(lo, e))).len() as int
    } else {
        e - lo
    }
}

/// The two-cursor sweep over sorted observations `s`, from the left
/// cursor `lo` and the right cursor `hi`. While the window `[lo, hi]`
/// fits in `tf` seconds the right cursor moves on; once it does not, the
/// window `[lo, hi)` is counted. If the count satisfies `OP N` the window
/// is reported and the sweep starts again after it; otherwise the left
/// cursor moves on by one.
pub open spec fn sweep(
    s: Seq<AggRecordTimeInfo>,
    field: bool,
    op: AggregationConditionToken,
    num: int,
    tf: int,
    lo: int,
    hi: int,
) -> Seq<(int, int, int)>
    decreases s.len() - lo, s.len() + window_width(num, s.len() as int) - hi,
{
    let n = s.len() as int;
    let w = window_width(num, n);
    if lo < 0 || lo >= n || hi < lo || hi >= n + w {
        Seq::empty()
    } else if too_wide(s, lo, hi, tf) {
        let c = window_count(s, lo, hi, field);
        if cmp_holds(op, c, num) {
            let next = if hi > lo {
                min(hi, n)
            } else {
                lo + 1
            };
            seq![(lo, min(hi, n), c)] + sweep(s, field, op, num, tf, next, next + w - 1)
        } else {
            sweep(s, field, op, num, tf, lo + 1, lo + w)
        }
    } else {
        sweep(s, field, op, num, tf, lo, hi + 1)
    }
}

/// The windows that satisfy the aggregation over observations `s`
/// (already sorted): with a timeframe, those of the sweep; without one,
/// all of `s` as one window, if its count satisfies the comparison.
pub open spec fn agg_windows(
    s: Seq<AggRecordTimeInfo>,
    field: bool,
    op: AggregationConditionToken,
    num: int,
    timeframe: Option<int>,
) -> Seq<(int, int, int)> {
    let n = s.len() as int;
    match timeframe {
        Some(tf) => sweep(s, field, op, num, tf, 0, window_width(num, n) - 1),
        None => {
            let c = window_count(s, 0, n, field);
            if n > 0 && cmp_holds(op, c, num) {
                seq![(0, n, n)]
            } else {
                Seq::empty()
            }
        },
    }
}

/// A copy of an observation.
fn copy_info(o: &AggRecordTimeInfo) -> (r: AggRecordTimeInfo)
    ensures
        r == *o,
{
    AggRecordTimeInfo { field_record_value: o.field_record_value.clone(), record_time: o.record_time }
}

/// The observations sorted by time; equal times keep their order.
pub fn sort_by_record_time(v: &Vec<AggRecordTimeInfo>) -> (r: Vec<AggRecordTimeInfo>)
    ensures
        r@ == sort_by_time(v@),
{
    let mut out: Vec<AggRecordTimeInfo> = Vec::new();
    let mut i: usize = 0;
    while i < v.len()
        invariant
            i <= v@.len(),
            out@ == sort_by_time(v@.subrange(0, i as int)),
        decreases v@.len() - i,
    {
        let x = copy_info(&v[i]);
        let t = x.record_time;
        let mut j = out.len();
        proof {
            assert(out@.subrange(0, j as int) =~= out@);
        }
        while j > 0 && out[j - 1].record_time > t
            invariant
                j <= out@.len(),
                insert_pos(out@, t as int) == insert_pos(out@.subrange(0, j as int), t as int),
            decreases j,
        {
            proof {
                assert(out@.subrange(0, j as int).drop_last() =~= out@.subrange(0, j - 1));
            }
            j -= 1;
        }
        proof {
            if j > 0 {
                assert(out@.subrange(0, j as int).last() == out@[j - 1]);
            }
            assert(v@.subrange(0, i + 1).drop_last() =~= v@.subrange(0, i as int));
            assert(v@.subrange(0, i + 1).last() == v@[i as int]);
        }
        out.insert(j, x);
        i += 1;
    }
    assert(v@.subrange(0, v@.len() as int) =~= v@);
    out
}

proof fn lemma_distinct_len(s: Seq<Seq<char>>)
    ensures
        distinct(s).len() <= s.len(),
    decreases s.len(),
{
    if s.len() > 0 {
        lemma_distinct_len(s.drop_last());
    }
}

/// Whether `v` holds a string equal to `x`.
fn holds_string(v: &Vec<String>, x: &String) -> (r: bool)
    ensures
        r == string_views(v@).contains(x@),
{
    let mut j: usize = 0;
    while j < v.len()
        invariant
            j <= v@.len(),
            forall|y: int| 0 <= y < j ==> string_views(v@)[y] != x@,
        decreases v@.len() - j,
    {
        if v[j] == *x {
            assert(string_views(v@)[j as int] == x@);
            return true;
        }
        j += 1;
    }
    false
}

/// The distinct field values of the observations `s[lo..e]`, in the
/// order they first occur.
fn distinct_values(s: &Vec<AggRecordTimeInfo>, lo: usize, e: usize) -> (r: Vec<String>)
    requires
        lo <= e <= s@.len(),
    ensures
        string_views(r@) == distinct(values_of(s@.subrange(lo as int, e as int))),
        r@.len() <= e - lo,
{
    let mut out: Vec<String> = Vec::new();
    let mut k = lo;
    proof {
        assert(values_of(s@.subrange(lo as int, lo as int)) =~= Seq::<Seq<char>>::empty());
        assert(string_views(out@) =~= Seq::<Seq<char>>::empty());
    }
    while k < e
        invariant
            lo <= k <= e <= s@.len(),
            string_views(out@) == distinct(values_of(s@.subrange(lo as int, k as int))),
        decreases e - k,
    {
        let ghost prev = values_of(s@.subrange(lo as int, k as int));
        let ghost next = values_of(s@.subrange(lo as int, k + 1));
        proof {
            assert(next.drop_last() =~= prev);
            assert(next.last() == s@[k as int].field_record_value@);
        }
        let v = &s[k].field_record_value;
        let found = holds_string(&out, v);
        if !found {
            let ghost before = out@;
            out.push(v.clone());
            assert(string_views(out@) =~= string_views(before).push(v@));
        } else {
            assert(string_views(out@).contains(v@));
        }
        k += 1;
    }
    proof {
        lemma_distinct_len(values_of(s@.subrange(lo as int, e as int)));
    }
    out
}

/// The values of `v` that are not empty, in order.
fn non_empty_values(v: &Vec<String>) -> (r: Vec<String>)
    ensures
        string_views(r@) == non_empty(string_views(v@)),
{
    let mut out: Vec<String> = Vec::new();
    let mut i: usize = 0;
    while i < v.len()
        invariant
            i <= v@.len(),
            string_views(out@) == non_empty(string_views(v@.subrange(0, i as int))),
        decreases v@.len() - i,
    {
        proof {
            assert(string_views(v@.subrange(0, i + 1)).drop_last() =~= string_views(
                v@.subrange(0, i as int),
            ));
            assert(string_views(v@.subrange(0, i + 1)).last() == v@[i as int]@);
        }
        let x = &v[i];
        let is_empty = x.as_str().is_empty();
        if !is_empty {
            let ghost before = out@;
            out.push(x.clone());
            assert(string_views(out@) =~= string_views(before).push(x@));
        }
        i += 1;
    }
    assert(v@.subrange(0, v@.len() as int) =~= v@);
    out
}

/// The windows of the sweep over sorted observations `s`, with
/// timeframe `tf`, as `(start, end, count)`.
fn sweep_windows(s: &Vec<AggRecordTimeInfo>, aggcondition: &AggregationParseInfo, tf: i64) -> (r:
    Vec<(usize, usize, usize)>)
    requires
        s@.len() < usize::MAX / 2,
    ensures
        windows_view(r@) == sweep(
            s@,
            aggcondition._field_name is Some,
            aggcondition._cmp_op,
            aggcondition._cmp_num as int,
            tf as int,
            0,
            window_width(aggcondition._cmp_num as int, s@.len() as int) - 1,
        ),
{
    let ghost field = aggcondition._field_name is Some;
    let ghost op = aggcondition._cmp_op;
    let ghost num = aggcondition._cmp_num as int;
    let exist_field = aggcondition._field_name.is_some();
    let n = s.len();
    let num_v = aggcondition._cmp_num;
    let w: usize = if num_v <= 0 {
        1
    } else if num_v as u128 > n as u128 + 1 {
        n + 1
    } else {
        num_v as usize
    };
    assert(w as int == window_width(num, n as int));
    let ghost total = sweep(s@, field, op, num, tf as int, 0, w - 1);
    let mut out: Vec<(usize, usize, usize)> = Vec::new();
    let mut lo: usize = 0;
    let mut hi: usize = w - 1;
    assert(windows_view(out@) =~= Seq::<(int, int, int)>::empty());
    assert(Seq::<(int, int, int)>::empty() + total =~= total);
    while lo < n && hi < n + w
        invariant
            n == s@.len(),
            n < usize::MAX / 2,
            w as int == window_width(num, n as int),
            1 <= w <= n + 1,
            lo <= hi,
            field == exist_field,
            op == aggcondition._cmp_op,
            num == aggcondition._cmp_num,
            total == windows_view(out@) + sweep(s@, field, op, num, tf as int, lo as int, hi as int),
        decreases n - lo, n + w - hi,
    {
        let ghost rest = sweep(s@, field, op, num, tf as int, lo as int, hi as int);
        let ghost before = out@;
        let wide = hi >= n || (s[hi].record_time as i128) - (s[lo].record_time as i128) > tf as i128;
        assert(wide == too_wide(s@, lo as int, hi as int, tf as int));
        if wide {
            let e = if hi < n {
                hi
            } else {
                n
            };
            let c: usize = if exist_field {
                let d = distinct_values(s, lo, e);
                d.len()
            } else {
                e - lo
            };
            assert(c as int == window_count(s@, lo as int, hi as int, field));
            if select_aggcon(c as i64, aggcondition) {
                let ghost before_lo = lo;
                out.push((lo, e, c));
                let next = if hi > lo {
                    e
                } else {
                    lo + 1
                };
                lo = next;
                hi = next + w - 1;
                proof {
                    assert(windows_view(out@) =~= windows_view(before) + seq![
                        (before_lo as int, e as int, c as int),
                    ]);
                }
            } else {
                lo = lo + 1;
                hi = lo + w - 1;
            }
        } else {
            hi = hi + 1;
        }
    }
    assert(windows_view(out@) + Seq::<(int, int, int)>::empty() =~= windows_view(out@));
    out
}

/// The windows as integers.
pub open spec fn windows_view(v: Seq<(usize, usize, usize)>) -> Seq<(int, int, int)> {
    v.map_values(|x: (usize, usize, usize)| (x.0 as int, x.1 as int, x.2 as int))
}

/// `res` reports the window `win` of the sorted observations `s` of the
/// slot `key`, for the comparison `OP N`.
pub open spec fn reports(
    res: AggResult,
    win: (int, int, int),
    s: Seq<AggRecordTimeInfo>,
    key: Seq<char>,
    op: AggregationConditionToken,
    num: int,
) -> bool {
    &&& 0 <= win.0 < s.len()
    &&& win.0 <= win.1 <= s.len()
    &&& res.data == win.2
    &&& res.key@ == key
    &&& string_views(res.field_values@) == non_empty(distinct(values_of(s.subrange(win.0, win.1))))
    &&& res.start_timedate == s[win.0].record_time
    &&& res.condition_op_num@ == agg_eq_text(op, num)
}

proof fn lemma_sweep_windows_in_range(
    s: Seq<AggRecordTimeInfo>,
    field: bool,
    op: AggregationConditionToken,
    num: int,
    tf: int,
    lo: int,
    hi: int,
)
    ensures
        forall|i: int|
            0 <= i < sweep(s, field, op, num, tf, lo, hi).len() ==> {
                let x = #[trigger] sweep(s, field, op, num, tf, lo, hi)[i];
                0 <= x.0 < s.len() && x.0 <= x.1 <= s.len() && 0 <= x.2 <= s.len()
            },
    decreases s.len() - lo, s.len() + window_width(num, s.len() as int) - hi,
{
    let n = s.len() as int;
    let w = window_width(num, n);
    if lo < 0 || lo >= n || hi < lo || hi >= n + w {
        assert(sweep(s, field, op, num, tf, lo, hi).len() == 0);
    } else if too_wide(s, lo, hi, tf) {
        let c = window_count(s, lo, hi, field);
        if field {
            lemma_distinct_len(values_of(s.subrange(lo, min(hi, n))));
        }
        if cmp_holds(op, c, num) {
            let next = if hi > lo {
                min(hi, n)
            } else {
                lo + 1
            };
            lemma_sweep_windows_in_range(s, field, op, num, tf, next, next + w - 1);
            let rest = sweep(s, field, op, num, tf, next, next + w - 1);
            let all = sweep(s, field, op, num, tf, lo, hi);
            assert(all == seq![(lo, min(hi, n), c)] + rest);
            assert forall|i: int| 0 <= i < all.len() implies {
                let x = #[trigger] all[i];
                0 <= x.0 < s.len() && x.0 <= x.1 <= s.len() && 0 <= x.2 <= s.len()
            } by {
                if i > 0 {
                    assert(all[i] == rest[i - 1]);
                } else {
                    assert(all[0] == (lo, min(hi, n), c));
                }
            }
        } else {
            lemma_sweep_windows_in_range(s, field, op, num, tf, lo + 1, lo + w);
            assert(sweep(s, field, op, num, tf, lo, hi) == sweep(s, field, op, num, tf, lo + 1, lo + w));
        }
    } else {
        lemma_sweep_windows_in_range(s, field, op, num, tf, lo, hi + 1);
        assert(sweep(s, field, op, num, tf, lo, hi) == sweep(s, field, op, num, tf, lo, hi + 1));
    }
}

/// The windows of one slot's observations that satisfy the aggregation
/// of a rule: the observations are sorted by time (equal times keep their
/// order) and then swept with the timeframe `timeframe` in seconds, or
/// taken as a whole when there is none.
pub fn judge_timeframe(
    aggcondition: &AggregationParseInfo,
    timeframe: Option<i64>,
    time_datas: &Vec<AggRecordTimeInfo>,
    key: &String,
) -> (r: Vec<AggResult>)
    requires
        time_datas@.len() < usize::MAX / 2,
    ensures
        ({
            let s = sort_by_time(time_datas@);
            let ws = agg_windows(
                s,
                aggcondition._field_name is Some,
                aggcondition._cmp_op,
                aggcondition._cmp_num as int,
                match timeframe {
                    Some(t) => Some(t as int),
                    None => None,
                },
            );
            r@.len() == ws.len() && forall|i: int|
                0 <= i < r@.len() ==> reports(
                    #[trigger] r@[i],
                    ws[i],
                    s,
                    key@,
                    aggcondition._cmp_op,
                    aggcondition._cmp_num as int,
                )
        }),
{
    let s = sort_by_record_time(time_datas);
    proof {
        lemma_sort_len(time_datas@);
    }
    let n = s.len();
    let ghost field = aggcondition._field_name is Some;
    let ghost op = aggcondition._cmp_op;
    let ghost num = aggcondition._cmp_num as int;
    let ghost tfv = match timeframe {
        Some(t) => Some(t as int),
        None => None,
    };
    let ghost ws = agg_windows(s@, field, op, num, tfv);
    let windows: Vec<(usize, usize, usize)> = match timeframe {
        Some(tf) => {
            let v = sweep_windows(&s, aggcondition, tf);
            proof {
                lemma_sweep_windows_in_range(s@, field, op, num, tf as int, 0, window_width(num, n as int) - 1);
            }
            v
        },
        None => {
            let mut v: Vec<(usize, usize, usize)> = Vec::new();
            if n > 0 {
                let c: usize = if aggcondition._field_name.is_some() {
                    distinct_values(&s, 0, n).len()
                } else {
                    n
                };
                assert(s@.subrange(0, n as int) =~= s@);
                assert(c as int == window_count(s@, 0, n as int, field));
                if select_aggcon(c as i64, aggcondition) {
                    v.push((0, n, n));
                }
            }
            assert(windows_view(v@) =~= ws);
            v
        },
    };
    assert(windows_view(windows@) == ws);
    let op_text = get_str_agg_eq(aggcondition);
    let mut out: Vec<AggResult> = Vec::new();
    let mut i: usize = 0;
    while i < windows.len()
        invariant
            i <= windows@.len(),
            windows_view(windows@) == ws,
            n == s@.len(),
            forall|k: int| 0 <= k < ws.len() ==> {
                let x = #[trigger] ws[k];
                0 <= x.0 < n && x.0 <= x.1 <= n && 0 <= x.2 <= n
            },
            n < usize::MAX / 2,
            op_text@ == agg_eq_text(op, num),
            out@.len() == i,
            forall|k: int| 0 <= k < i ==> reports(#[trigger] out@[k], ws[k], s@, key@, op, num),
        decreases windows@.len() - i,
    {
        let (lo, e, c) = windows[i];
        assert(ws[i as int] == (lo as int, e as int, c as int));
        let ghost before = out@;
        let d = distinct_values(&s, lo, e);
        let vals = non_empty_values(&d);
        let res = AggResult {
            data: c as i64,
            key: key.clone(),
            field_values: vals,
            start_timedate: s[lo].record_time,
            condition_op_num: op_text.clone(),
        };
        out.push(res);
        assert forall|k: int| 0 <= k < i + 1 implies reports(#[trigger] out@[k], ws[k], s@, key@, op, num) by {
            if k < i {
                assert(out@[k] == before[k]);
            }
        }
        i += 1;
    }
    out
}

proof fn lemma_sort_len(s: Seq<AggRecordTimeInfo>)
    ensures
        sort_by_time(s).len() == s.len(),
    decreases s.len(),
{
    if s.len() > 0 {
        lemma_sort_len(s.drop_last());
        lemma_insert_pos_range(sort_by_time(s.drop_last()), s.last().record_time as int);
    }
}

proof fn lemma_insert_pos_range(s: Seq<AggRecordTimeInfo>, t: int)
    ensures
        0 <= insert_pos(s, t) <= s.len(),
    decreases s.len(),
{
    if s.len() > 0 {
        lemma_insert_pos_range(s.drop_last(), t);
    }
}

/// The observations of one `by` key of an aggregating rule, in the
/// order they arrived.
#[derive(Clone, Debug)]
pub struct CountSlot {
    pub key: String,
    pub records: Vec<AggRecordTimeInfo>,
}

/// `a` comes before `b` in the order of strings: compared character by
/// character, a proper prefix first.
pub open spec fn key_lt(a: Seq<char>, b: Seq<char>) -> bool
    decreases a.len(),
{
    if a.len() == 0 {
        b.len() > 0
    } else if b.len() == 0 {
        false
    } else if a[0] != b[0] {
        a[0] < b[0]
    } else {
        key_lt(a.drop_first(), b.drop_first())
    }
}

proof fn lemma_key_lt_irreflexive(a: Seq<char>)
    ensures
        !key_lt(a, a),
    decreases a.len(),
{
    if a.len() > 0 {
        lemma_key_lt_irreflexive(a.drop_first());
    }
}

proof fn lemma_key_lt_total(a: Seq<char>, b: Seq<char>)
    ensures
        a != b ==> key_lt(a, b) || key_lt(b, a),
    decreases a.len(),
{
    if a.len() > 0 && b.len() > 0 && a[0] == b[0] {
        lemma_key_lt_total(a.drop_first(), b.drop_first());
        if a.drop_first() == b.drop_first() {
            assert(a =~= seq![a[0]] + a.drop_first());
            assert(b =~= seq![b[0]] + b.drop_first());
        }
    } else if a.len() == 0 && b.len() == 0 {
        assert(a =~= b);
    }
}

proof fn lemma_key_lt_transitive(a: Seq<char>, b: Seq<char>, c: Seq<char>)
    requires
        key_lt(a, b),
        key_lt(b, c),
    ensures
        key_lt(a, c),
    decreases a.len(),
{
    if a.len() > 0 && b.len() > 0 && c.len() > 0 && a[0] == b[0] && b[0] == c[0] {
        lemma_key_lt_transitive(a.drop_first(), b.drop_first(), c.drop_first());
    }
}

/// Whether `a` comes before `b` in the order of strings.
fn key_less(a: &String, b: &String) -> (r: bool)
    ensures
        r == key_lt(a@, b@),
{
    let x = chars_of(a.as_str());
    let y = chars_of(b.as_str());
    let mut i: usize = 0;
    assert(x@.skip(0) =~= x@ && y@.skip(0) =~= y@);
    while i < x.len() && i < y.len() && x[i] == y[i]
        invariant
            i <= x@.len(),
            i <= y@.len(),
            key_lt(x@, y@) == key_lt(x@.skip(i as int), y@.skip(i as int)),
        decreases x@.len() - i,
    {
        proof {
            let xs = x@.skip(i as int);
            let ys = y@.skip(i as int);
            assert(xs.drop_first() =~= x@.skip(i + 1));
            assert(ys.drop_first() =~= y@.skip(i + 1));
        }
        i += 1;
    }
    proof {
        let xs = x@.skip(i as int);
        let ys = y@.skip(i as int);
        if i < x.len() && i < y.len() {
            assert(xs[0] == x@[i as int] && ys[0] == y@[i as int]);
        }
    }
    if i == x.len() {
        i < y.len()
    } else if i == y.len() {
        false
    } else {
        x[i] < y[i]
    }
}

/// The observations of an aggregating rule, one slot per `by` key, the
/// slots in the order of their keys.
#[derive(Clone, Debug)]
pub struct CountData {
    pub slots: Vec<CountSlot>,
}

/// `new` is `old` with the observation `(value, time)` recorded under
/// `key`: appended to the slot of that key, or in a new slot of its own
/// where there is none; every other slot stays as it was.
pub open spec fn counted_into(old: CountData, new: CountData, key: Seq<char>, value: Seq<char>, time: i64) -> bool {
    if old.keys().contains(key) {
        &&& new.slots@.len() == old.slots@.len()
        &&& forall|i: int|
            0 <= i < old.slots@.len() ==> if old.slots@[i].key@ == key {
                &&& (#[trigger] new.slots@[i]).key == old.slots@[i].key
                &&& new.slots@[i].records@.len() == old.slots@[i].records@.len() + 1
                &&& new.slots@[i].records@.drop_last() == old.slots@[i].records@
                &&& new.slots@[i].records@.last().field_record_value@ == value
                &&& new.slots@[i].records@.last().record_time == time
            } else {
                new.slots@[i] == old.slots@[i]
            }
    } else {
        exists|p: int|
            0 <= p <= old.slots@.len() && new.slots@.len() == old.slots@.len() + 1
                && new.slots@.subrange(0, p) == old.slots@.subrange(0, p) && new.slots@.subrange(
                p + 1,
                new.slots@.len() as int,
            ) == old.slots@.subrange(p, old.slots@.len() as int) && (#[trigger] new.slots@[p]).key@
                == key && new.slots@[p].records@.len() == 1
                && new.slots@[p].records@[0].field_record_value@ == value
                && new.slots@[p].records@[0].record_time == time
    }
}

impl CountData {
    /// The keys of the slots, in order.
    pub open spec fn keys(&self) -> Seq<Seq<char>> {
        self.slots@.map_values(|c: CountSlot| c.key@)
    }

    /// The slots are in strictly ascending order of their keys.
    pub open spec fn wf(&self) -> bool {
        forall|i: int, j: int|
            0 <= i < j < self.slots@.len() ==> key_lt(self.slots@[i].key@, self.slots@[j].key@)
    }

    pub fn new() -> (r: CountData)
        ensures
            r.wf(),
            r.slots@.len() == 0,
    {
        CountData { slots: Vec::new() }
    }

    /// Records an observation under `key`: appended to the slot of that
    /// key, or in a new slot at the place of `key` in the order of keys.
    pub fn countup(&mut self, key: String, field_value: String, record_time: i64)
        requires
            old(self).wf(),
        ensures
            final(self).wf(),
            counted_into(*old(self), *final(self), key@, field_value@, record_time),
    {
        let ghost kv = key@;
        let ghost fv = field_value@;
        let mut i: usize = 0;
        while i < self.slots.len()
            invariant
                i <= self.slots@.len(),
                self.slots@ == old(self).slots@,
                old(self).wf(),
                kv == key@,
                fv == field_value@,
                forall|k: int| 0 <= k < i ==> key_lt(#[trigger] self.slots@[k].key@, key@),
            decreases self.slots@.len() - i,
        {
            if self.slots[i].key == key {
                let ghost old_slots = self.slots@;
                let mut slot = self.slots.remove(i);
                slot.records.push(AggRecordTimeInfo { field_record_value: field_value, record_time });
                self.slots.insert(i, slot);
                proof {
                    assert(old(self).keys()[i as int] == kv);
                    assert(self.slots@[i as int].records@.drop_last() =~= old_slots[i as int].records@);
                    assert forall|k: int| 0 <= k < old_slots.len() && k != i implies self.slots@[k] == old_slots[k] by {}
                    assert forall|a: int, b: int| 0 <= a < b < self.slots@.len() implies key_lt(self.slots@[a].key@, self.slots@[b].key@) by {
                        assert(self.slots@[a].key@ == old_slots[a].key@);
                        assert(self.slots@[b].key@ == old_slots[b].key@);
                    }
                    assert forall|k: int| 0 <= k < old_slots.len() && old_slots[k].key@ == kv implies k == i by {
                        if k < i {
                            lemma_key_lt_irreflexive(kv);
                        } else if k > i {
                            lemma_key_lt_irreflexive(kv);
                            assert(key_lt(old_slots[i as int].key@, old_slots[k].key@));
                        }
                    }
                }
                return;
            }
            if key_less(&key, &self.slots[i].key) {
                let ghost old_slots = self.slots@;
                let mut records: Vec<AggRecordTimeInfo> = Vec::new();
                records.push(AggRecordTimeInfo { field_record_value: field_value, record_time });
                self.slots.insert(i, CountSlot { key, records });
                proof {
                    lemma_key_lt_irreflexive(kv);
                    assert(!old(self).keys().contains(kv)) by {
                        if old(self).keys().contains(kv) {
                            let k = choose|k: int| 0 <= k < old(self).keys().len() && old(self).keys()[k] == kv;
                            assert(old_slots[k].key@ == kv);
                            if k > i {
                                lemma_key_lt_transitive(kv, old_slots[i as int].key@, old_slots[k].key@);
                            }
                        }
                    }
                    let q = self.slots@;
                    assert forall|a: int, b: int| 0 <= a < b < q.len() implies key_lt(q[a].key@, q[b].key@) by {
                        if b == i {
                        } else if a == i {
                            assert(q[b] == old_slots[b - 1]);
                            if b - 1 > i {
                                lemma_key_lt_transitive(kv, old_slots[i as int].key@, old_slots[b - 1].key@);
                            }
                        } else if a < i && b < i {
                        } else if a < i {
                            assert(q[b] == old_slots[b - 1]);
                        } else {
                            assert(q[a] == old_slots[a - 1]);
                            assert(q[b] == old_slots[b - 1]);
                        }
                    }
                    assert(q.subrange(0, i as int) =~= old_slots.subrange(0, i as int));
                    assert(q.subrange(i + 1, q.len() as int) =~= old_slots.subrange(i as int, old_slots.len() as int));
                    assert(q[i as int].key@ == kv);
                }
                return;
            }
            proof {
                lemma_key_lt_total(self.slots@[i as int].key@, kv);
            }
            i += 1;
        }
        let mut records: Vec<AggRecordTimeInfo> = Vec::new();
        records.push(AggRecordTimeInfo { field_record_value: field_value, record_time });
        let ghost old_slots = self.slots@;
        self.slots.push(CountSlot { key, records });
        proof {
            lemma_key_lt_irreflexive(kv);
            assert(!old(self).keys().contains(kv)) by {
                if old(self).keys().contains(kv) {
                    let k = choose|k: int| 0 <= k < old(self).keys().len() && old(self).keys()[k] == kv;
                    assert(old_slots[k].key@ == kv);
                }
            }
            let q = self.slots@;
            let p = old_slots.len() as int;
            assert(q.subrange(0, p) =~= old_slots.subrange(0, p));
            assert(q.subrange(p + 1, q.len() as int) =~= old_slots.subrange(p, p));
            assert(q[p].key@ == kv);
        }
    }
}

/// The windows of every slot of `slots`, slot after slot, each with the
/// index of its slot.
pub open spec fn slot_windows(
    slots: Seq<CountSlot>,
    field: bool,
    op: AggregationConditionToken,
    num: int,
    timeframe: Option<int>,
) -> Seq<(int, (int, int, int))>
    decreases slots.len(),
{
    if slots.len() == 0 {
        Seq::empty()
    } else {
        let last = slots.len() - 1;
        slot_windows(slots.drop_last(), field, op, num, timeframe) + agg_windows(
            sort_by_time(slots.last().records@),
            field,
            op,
            num,
            timeframe,
        ).map_values(|w: (int, int, int)| (last, w))
    }
}

/// A timeframe in seconds as an integer.
pub open spec fn tf_int(timeframe: Option<i64>) -> Option<int> {
    match timeframe {
        Some(t) => Some(t as int),
        None => None,
    }
}

/// `r` reports, in order, the windows of all the slots that satisfy the
/// aggregation `agg` with the timeframe `timeframe`.
pub open spec fn reports_all(
    r: Seq<AggResult>,
    slots: Seq<CountSlot>,
    agg: AggregationParseInfo,
    timeframe: Option<i64>,
) -> bool {
    let all = slot_windows(
        slots,
        agg._field_name is Some,
        agg._cmp_op,
        agg._cmp_num as int,
        tf_int(timeframe),
    );
    r.len() == all.len() && forall|k: int|
        0 <= k < r.len() ==> 0 <= (#[trigger] all[k]).0 < slots.len() && reports(
            r[k],
            all[k].1,
            sort_by_time(slots[all[k].0].records@),
            slots[all[k].0].key@,
            agg._cmp_op,
            agg._cmp_num as int,
        )
}

/// What `reports_all` says of its result `k`.
pub proof fn lemma_reports_all_at(
    r: Seq<AggResult>,
    slots: Seq<CountSlot>,
    agg: AggregationParseInfo,
    timeframe: Option<i64>,
    all: Seq<(int, (int, int, int))>,
    k: int,
)
    requires
        reports_all(r, slots, agg, timeframe),
        all == slot_windows(slots, agg._field_name is Some, agg._cmp_op, agg._cmp_num as int, tf_int(timeframe)),
        0 <= k < r.len(),
    ensures
        r.len() == all.len(),
        0 <= all[k].0 < slots.len(),
        reports(
            r[k],
            all[k].1,
            sort_by_time(slots[all[k].0].records@),
            slots[all[k].0].key@,
            agg._cmp_op,
            agg._cmp_num as int,
        ),
{
}

/// The windows of all slots of `countdata` that satisfy the aggregation:
/// slot after slot, in ascending order of their keys, each slot's windows in the
/// order the sweep finds them.
#[verifier::loop_isolation(false)]
pub fn aggregation_condition_select(
    countdata: &CountData,
    aggcondition: &AggregationParseInfo,
    timeframe: Option<i64>,
) -> (r: Vec<AggResult>)
    requires
        forall|i: int|
            0 <= i < countdata.slots@.len() ==> (#[trigger] countdata.slots@[i]).records@.len()
                < usize::MAX / 2,
    ensures
        reports_all(r@, countdata.slots@, *aggcondition, timeframe),
{
    let ghost field = aggcondition._field_name is Some;
    let ghost op = aggcondition._cmp_op;
    let ghost num = aggcondition._cmp_num as int;
    let ghost tfv = match timeframe {
        Some(t) => Some(t as int),
        None => None,
    };
    let ghost slots = countdata.slots@;
    let mut ret: Vec<AggResult> = Vec::new();
    let mut i: usize = 0;
    while i < countdata.slots.len()
        invariant
            i <= slots.len(),
            slots == countdata.slots@,
            forall|x: int| 0 <= x < slots.len() ==> (#[trigger] slots[x]).records@.len() < usize::MAX / 2,
            ({
                let all = slot_windows(slots.subrange(0, i as int), field, op, num, tfv);
                ret@.len() == all.len() && forall|k: int|
                    0 <= k < ret@.len() ==> 0 <= (#[trigger] all[k]).0 < i && reports(
                        ret@[k],
                        all[k].1,
                        sort_by_time(slots[all[k].0].records@),
                        slots[all[k].0].key@,
                        op,
                        num,
                    )
            }),
        decreases slots.len() - i,
    {
        let slot = &countdata.slots[i];
        let mut found = judge_timeframe(aggcondition, timeframe, &slot.records, &slot.key);
        let ghost before = ret@;
        let ghost found0 = found@;
        ret.append(&mut found);
        proof {
            let pre = slots.subrange(0, i as int);
            let cur = slots.subrange(0, i + 1);
            assert(cur.drop_last() =~= pre);
            assert(cur.last() == slots[i as int]);
            let all0 = slot_windows(pre, field, op, num, tfv);
            let ws = agg_windows(sort_by_time(slots[i as int].records@), field, op, num, tfv);
            let all1 = slot_windows(cur, field, op, num, tfv);
            assert(all1 == all0 + ws.map_values(|w: (int, int, int)| (i as int, w)));
            assert(found0.len() == ws.len());
            assert(ret@ == before + found0);
            assert(all1.len() == ret@.len());
            assert forall|k: int| 0 <= k < ret@.len() implies 0 <= (#[trigger] all1[k]).0 < i + 1
                && reports(
                ret@[k],
                all1[k].1,
                sort_by_time(slots[all1[k].0].records@),
                slots[all1[k].0].key@,
                op,
                num,
            ) by {
                if k < before.len() {
                    assert(ret@[k] == before[k]);
                    assert(all1[k] == all0[k]);
                } else {
                    let j = k - before.len();
                    assert(0 <= j < ws.len());
                    assert(ret@[k] == found0[j]);
                    assert(reports(found0[j], ws[j], sort_by_time(slots[i as int].records@), slots[i as int].key@, op, num));
                    assert(all1[k] == (i as int, ws[j]));
                }
            }
        }
        i += 1;
    }
    assert(slots.subrange(0, slots.len() as int) =~= slots);
    ret
}

} // verus!

verus! {

proof fn lemma_distinct_nonempty(s: Seq<Seq<char>>)
    requires
        s.len() > 0,
    ensures
        distinct(s).len() > 0,
    decreases s.len(),
{
    if s.len() > 1 {
        lemma_distinct_nonempty(s.drop_last());
    }
}

proof fn lemma_count_bounds(s: Seq<AggRecordTimeInfo>, lo: int, hi: int, field: bool)
    requires
        0 <= lo <= hi,
        lo <= s.len(),
    ensures
        0 <= window_count(s, lo, hi, field) <= min(hi, s.len() as int) - lo,
        min(hi, s.len() as int) > lo ==> window_count(s, lo, hi, field) >= 1,
{
    let e = min(hi, s.len() as int);
    let vals = values_of(s.subrange(lo, e));
    lemma_distinct_len(vals);
    if e > lo {
        lemma_distinct_nonempty(vals);
    }
}

/// Without a timeframe, `count() >= N` (with `N >= 1`) over `K`
/// observations gives one window when `K >= N` and none otherwise, so
/// never more than one window per `N` observations, and exactly `K / N`
/// of them when `K < 2 * N`.
pub proof fn lemma_count_without_timeframe(s: Seq<AggRecordTimeInfo>, num: int)
    requires
        num >= 1,
    ensures
        agg_windows(s, false, AggregationConditionToken::GE, num, None).len() == if s.len()
            >= num {
            1int
        } else {
            0int
        },
        agg_windows(s, false, AggregationConditionToken::GE, num, None).len() * num <= s.len(),
        s.len() < 2 * num ==> agg_windows(s, false, AggregationConditionToken::GE, num, None).len()
            == (s.len() as int) / num,
{
    let k = s.len() as int;
    if k >= num && k < 2 * num {
        assert(k / num == 1) by (nonlinear_arith)
            requires
                k >= num,
                k < 2 * num,
                num >= 1,
        ;
    }
    if k < num {
        assert(k / num == 0) by (nonlinear_arith)
            requires
                0 <= k < num,
        ;
    }
    let l = agg_windows(s, false, AggregationConditionToken::GE, num, None).len() as int;
    if k >= num {
        assert(l == 1);
        assert(l * num == num);
    } else {
        assert(l == 0);
        assert(l * num == 0);
    }
}

/// The same observations and the same aggregation give the same windows:
/// running the aggregation again yields the same results.
pub proof fn lemma_windows_deterministic(
    s1: Seq<AggRecordTimeInfo>,
    s2: Seq<AggRecordTimeInfo>,
    field: bool,
    op: AggregationConditionToken,
    num: int,
    timeframe: Option<int>,
)
    requires
        s1 == s2,
    ensures
        agg_windows(sort_by_time(s1), field, op, num, timeframe) == agg_windows(
            sort_by_time(s2),
            field,
            op,
            num,
            timeframe,
        ),
{
}

/// The comparison is one that a larger count can satisfy: `>=`, `>` or
/// `==`.
pub open spec fn is_lower_bound(op: AggregationConditionToken) -> bool {
    op is GE || op is GT || op is EQ
}

proof fn lemma_sweep_span_from(
    s: Seq<AggRecordTimeInfo>,
    field: bool,
    op: AggregationConditionToken,
    num: int,
    tf: int,
    lo: int,
    hi: int,
)
    requires
        tf >= 0,
        is_lower_bound(op),
        hi >= lo + window_width(num, s.len() as int) - 1,
        hi > lo + window_width(num, s.len() as int) - 1 ==> 0 <= lo && hi - 1 < s.len()
            && s[hi - 1].record_time - s[lo].record_time <= tf,
    ensures
        forall|i: int|
            0 <= i < sweep(s, field, op, num, tf, lo, hi).len() ==> {
                let x = #[trigger] sweep(s, field, op, num, tf, lo, hi)[i];
                x.0 < x.1 && s[x.1 - 1].record_time - s[x.0].record_time <= tf
            },
    decreases s.len() - lo, s.len() + window_width(num, s.len() as int) - hi,
{
    let n = s.len() as int;
    let w = window_width(num, n);
    let all = sweep(s, field, op, num, tf, lo, hi);
    if lo < 0 || lo >= n || hi < lo || hi >= n + w {
        assert(all.len() == 0);
    } else if too_wide(s, lo, hi, tf) {
        let c = window_count(s, lo, hi, field);
        lemma_count_bounds(s, lo, hi, field);
        if cmp_holds(op, c, num) {
            let next = if hi > lo {
                min(hi, n)
            } else {
                lo + 1
            };
            assert(hi > lo + w - 1);
            lemma_sweep_span_from(s, field, op, num, tf, next, next + w - 1);
            let rest = sweep(s, field, op, num, tf, next, next + w - 1);
            assert(all == seq![(lo, min(hi, n), c)] + rest);
            assert forall|i: int| 0 <= i < all.len() implies {
                let x = #[trigger] all[i];
                x.0 < x.1 && s[x.1 - 1].record_time - s[x.0].record_time <= tf
            } by {
                if i > 0 {
                    assert(all[i] == rest[i - 1]);
                }
            }
        } else {
            lemma_sweep_span_from(s, field, op, num, tf, lo + 1, lo + w);
            assert(all == sweep(s, field, op, num, tf, lo + 1, lo + w));
        }
    } else {
        lemma_sweep_span_from(s, field, op, num, tf, lo, hi + 1);
        assert(all == sweep(s, field, op, num, tf, lo, hi + 1));
    }
}

/// With a timeframe of `tf >= 0` seconds and a comparison `>=`, `>` or
/// `==`, every window found spans at most `tf` seconds from its first
/// observation to its last.
pub proof fn lemma_window_span(
    s: Seq<AggRecordTimeInfo>,
    field: bool,
    op: AggregationConditionToken,
    num: int,
    tf: int,
)
    requires
        tf >= 0,
        is_lower_bound(op),
    ensures
        forall|i: int|
            0 <= i < agg_windows(s, field, op, num, Some(tf)).len() ==> {
                let x = #[trigger] agg_windows(s, field, op, num, Some(tf))[i];
                x.0 < x.1 && s[x.1 - 1].record_time - s[x.0].record_time <= tf
            },
{
    lemma_sweep_span_from(s, field, op, num, tf, 0, window_width(num, s.len() as int) - 1);
}

proof fn lemma_sweep_zero_ge_from(s: Seq<AggRecordTimeInfo>, field: bool, tf: int, lo: int, hi: int)
    requires
        tf >= 0,
        0 <= lo < s.len(),
        lo <= hi <= s.len(),
    ensures
        ({
            let r = sweep(s, field, AggregationConditionToken::GE, 0, tf, lo, hi);
            &&& r.len() > 0
            &&& r[0].0 == lo
            &&& r.last().1 == s.len()
            &&& forall|i: int| 0 <= i < r.len() - 1 ==> (#[trigger] r[i]).1 == r[i + 1].0
        }),
    decreases s.len() - lo, s.len() + 1 - hi,
{
    let n = s.len() as int;
    let op = AggregationConditionToken::GE;
    let all = sweep(s, field, op, 0, tf, lo, hi);
    if too_wide(s, lo, hi, tf) {
        let c = window_count(s, lo, hi, field);
        lemma_count_bounds(s, lo, hi, field);
        assert(hi > lo);
        if hi < n {
            lemma_sweep_zero_ge_from(s, field, tf, hi, hi);
            let rest = sweep(s, field, op, 0, tf, hi, hi);
            assert(all == seq![(lo, hi, c)] + rest);
            assert forall|i: int| 0 <= i < all.len() - 1 implies (#[trigger] all[i]).1 == all[i
                + 1].0 by {
                if i > 0 {
                    assert(all[i] == rest[i - 1]);
                }
                assert(all[i + 1] == rest[i]);
            }
        } else {
            assert(sweep(s, field, op, 0, tf, n, n).len() == 0);
            assert(all =~= seq![(lo, n, c)]);
        }
    } else {
        lemma_sweep_zero_ge_from(s, field, tf, lo, hi + 1);
        assert(all == sweep(s, field, op, 0, tf, lo, hi + 1));
    }
}

/// With `N = 0` and `>=`, every window satisfies the comparison: with a
/// timeframe `tf >= 0` the windows found cover all observations, one
/// after the other from the first to the last; without one, all
/// observations form one window.
pub proof fn lemma_zero_ge_reports_every_window(s: Seq<AggRecordTimeInfo>, field: bool, tf: int)
    requires
        tf >= 0,
        s.len() > 0,
    ensures
        ({
            let r = agg_windows(s, field, AggregationConditionToken::GE, 0, Some(tf));
            &&& r.len() > 0
            &&& r[0].0 == 0
            &&& r.last().1 == s.len()
            &&& forall|i: int| 0 <= i < r.len() - 1 ==> (#[trigger] r[i]).1 == r[i + 1].0
        }),
        agg_windows(s, field, AggregationConditionToken::GE, 0, None) == seq![
            (0int, s.len() as int, s.len() as int),
        ],
{
    lemma_sweep_zero_ge_from(s, field, tf, 0, 0);
    lemma_count_bounds(s, 0, s.len() as int, field);
}

proof fn lemma_sweep_zero_gt_from(s: Seq<AggRecordTimeInfo>, field: bool, tf: int, lo: int, hi: int)
    requires
        tf >= 0,
        0 <= lo < s.len(),
        lo <= hi <= s.len(),
    ensures
        sweep(s, field, AggregationConditionToken::GT, 0, tf, lo, hi).len() > 0,
    decreases s.len() + 1 - hi,
{
    let op = AggregationConditionToken::GT;
    if too_wide(s, lo, hi, tf) {
        lemma_count_bounds(s, lo, hi, field);
        assert(hi > lo);
    } else {
        lemma_sweep_zero_gt_from(s, field, tf, lo, hi + 1);
        assert(sweep(s, field, op, 0, tf, lo, hi) == sweep(s, field, op, 0, tf, lo, hi + 1));
    }
}

/// With `N = 0` and `>`, some window is found as soon as there is one
/// observation, with a timeframe `tf >= 0` or without one.
pub proof fn lemma_zero_gt_reports_when_observed(s: Seq<AggRecordTimeInfo>, field: bool, tf: int)
    requires
        tf >= 0,
        s.len() > 0,
    ensures
        agg_windows(s, field, AggregationConditionToken::GT, 0, Some(tf)).len() > 0,
        agg_windows(s, field, AggregationConditionToken::GT, 0, None).len() > 0,
{
    lemma_sweep_zero_gt_from(s, field, tf, 0, 0);
    lemma_count_bounds(s, 0, s.len() as int, field);
}

/// The observations of `s` are in non-decreasing order of time.
pub open spec fn sorted_by_time(s: Seq<AggRecordTimeInfo>) -> bool {
    forall|i: int, j: int| 0 <= i <= j < s.len() ==> s[i].record_time <= s[j].record_time
}

proof fn lemma_insert_pos_sorted(s: Seq<AggRecordTimeInfo>, t: int)
    requires
        sorted_by_time(s),
    ensures
        0 <= insert_pos(s, t) <= s.len(),
        forall|k: int| 0 <= k < insert_pos(s, t) ==> s[k].record_time <= t,
        forall|k: int| insert_pos(s, t) <= k < s.len() ==> s[k].record_time > t,
    decreases s.len(),
{
    if s.len() > 0 {
        let n = s.len() as int;
        if s.last().record_time <= t {
            assert forall|k: int| 0 <= k < insert_pos(s, t) implies s[k].record_time <= t by {
                assert(s[k].record_time <= s[n - 1].record_time);
            }
        } else {
            let d = s.drop_last();
            assert(sorted_by_time(d)) by {
                assert forall|i: int, j: int| 0 <= i <= j < d.len() implies d[i].record_time
                    <= d[j].record_time by {
                    assert(d[i] == s[i] && d[j] == s[j]);
                }
            }
            lemma_insert_pos_sorted(d, t);
            let p = insert_pos(d, t);
            assert(insert_pos(s, t) == p);
            assert forall|k: int| 0 <= k < p implies s[k].record_time <= t by {
                assert(s[k] == d[k]);
            }
            assert forall|k: int| p <= k < s.len() implies s[k].record_time > t by {
                if k < n - 1 {
                    assert(s[k] == d[k]);
                }
            }
        }
    }
}

/// Sorting by time gives observations in non-decreasing order of time.
pub proof fn lemma_sort_sorted(s: Seq<AggRecordTimeInfo>)
    ensures
        sorted_by_time(sort_by_time(s)),
        sort_by_time(s).len() == s.len(),
    decreases s.len(),
{
    lemma_sort_len(s);
    if s.len() > 0 {
        lemma_sort_sorted(s.drop_last());
        let r = sort_by_time(s.drop_last());
        let x = s.last();
        let p = insert_pos(r, x.record_time as int);
        lemma_insert_pos_sorted(r, x.record_time as int);
        let q = r.insert(p, x);
        assert forall|i: int, j: int| 0 <= i <= j < q.len() implies q[i].record_time
            <= q[j].record_time by {
            if i < p && j < p {
            } else if i < p && j == p {
            } else if i < p && j > p {
                assert(q[j] == r[j - 1]);
            } else if i == p && j > p {
                assert(q[j] == r[j - 1]);
            } else if i > p {
                assert(q[i] == r[i - 1]);
                assert(q[j] == r[j - 1]);
            }
        }
    }
}

/// With a timeframe of zero and a comparison `>=`, `>` or `==`, the
/// observations of a window found over sorted observations all have
/// the same time.
pub proof fn lemma_zero_timeframe_same_time(
    s: Seq<AggRecordTimeInfo>,
    field: bool,
    op: AggregationConditionToken,
    num: int,
)
    requires
        sorted_by_time(s),
        is_lower_bound(op),
    ensures
        forall|i: int, k: int|
            #![trigger agg_windows(s, field, op, num, Some(0))[i], s[k]]
            0 <= i < agg_windows(s, field, op, num, Some(0)).len() && agg_windows(
                s,
                field,
                op,
                num,
                Some(0),
            )[i].0 <= k < agg_windows(s, field, op, num, Some(0))[i].1 ==> s[k].record_time
                == s[agg_windows(s, field, op, num, Some(0))[i].0].record_time,
{
    lemma_window_span(s, field, op, num, 0);
    lemma_sweep_windows_in_range(s, field, op, num, 0, 0, window_width(num, s.len() as int) - 1);
    let ws = agg_windows(s, field, op, num, Some(0));
    assert forall|i: int, k: int|
        #![trigger ws[i], s[k]]
        0 <= i < ws.len() && ws[i].0 <= k < ws[i].1 implies s[k].record_time
        == s[ws[i].0].record_time by {
        let x = ws[i];
        assert(s[x.0].record_time <= s[k].record_time);
        assert(s[k].record_time <= s[x.1 - 1].record_time);
    }
}

/// The slot key of an observation: the value of the `by` field, or `_`
/// when there is no `by` field or the record lacks it.
pub open spec fn count_key(agg: AggregationParseInfo, aliases: FieldAliases, record: EventRecord) -> Seq<char> {
    match agg._by_field_name {
        Some(by) => match field_value(aliases, record, by@) {
            Some(v) => v,
            None => "_"@,
        },
        None => "_"@,
    }
}

/// The slot key under which an observation of `record` is counted.
pub fn create_count_key(agg: &AggregationParseInfo, aliases: &FieldAliases, record: &EventRecord) -> (r: String)
    ensures
        r@ == count_key(*agg, *aliases, *record),
{
    match &agg._by_field_name {
        Some(by) => match aliases.get(by, record) {
            Some(v) => v,
            None => "_".to_string(),
        },
        None => "_".to_string(),
    }
}

/// The counted value of an observation: the value of the counted field,
/// empty when there is none or the record lacks it.
pub open spec fn counted_value(agg: AggregationParseInfo, aliases: FieldAliases, record: EventRecord) -> Seq<char> {
    match agg._field_name {
        Some(f) => match field_value(aliases, record, f@) {
            Some(v) => v,
            None => Seq::empty(),
        },
        None => Seq::empty(),
    }
}

/// Records an observation of `record`, which satisfied the condition of an
/// aggregating rule, under its slot key; a record without an event time
/// is not counted.
pub fn count(
    countdata: &mut CountData,
    agg: &AggregationParseInfo,
    aliases: &FieldAliases,
    record: &EventRecord,
    record_time: Option<i64>,
)
    requires
        old(countdata).wf(),
    ensures
        final(countdata).wf(),
        record_time is None ==> final(countdata).slots@ == old(countdata).slots@,
        record_time is Some ==> counted_into(
            *old(countdata),
            *final(countdata),
            count_key(*agg, *aliases, *record),
            counted_value(*agg, *aliases, *record),
            record_time->0,
        ),
{
    let t = match record_time {
        None => {
            return;
        },
        Some(t) => t,
    };
    let key = create_count_key(agg, aliases, record);
    let value = match &agg._field_name {
        Some(f) => match aliases.get(f, record) {
            Some(v) => v,
            None => String::new(),
        },
        None => String::new(),
    };
    countdata.countup(key, value, t);
}

proof fn lemma_sweep_disjoint_from(
    s: Seq<AggRecordTimeInfo>,
    field: bool,
    op: AggregationConditionToken,
    num: int,
    tf: int,
    lo: int,
    hi: int,
)
    ensures
        ({
            let r = sweep(s, field, op, num, tf, lo, hi);
            &&& forall|i: int| 0 <= i < r.len() ==> lo <= (#[trigger] r[i]).0 <= r[i].1
            &&& forall|i: int| 0 <= i < r.len() - 1 ==> (#[trigger] r[i]).1 <= r[i + 1].0
        }),
    decreases s.len() - lo, s.len() + window_width(num, s.len() as int) - hi,
{
    let n = s.len() as int;
    let w = window_width(num, n);
    let all = sweep(s, field, op, num, tf, lo, hi);
    if lo < 0 || lo >= n || hi < lo || hi >= n + w {
        assert(all.len() == 0);
    } else if too_wide(s, lo, hi, tf) {
        let c = window_count(s, lo, hi, field);
        if cmp_holds(op, c, num) {
            let next = if hi > lo {
                min(hi, n)
            } else {
                lo + 1
            };
            lemma_sweep_disjoint_from(s, field, op, num, tf, next, next + w - 1);
            let rest = sweep(s, field, op, num, tf, next, next + w - 1);
            assert(all == seq![(lo, min(hi, n), c)] + rest);
            assert forall|i: int| 0 <= i < all.len() implies lo <= (#[trigger] all[i]).0 <= all[i].1 by {
                if i > 0 {
                    assert(all[i] == rest[i - 1]);
                }
            }
            assert forall|i: int| 0 <= i < all.len() - 1 implies (#[trigger] all[i]).1 <= all[i + 1].0 by {
                assert(all[i + 1] == rest[i]);
                if i > 0 {
                    assert(all[i] == rest[i - 1]);
                }
            }
        } else {
            lemma_sweep_disjoint_from(s, field, op, num, tf, lo + 1, lo + w);
            assert(all == sweep(s, field, op, num, tf, lo + 1, lo + w));
        }
    } else {
        lemma_sweep_disjoint_from(s, field, op, num, tf, lo, hi + 1);
        assert(all == sweep(s, field, op, num, tf, lo, hi + 1));
    }
}

/// The windows found with a timeframe never overlap: each one ends
/// before or where the next one starts, so an observation counts towards
/// one reported window at most.
pub proof fn lemma_windows_disjoint(
    s: Seq<AggRecordTimeInfo>,
    field: bool,
    op: AggregationConditionToken,
    num: int,
    tf: int,
)
    ensures
        forall|i: int|
            0 <= i < agg_windows(s, field, op, num, Some(tf)).len() - 1 ==> (#[trigger] agg_windows(
                s,
                field,
                op,
                num,
                Some(tf),
            )[i]).1 <= agg_windows(s, field, op, num, Some(tf))[i + 1].0,
{
    lemma_sweep_disjoint_from(s, field, op, num, tf, 0, window_width(num, s.len() as int) - 1);
}

} // verus!
