//! The time-table logic of the daily planner: plans are lists of
//! `(time, activity)` pairs, where a time is written `HHMM` as a number
//! (`730` for 7:30).

use vstd::prelude::*;
use std::str::FromStr;
use crate::simple_db::SimpleDB;
use crate::text::{
    all_digits, append_str, byte_len, chars_of, decimal, digit_value, digits_value, has_char, is_digit, join,
    lemma_decimal_digits, lemma_split_join, pairs_view, parse_u32, push_char, spec_parse_u32, split_all,
    split_all_at, u64_to_decimal,
};

verus! {

/// A plan entry as a pair of plain values.
pub open spec fn entry_view(e: (u32, String)) -> (u32, Seq<char>) {
    (e.0, e.1@)
}

/// The plain view of a plan.
pub open spec fn plan_view(v: Seq<(u32, String)>) -> Seq<(u32, Seq<char>)> {
    v.map_values(|e: (u32, String)| entry_view(e))
}

/// The order of `String`'s `Ord`: lexicographic by characters, compared by
/// code point (which is also the order of their UTF-8 bytes); a proper
/// prefix comes first.
pub open spec fn chars_lt(a: Seq<char>, b: Seq<char>) -> bool
    decreases a.len(),
{
    if a.len() == 0 {
        b.len() > 0
    } else if b.len() == 0 {
        false
    } else if a[0] != b[0] {
        a[0] < b[0]
    } else {
        chars_lt(a.drop_first(), b.drop_first())
    }
}

/// No text comes before itself.
pub proof fn lemma_chars_lt_irreflexive(a: Seq<char>)
    ensures
        !chars_lt(a, a),
    decreases a.len(),
{
    if a.len() > 0 {
        lemma_chars_lt_irreflexive(a.drop_first());
    }
}

/// Of two texts, at most one comes before the other.
pub proof fn lemma_chars_lt_asymmetric(a: Seq<char>, b: Seq<char>)
    ensures
        chars_lt(a, b) ==> !chars_lt(b, a),
    decreases a.len(),
{
    if a.len() > 0 && b.len() > 0 {
        lemma_chars_lt_asymmetric(a.drop_first(), b.drop_first());
    }
}

/// Of two different texts, one comes before the other.
pub proof fn lemma_chars_lt_total(a: Seq<char>, b: Seq<char>)
    ensures
        a != b ==> chars_lt(a, b) || chars_lt(b, a),
    decreases a.len(),
{
    if a.len() > 0 && b.len() > 0 {
        lemma_chars_lt_total(a.drop_first(), b.drop_first());
        if a[0] == b[0] && a.drop_first() == b.drop_first() {
            assert(a =~= seq![a[0]] + a.drop_first());
            assert(b =~= seq![b[0]] + b.drop_first());
        }
    } else if a.len() == 0 && b.len() == 0 {
        assert(a =~= b);
    }
}

/// `chars_lt` is transitive.
pub proof fn lemma_chars_lt_transitive(a: Seq<char>, b: Seq<char>, c: Seq<char>)
    requires
        chars_lt(a, b),
        chars_lt(b, c),
    ensures
        chars_lt(a, c),
    decreases a.len(),
{
    if a.len() > 0 && b.len() > 0 && c.len() > 0 && a[0] == b[0] && b[0] == c[0] {
        lemma_chars_lt_transitive(a.drop_first(), b.drop_first(), c.drop_first());
    }
}

/// Whether `a` comes before `b` in `String`'s order.
pub fn string_lt(a: &String, b: &String) -> (r: bool)
    ensures
        r == chars_lt(a@, b@),
{
    let x = chars_of(a.as_str());
    let y = chars_of(b.as_str());
    let mut i: usize = 0;
    assert(a@.skip(0) =~= a@);
    assert(b@.skip(0) =~= b@);
    loop
        invariant
            x@ == a@,
            y@ == b@,
            i <= x@.len(),
            i <= y@.len(),
            chars_lt(a@, b@) == chars_lt(a@.skip(i as int), b@.skip(i as int)),
        decreases x@.len() - i,
    {
        let ghost sa = a@.skip(i as int);
        let ghost sb = b@.skip(i as int);
        if i == x.len() {
            return i < y.len();
        }
        if i == y.len() {
            return false;
        }
        assert(sa[0] == x@[i as int] && sb[0] == y@[i as int]);
        if x[i] != y[i] {
            return x[i] < y[i];
        }
        assert(sa.drop_first() =~= a@.skip(i + 1));
        assert(sb.drop_first() =~= b@.skip(i + 1));
        i = i + 1;
    }
}

/// Whether a plan is in activity order.
pub open spec fn sorted_by_activity(s: Seq<(u32, Seq<char>)>) -> bool {
    forall|i: int, j: int| 0 <= i < j < s.len() ==> !chars_lt(#[trigger] s[j].1, #[trigger] s[i].1)
}

/// The entries of a plan with activity `k`, in plan order.
pub open spec fn with_activity(s: Seq<(u32, Seq<char>)>, k: Seq<char>) -> Seq<(u32, Seq<char>)>
    decreases s.len(),
{
    if s.len() == 0 {
        Seq::empty()
    } else {
        let r = with_activity(s.drop_last(), k);
        if s.last().1 == k {
            r.push(s.last())
        } else {
            r
        }
    }
}

/// Whether `r` is `s` sorted by activity with a stable sort: in activity
/// order, and with the entries of each activity in the order that `s` gives
/// them.
pub open spec fn is_stable_sort(r: Seq<(u32, Seq<char>)>, s: Seq<(u32, Seq<char>)>) -> bool {
    &&& sorted_by_activity(r)
    &&& forall|k: Seq<char>| #[trigger] with_activity(r, k) == with_activity(s, k)
}

proof fn lemma_with_activity_add(a: Seq<(u32, Seq<char>)>, b: Seq<(u32, Seq<char>)>, k: Seq<char>)
    ensures
        with_activity(a + b, k) == with_activity(a, k) + with_activity(b, k),
    decreases b.len(),
{
    if b.len() == 0 {
        assert(a + b =~= a);
        assert(with_activity(a, k) + with_activity(b, k) =~= with_activity(a, k));
    } else {
        lemma_with_activity_add(a, b.drop_last(), k);
        assert((a + b).drop_last() =~= a + b.drop_last());
        assert((a + b).last() == b.last());
        if b.last().1 == k {
            assert(with_activity(a, k) + with_activity(b.drop_last(), k).push(b.last()) =~= (with_activity(a, k)
                + with_activity(b.drop_last(), k)).push(b.last()));
        }
    }
}

proof fn lemma_with_activity_none(s: Seq<(u32, Seq<char>)>, k: Seq<char>)
    requires
        forall|j: int| 0 <= j < s.len() ==> #[trigger] s[j].1 != k,
    ensures
        with_activity(s, k) == Seq::<(u32, Seq<char>)>::empty(),
    decreases s.len(),
{
    if s.len() > 0 {
        assert(s.last().1 != k);
        lemma_with_activity_none(s.drop_last(), k);
    }
}

/// Inserting `x` before the first entry that comes after it keeps a stable
/// sort stable.
proof fn lemma_insert_sorted(out: Seq<(u32, Seq<char>)>, p: Seq<(u32, Seq<char>)>, x: (u32, Seq<char>), q: int)
    requires
        is_stable_sort(out, p),
        0 <= q <= out.len(),
        forall|j: int| 0 <= j < q ==> !chars_lt(x.1, #[trigger] out[j].1),
        q < out.len() ==> chars_lt(x.1, out[q].1),
    ensures
        is_stable_sort(out.insert(q, x), p.push(x)),
{
    let r = out.insert(q, x);
    assert forall|i: int, j: int| 0 <= i < j < r.len() implies !chars_lt(#[trigger] r[j].1, #[trigger] r[i].1) by {
        if j < q {
            assert(r[i] == out[i] && r[j] == out[j]);
        } else if j == q {
            assert(r[i] == out[i]);
        } else if i == q {
            assert(r[j] == out[j - 1]);
            if chars_lt(out[j - 1].1, x.1) {
                lemma_chars_lt_transitive(out[j - 1].1, x.1, out[q].1);
                if j - 1 == q {
                    lemma_chars_lt_irreflexive(out[q].1);
                }
            }
        } else if i < q {
            assert(r[i] == out[i] && r[j] == out[j - 1]);
        } else {
            assert(r[i] == out[i - 1] && r[j] == out[j - 1]);
        }
    }
    assert forall|k: Seq<char>| #[trigger] with_activity(r, k) == with_activity(p.push(x), k) by {
        lemma_insert_activity(out, p, x, q, k);
    }
}

proof fn lemma_insert_activity(
    out: Seq<(u32, Seq<char>)>,
    p: Seq<(u32, Seq<char>)>,
    x: (u32, Seq<char>),
    q: int,
    k: Seq<char>,
)
    requires
        is_stable_sort(out, p),
        0 <= q <= out.len(),
        q < out.len() ==> chars_lt(x.1, out[q].1),
    ensures
        with_activity(out.insert(q, x), k) == with_activity(p.push(x), k),
{
    let r = out.insert(q, x);
    let head = out.take(q);
    let tail = out.skip(q);
    let e = Seq::<(u32, Seq<char>)>::empty();
    assert(r =~= head + seq![x] + tail);
    assert(out =~= head + tail);
    lemma_with_activity_add(head + seq![x], tail, k);
    lemma_with_activity_add(head, seq![x], k);
    lemma_with_activity_add(head, tail, k);
    assert(seq![x].drop_last() =~= e);
    assert(with_activity(e, k) == e);
    assert(seq![x].last() == x);
    assert(with_activity(seq![x], k) == (if x.1 == k { e.push(x) } else { e }));
    assert(p.push(x).drop_last() =~= p);
    assert(with_activity(out, k) == with_activity(p, k));
    if k == x.1 {
        assert forall|j: int| 0 <= j < tail.len() implies #[trigger] tail[j].1 != k by {
            assert(tail[j] == out[q + j]);
            lemma_chars_lt_irreflexive(x.1);
            if j > 0 {
                assert(!chars_lt(out[q + j].1, out[q].1));
            }
        }
        lemma_with_activity_none(tail, k);
        assert(with_activity(head, k) + e =~= with_activity(head, k));
        assert(with_activity(head, k) + e.push(x) + e =~= with_activity(head, k).push(x));
    } else {
        assert(with_activity(head, k) + e =~= with_activity(head, k));
    }
}

/// A copy of a plan, stably sorted by activity.
fn stable_sorted(v: &Vec<(u32, String)>) -> (r: Vec<(u32, String)>)
    ensures
        is_stable_sort(plan_view(r@), plan_view(v@)),
{
    let ghost s = plan_view(v@);
    let mut out: Vec<(u32, String)> = Vec::new();
    let mut i: usize = 0;
    assert(s.take(0) =~= Seq::<(u32, Seq<char>)>::empty());
    assert forall|k: Seq<char>| #[trigger] with_activity(plan_view(out@), k) == with_activity(s.take(0), k) by {
        assert(plan_view(out@) =~= Seq::<(u32, Seq<char>)>::empty());
    }
    while i < v.len()
        invariant
            i <= v@.len(),
            s == plan_view(v@),
            is_stable_sort(plan_view(out@), s.take(i as int)),
        decreases v.len() - i,
    {
        let x = (v[i].0, v[i].1.clone());
        let ghost xv = entry_view(x);
        assert(xv == s[i as int]);
        let ghost ov = plan_view(out@);
        let mut q: usize = 0;
        while q < out.len() && !string_lt(&x.1, &out[q].1)
            invariant
                q <= out@.len(),
                ov == plan_view(out@),
                xv == entry_view(x),
                forall|j: int| 0 <= j < q ==> !chars_lt(xv.1, #[trigger] ov[j].1),
            decreases out.len() - q,
        {
            assert(ov[q as int] == entry_view(out@[q as int]));
            q = q + 1;
        }
        proof {
            if q < out@.len() {
                assert(ov[q as int] == entry_view(out@[q as int]));
            }
            lemma_insert_sorted(ov, s.take(i as int), xv, q as int);
            assert(s.take(i + 1) =~= s.take(i as int).push(xv));
        }
        out.insert(q, x);
        assert(plan_view(out@) =~= ov.insert(q as int, xv));
        i = i + 1;
    }
    assert(s.take(v.len() as int) =~= s);
    out
}

/// A copy of a plan.
fn copy_plan(v: &Vec<(u32, String)>) -> (r: Vec<(u32, String)>)
    ensures
        plan_view(r@) == plan_view(v@),
{
    let mut r: Vec<(u32, String)> = Vec::new();
    let mut i: usize = 0;
    while i < v.len()
        invariant
            i <= v@.len(),
            plan_view(r@) == plan_view(v@).take(i as int),
        decreases v.len() - i,
    {
        let e = (v[i].0, v[i].1.clone());
        assert(entry_view(e) == plan_view(v@)[i as int]);
        let ghost before = r@;
        r.push(e);
        assert(plan_view(r@) =~= plan_view(before).push(entry_view(e)));
        assert(plan_view(v@).take(i + 1) =~= plan_view(v@).take(i as int).push(entry_view(e)));
        i = i + 1;
    }
    assert(plan_view(v@).take(v.len() as int) =~= plan_view(v@));
    r
}

/// Sorts a plan by activity, in place and stably (as `sort_by_key` does), and
/// returns a copy of the sorted plan.
pub fn sort_vec(tuples_vec: &mut Vec<(u32, String)>) -> (r: Vec<(u32, String)>)
    ensures
        is_stable_sort(plan_view(final(tuples_vec)@), plan_view(old(tuples_vec)@)),
        plan_view(r@) == plan_view(final(tuples_vec)@),
{
    let sorted = stable_sorted(tuples_vec);
    let copy = copy_plan(&sorted);
    *tuples_vec = sorted;
    copy
}


/// The time after moving `t` by `change` (in `HHMM` units), as the planner
/// computes it: `t as i32 + change`, plus 24 when that is negative, taken
/// back as a `u32`.
pub open spec fn shifted_time(t: u32, change: i32) -> u32 {
    let n: int = (t as i32) + change;
    let m: int = if n < 0 { 24 + n } else { n };
    (m as i32) as u32
}

/// Whether moving `t` by `change` stays inside the range of an `i32`.
pub open spec fn shift_fits(t: u32, change: i32) -> bool {
    i32::MIN <= (t as i32) + change <= i32::MAX
}

/// Moving a time by `change` gives exactly the sum when it is not negative;
/// only a negative sum gets 24 added, and then the result, read back as an
/// `i32`, is that sum plus 24.
pub proof fn law_shift_adds_change(t: u32, change: i32)
    requires
        shift_fits(t, change),
    ensures
        (t as i32) + change >= 0 ==> shifted_time(t, change) == (t as i32) + change,
        (t as i32) + change < 0 ==> (shifted_time(t, change) as i32) == 24 + (t as i32) + change,
{
    let n: int = (t as i32) + change;
    if n < 0 {
        let m: i32 = (24 + n) as i32;
        assert(m == 24 + n);
        assert(((m as u32) as i32) == m) by (bit_vector);
    }
}

/// Moves every time of a plan by `time_change` (in `HHMM` units); a time that
/// falls below zero gets 24 added.
pub fn fix_timezone(time_change: i32, vec: Vec<(u32, String)>) -> (r: Vec<(u32, String)>)
    requires
        forall|i: int| 0 <= i < vec@.len() ==> shift_fits(#[trigger] vec@[i].0, time_change),
    ensures
        r@.len() == vec@.len(),
        forall|i: int|
            0 <= i < vec@.len() ==> #[trigger] r@[i].0 == shifted_time(vec@[i].0, time_change) && r@[i].1@
                == vec@[i].1@,
{
    let mut r: Vec<(u32, String)> = Vec::new();
    let mut i: usize = 0;
    while i < vec.len()
        invariant
            i <= vec@.len(),
            r@.len() == i,
            forall|j: int| 0 <= j < vec@.len() ==> shift_fits(#[trigger] vec@[j].0, time_change),
            forall|j: int|
                0 <= j < i ==> #[trigger] r@[j].0 == shifted_time(vec@[j].0, time_change) && r@[j].1@
                    == vec@[j].1@,
        decreases vec.len() - i,
    {
        let t = vec[i].0;
        assert(shift_fits(vec@[i as int].0, time_change));
        let mut new_time: i32 = t as i32 + time_change;
        if new_time < 0 {
            new_time = 24 + new_time;
        }
        r.push((new_time as u32, vec[i].1.clone()));
        i = i + 1;
    }
    r
}

/// Whether every time of a plan can be moved by `time_change` without
/// leaving the range of an `i32`.
pub fn timezone_shift_fits(time_change: i32, vec: &Vec<(u32, String)>) -> (b: bool)
    ensures
        b == forall|i: int| 0 <= i < vec@.len() ==> shift_fits(#[trigger] vec@[i].0, time_change),
{
    let mut i: usize = 0;
    while i < vec.len()
        invariant
            i <= vec@.len(),
            forall|j: int| 0 <= j < i ==> shift_fits(#[trigger] vec@[j].0, time_change),
        decreases vec.len() - i,
    {
        let n: i64 = vec[i].0 as i32 as i64 + time_change as i64;
        if n < i32::MIN as i64 || n > i32::MAX as i64 {
            assert(!shift_fits(vec@[i as int].0, time_change));
            return false;
        }
        i = i + 1;
    }
    true
}

/// A timezone offset in hours as the planner's `HHMM` shift: the offset
/// times 100, or `None` when that leaves the range of an `i32`.
pub fn timezone_hundreds(offset: i32) -> (r: Option<i32>)
    ensures
        r == (if i32::MIN <= offset * 100 <= i32::MAX { Some((offset * 100) as i32) } else { None }),
{
    if offset < -21474836 || offset > 21474836 {
        None
    } else {
        Some(offset * 100)
    }
}

/// How the planner shows an `HHMM` time: `0:0M`, `0:MM`, `H:MM` or `HH:MM`
/// by the number of digits, and nothing for five digits or more.
pub open spec fn clock_text(t: u32) -> Seq<char> {
    let d = decimal(t as nat);
    if d.len() == 1 {
        seq!['0', ':', '0'] + d
    } else if d.len() == 2 {
        seq!['0', ':'] + d
    } else if d.len() == 3 {
        d.take(1) + seq![':'] + d.skip(1)
    } else if d.len() == 4 {
        d.take(2) + seq![':'] + d.skip(2)
    } else {
        Seq::empty()
    }
}

/// The clock text of an `HHMM` time.
pub fn clock_string(t: u32) -> (r: String)
    ensures
        r@ == clock_text(t),
{
    let digits = u64_to_decimal(t as u64);
    let d = chars_of(digits.as_str());
    let n = d.len();
    let mut r = String::new();
    if n == 1 {
        push_char(&mut r, '0');
        push_char(&mut r, ':');
        push_char(&mut r, '0');
        push_char(&mut r, d[0]);
    } else if n == 2 {
        push_char(&mut r, '0');
        push_char(&mut r, ':');
        push_char(&mut r, d[0]);
        push_char(&mut r, d[1]);
    } else if n == 3 {
        push_char(&mut r, d[0]);
        push_char(&mut r, ':');
        push_char(&mut r, d[1]);
        push_char(&mut r, d[2]);
    } else if n == 4 {
        push_char(&mut r, d[0]);
        push_char(&mut r, d[1]);
        push_char(&mut r, ':');
        push_char(&mut r, d[2]);
        push_char(&mut r, d[3]);
    }
    assert(r@ =~= clock_text(t));
    r
}

/// Turns the times of a plan into clock texts.
pub fn parse_time(vec_to_parse: Vec<(u32, String)>) -> (r: Vec<(String, String)>)
    ensures
        r@.len() == vec_to_parse@.len(),
        forall|i: int|
            0 <= i < r@.len() ==> #[trigger] r@[i].0@ == clock_text(vec_to_parse@[i].0) && r@[i].1@
                == vec_to_parse@[i].1@,
{
    let mut r: Vec<(String, String)> = Vec::new();
    let mut i: usize = 0;
    while i < vec_to_parse.len()
        invariant
            i <= vec_to_parse@.len(),
            r@.len() == i,
            forall|j: int|
                0 <= j < i ==> #[trigger] r@[j].0@ == clock_text(vec_to_parse@[j].0) && r@[j].1@
                    == vec_to_parse@[j].1@,
        decreases vec_to_parse.len() - i,
    {
        let text = clock_string(vec_to_parse[i].0);
        r.push((text, vec_to_parse[i].1.clone()));
        i = i + 1;
    }
    r
}

/// Why a clock text gets no cron expression.
#[derive(Clone, Copy, Debug, PartialEq, Eq, Structural)]
pub enum TimeError {
    /// Not two parts around one `':'`, or the hours or minutes out of range.
    Format,
    /// The hours are not a number.
    Hours,
    /// The minutes are not a number.
    Minutes,
}

/// The cron expression `0 M H * * *`: second 0 of minute `m` of hour `h`, every day.
pub open spec fn daily_cron(m: nat, h: nat) -> Seq<char> {
    seq!['0', ' '] + decimal(m) + seq![' '] + decimal(h) + seq![' ', '*', ' ', '*', ' ', '*']
}

/// The cron expression for a clock text `H:MM`: the text must have exactly
/// two parts around a `':'`, both numbers, the hours below 24 and the minutes
/// below 60.
pub open spec fn cron_for(time: Seq<char>) -> Result<Seq<char>, TimeError> {
    let parts = split_all(time, ':');
    if parts.len() != 2 {
        Err(TimeError::Format)
    } else {
        match spec_parse_u32(parts[0]) {
            None => Err(TimeError::Hours),
            Some(h) => match spec_parse_u32(parts[1]) {
                None => Err(TimeError::Minutes),
                Some(m) => if h < 24 && m < 60 {
                    Ok(daily_cron(m as nat, h as nat))
                } else {
                    Err(TimeError::Format)
                },
            },
        }
    }
}

/// The cron expression for a clock text.
pub fn cron_expression(time: &str) -> (r: Result<String, TimeError>)
    ensures
        match (r, cron_for(time@)) {
            (Ok(e), Ok(f)) => e@ == f,
            (Err(e), Err(f)) => e == f,
            _ => false,
        },
{
    let parts = split_all_at(time, ':');
    if parts.len() != 2 {
        return Err(TimeError::Format);
    }
    assert(parts@[0]@ == split_all(time@, ':')[0]);
    assert(parts@[1]@ == split_all(time@, ':')[1]);
    let hours = match parse_u32(parts[0].as_str()) {
        Some(h) => h,
        None => {
            return Err(TimeError::Hours);
        },
    };
    let minutes = match parse_u32(parts[1].as_str()) {
        Some(m) => m,
        None => {
            return Err(TimeError::Minutes);
        },
    };
    if hours < 24 && minutes < 60 {
        let mut e = String::new();
        push_char(&mut e, '0');
        push_char(&mut e, ' ');
        let m = u64_to_decimal(minutes as u64);
        append_str(&mut e, m.as_str());
        push_char(&mut e, ' ');
        let h = u64_to_decimal(hours as u64);
        append_str(&mut e, h.as_str());
        append_str(&mut e, " * * *");
        proof {
            reveal_strlit(" * * *");
        }
        assert(e@ =~= daily_cron(minutes as nat, hours as nat));
        Ok(e)
    } else {
        Err(TimeError::Format)
    }
}

/// The entry of a cron schedule for a `(clock text, activity)` pair, if the
/// clock text has a cron expression.
pub open spec fn schedule_entry(e: (Seq<char>, Seq<char>)) -> Option<(Seq<char>, Seq<char>)> {
    match cron_for(e.0) {
        Ok(c) => Some((c, e.1)),
        Err(_) => None,
    }
}

/// The `(cron expression, activity)` pairs for the entries whose clock text
/// has a cron expression, in plan order; the other entries are left out.
pub fn make_schedule_expr(vec_to_parse: Vec<(String, String)>) -> (r: Vec<(String, String)>)
    ensures
        pairs_view(r@) == pairs_view(vec_to_parse@).filter_map(|e: (Seq<char>, Seq<char>)| schedule_entry(e)),
{
    let ghost s = pairs_view(vec_to_parse@);
    let ghost f = |e: (Seq<char>, Seq<char>)| schedule_entry(e);
    let mut r: Vec<(String, String)> = Vec::new();
    let mut i: usize = 0;
    assert(pairs_view(r@) =~= s.take(0).filter_map(f));
    while i < vec_to_parse.len()
        invariant
            i <= vec_to_parse@.len(),
            s == pairs_view(vec_to_parse@),
            f == (|e: (Seq<char>, Seq<char>)| schedule_entry(e)),
            pairs_view(r@) == s.take(i as int).filter_map(f),
        decreases vec_to_parse.len() - i,
    {
        let ghost pre = s.take(i + 1);
        assert(pre.drop_last() =~= s.take(i as int));
        assert(pre.last() == (vec_to_parse@[i as int].0@, vec_to_parse@[i as int].1@));
        assert(pre.filter_map(f) == (match f(pre.last()) {
            Some(x) => pre.drop_last().filter_map(f) + seq![x],
            None => pre.drop_last().filter_map(f),
        }));
        match cron_expression(vec_to_parse[i].0.as_str()) {
            Ok(e) => {
                let a = vec_to_parse[i].1.clone();
                let ghost before = r@;
                r.push((e, a));
                assert(pairs_view(r@) =~= pairs_view(before) + seq![(e@, a@)]);
            },
            Err(_) => {},
        }
        i = i + 1;
    }
    assert(s.take(vec_to_parse.len() as int) =~= s);
    r
}


/// Whether every key of a store reads as a time.
pub open spec fn all_times(es: Seq<(Seq<char>, Seq<char>)>) -> bool {
    forall|i: int| 0 <= i < es.len() ==> spec_parse_u32(#[trigger] es[i].0) is Some
}

/// The plan that a store's entries describe: each key read as a time, with
/// its value as the activity.
pub open spec fn times_of(es: Seq<(Seq<char>, Seq<char>)>) -> Seq<(u32, Seq<char>)> {
    es.map_values(|e: (Seq<char>, Seq<char>)| (spec_parse_u32(e.0)->0, e.1))
}

/// Whether every key of a store reads as a time (what `load_vec_from_db`
/// needs).
pub fn keys_are_times(database: &SimpleDB) -> (b: bool)
    ensures
        b == all_times(database.entries()),
{
    let pairs = database.entry_pairs();
    let mut i: usize = 0;
    while i < pairs.len()
        invariant
            i <= pairs@.len(),
            pairs_view(pairs@) == database.entries(),
            forall|j: int| 0 <= j < i ==> spec_parse_u32(#[trigger] database.entries()[j].0) is Some,
        decreases pairs.len() - i,
    {
        assert(database.entries()[i as int].0 == pairs@[i as int].0@);
        if parse_u32(pairs[i].0.as_str()).is_none() {
            return false;
        }
        i = i + 1;
    }
    true
}

/// The plan stored in a schedule store, sorted by activity: each key read as
/// a time, with its value as the activity.
pub fn load_vec_from_db(database: SimpleDB) -> (r: Vec<(u32, String)>)
    requires
        all_times(database.entries()),
    ensures
        is_stable_sort(plan_view(r@), times_of(database.entries())),
{
    let pairs = database.entry_pairs();
    let ghost es = database.entries();
    let mut parsed: Vec<(u32, String)> = Vec::new();
    let mut i: usize = 0;
    while i < pairs.len()
        invariant
            i <= pairs@.len(),
            pairs_view(pairs@) == es,
            all_times(es),
            plan_view(parsed@) == times_of(es).take(i as int),
        decreases pairs.len() - i,
    {
        assert(es[i as int].0 == pairs@[i as int].0@);
        assert(spec_parse_u32(es[i as int].0) is Some);
        let time = match parse_u32(pairs[i].0.as_str()) {
            Some(t) => t,
            None => {
                assert(false);
                return Vec::new();
            },
        };
        let activity = pairs[i].1.clone();
        let ghost before = parsed@;
        parsed.push((time, activity));
        assert(plan_view(parsed@) =~= plan_view(before).push((time, activity@)));
        assert(times_of(es).take(i + 1) =~= times_of(es).take(i as int).push(times_of(es)[i as int]));
        i = i + 1;
    }
    assert(times_of(es).take(pairs.len() as int) =~= times_of(es));
    sort_vec(&mut parsed)
}

/// The widest activity of a list, in UTF-8 bytes (0 for an empty list).
pub open spec fn widest(s: Seq<(Seq<char>, Seq<char>)>) -> nat
    decreases s.len(),
{
    if s.len() == 0 {
        0
    } else {
        let w = widest(s.drop_last());
        if byte_len(s.last().1) > w {
            byte_len(s.last().1)
        } else {
            w
        }
    }
}

/// The shown line of a `(clock text, activity)` pair: the activity padded
/// with spaces to `width` bytes, `" | "`, the clock text and a space.
pub open spec fn schedule_line(e: (Seq<char>, Seq<char>), width: nat) -> Seq<char> {
    e.1 + Seq::new((width - byte_len(e.1)) as nat, |i: int| ' ') + seq![' ', '|', ' '] + e.0 + seq![' ']
}

proof fn lemma_widest(s: Seq<(Seq<char>, Seq<char>)>, i: int)
    requires
        0 <= i < s.len(),
    ensures
        byte_len(s[i].1) <= widest(s),
    decreases s.len(),
{
    if i < s.len() - 1 {
        assert(s.drop_last()[i] == s[i]);
        lemma_widest(s.drop_last(), i);
    }
}

/// The lines that show a timed plan, with the activities padded to one width.
pub fn schedule_lines(parsed_vec: &Vec<(String, String)>) -> (r: Vec<String>)
    ensures
        r@.len() == parsed_vec@.len(),
        forall|i: int|
            0 <= i < r@.len() ==> #[trigger] r@[i]@ == schedule_line(
                pairs_view(parsed_vec@)[i],
                widest(pairs_view(parsed_vec@)),
            ),
{
    let ghost s = pairs_view(parsed_vec@);
    let mut max_len: usize = 0;
    let mut i: usize = 0;
    while i < parsed_vec.len()
        invariant
            i <= parsed_vec@.len(),
            s == pairs_view(parsed_vec@),
            max_len == widest(s.take(i as int)),
        decreases parsed_vec.len() - i,
    {
        assert(s.take(i + 1).drop_last() =~= s.take(i as int));
        assert(s.take(i + 1).last() == s[i as int]);
        let n = parsed_vec[i].1.as_str().len();
        if n > max_len {
            max_len = n;
        }
        i = i + 1;
    }
    assert(s.take(parsed_vec.len() as int) =~= s);
    let mut r: Vec<String> = Vec::new();
    let mut j: usize = 0;
    while j < parsed_vec.len()
        invariant
            j <= parsed_vec@.len(),
            s == pairs_view(parsed_vec@),
            max_len == widest(s),
            r@.len() == j,
            forall|k: int| 0 <= k < j ==> #[trigger] r@[k]@ == schedule_line(s[k], widest(s)),
        decreases parsed_vec.len() - j,
    {
        proof {
            lemma_widest(s, j as int);
        }
        let activity = &parsed_vec[j].1;
        let spaces = max_len - activity.as_str().len();
        let mut line = activity.clone();
        let mut k: usize = 0;
        while k < spaces
            invariant
                k <= spaces,
                line@ == activity@ + Seq::new(k as nat, |q: int| ' '),
            decreases spaces - k,
        {
            push_char(&mut line, ' ');
            assert(line@ =~= activity@ + Seq::new((k + 1) as nat, |q: int| ' '));
            k = k + 1;
        }
        append_str(&mut line, " | ");
        proof {
            reveal_strlit(" | ");
        }
        append_str(&mut line, parsed_vec[j].0.as_str());
        push_char(&mut line, ' ');
        assert(line@ =~= schedule_line(s[j as int], widest(s)));
        r.push(line);
        j = j + 1;
    }
    r
}


/// The `Schedule` type of the `cron` crate: a parsed cron expression.
#[verifier::external_type_specification]
#[verifier::external_body]
pub struct ExSchedule(cron::Schedule);

/// The `Error` type of the `cron` crate.
#[verifier::external_type_specification]
#[verifier::external_body]
pub struct ExCronError(cron::error::Error);

/// What the `cron` crate's parser makes of a text: the schedule it
/// describes, or `None` when it is no cron expression. The parser reads the
/// text alone, so the same text always gives the same schedule.
pub uninterp spec fn cron_parse(expr: Seq<char>) -> Option<cron::Schedule>;

/// Whether the `cron` crate accepts a text as a schedule expression.
pub open spec fn cron_accepts(expr: Seq<char>) -> bool {
    cron_parse(expr) is Some
}

/// Trusted: calls `Schedule::from_str` of the `cron` crate, which parses a
/// cron expression. The contract ties its outcome to the text through the
/// name `cron_parse`: the schedule it gives, or its refusal. It says nothing
/// of the error's content.
#[verifier::external_body]
fn cron_from_str(expr: &str) -> (r: Result<cron::Schedule, cron::error::Error>)
    ensures
        match r {
            Ok(s) => cron_parse(expr@) == Some(s),
            Err(_) => cron_parse(expr@) is None,
        },
{
    cron::Schedule::from_str(expr)
}

/// Why a cron expression gave no schedule.
#[derive(Clone, Copy, Debug, PartialEq, Eq, Structural)]
pub enum ScheduleError {
    /// `cron` does not accept the expression.
    InvalidExpression,
}

/// The schedule of a cron expression.
pub fn parse_schedule(expr: &str) -> (r: Result<cron::Schedule, ScheduleError>)
    ensures
        r is Ok == cron_accepts(expr@),
        match r {
            Ok(s) => cron_parse(expr@) == Some(s),
            Err(e) => e == ScheduleError::InvalidExpression,
        },
{
    match cron_from_str(expr) {
        Ok(s) => Ok(s),
        Err(_) => Err(ScheduleError::InvalidExpression),
    }
}

/// How long to wait before the next notice, given the whole seconds until
/// the next occurrence of its schedule: that long when it is ahead, else not
/// at all.
pub fn wait_seconds(seconds_until_next: i64) -> (r: u64)
    ensures
        r == (if seconds_until_next > 0 { seconds_until_next as int } else { 0 }),
{
    if seconds_until_next > 0 {
        seconds_until_next as u64
    } else {
        0
    }
}


/// A single digit reads as its value.
proof fn lemma_digits_value_one(c: char)
    ensures
        digits_value(seq![c]) == digit_value(c),
{
    let s = seq![c];
    assert(s.drop_last() =~= Seq::<char>::empty());
    assert(digits_value(Seq::<char>::empty()) == 0);
    assert(s.last() == c);
}

/// Splitting off the last two digits of a digit run.
proof fn lemma_digits_value_split(s: Seq<char>)
    requires
        s.len() >= 2,
        all_digits(s),
    ensures
        digits_value(s) == digits_value(s.take(s.len() - 2)) * 100 + digits_value(s.skip(s.len() - 2)),
        digits_value(s.skip(s.len() - 2)) < 100,
{
    let n = s.len() as int;
    let a = s.drop_last();
    let head = s.take(n - 2);
    let tail = s.skip(n - 2);
    assert(a.drop_last() =~= head);
    assert(a.last() == s[n - 2]);
    assert(is_digit(s[n - 2]) && is_digit(s[n - 1]));
    assert(tail.drop_last() =~= seq![s[n - 2]]);
    assert(tail.last() == s[n - 1]);
    lemma_digits_value_one(s[n - 2]);
    assert(digits_value(tail) == digits_value(seq![s[n - 2]]) * 10 + digit_value(s[n - 1]));
    assert(digits_value(s) == digits_value(a) * 10 + digit_value(s[n - 1]));
    assert(digits_value(a) == digits_value(head) * 10 + digit_value(s[n - 2]));
}

/// A digit run that starts with a digit reads as its value.
proof fn lemma_parse_digits(s: Seq<char>)
    requires
        s.len() > 0,
        all_digits(s),
        digits_value(s) <= u32::MAX,
    ensures
        spec_parse_u32(s) == Some(digits_value(s) as u32),
{
    assert(is_digit(s[0]));
}

/// Reading the decimal key of a time gives the time back: a plan stored
/// under decimal keys loads with the same times.
pub proof fn law_time_key_round_trip(t: u32)
    ensures
        spec_parse_u32(decimal(t as nat)) == Some(t),
{
    lemma_decimal_digits(t as nat);
    lemma_parse_digits(decimal(t as nat));
}

/// A clock text made of two digit runs around a `':'` gets the cron
/// expression of their values, when they are in range.
proof fn lemma_cron_for_parts(x: Seq<char>, y: Seq<char>)
    requires
        x.len() > 0,
        y.len() > 0,
        all_digits(x),
        all_digits(y),
        digits_value(x) < 24,
        digits_value(y) < 60,
    ensures
        cron_for(x + seq![':'] + y) == Ok::<Seq<char>, TimeError>(daily_cron(digits_value(y), digits_value(x))),
{
    let parts = seq![x, y];
    assert forall|i: int| 0 <= i < parts.len() implies !has_char(#[trigger] parts[i], ':') by {
        let p = parts[i];
        if has_char(p, ':') {
            let j = choose|j: int| 0 <= j < p.len() && p[j] == ':';
            assert(is_digit(p[j]));
        }
    }
    lemma_split_join(parts, ':');
    assert(parts.drop_first() =~= seq![y]);
    assert(join(seq![y], ':') == y);
    assert(parts[0] == x);
    assert(join(parts, ':') == x + seq![':'] + y);
    lemma_parse_digits(x);
    lemma_parse_digits(y);
}

/// The clock text of a time `HHMM` with the hours below 24 and the minutes
/// below 60 gets the daily cron expression of that hour and minute: every
/// such time of a plan is scheduled.
pub proof fn law_clock_text_schedules(h: nat, m: nat)
    requires
        h < 24,
        m < 60,
    ensures
        cron_for(clock_text((100 * h + m) as u32)) == Ok::<Seq<char>, TimeError>(daily_cron(m, h)),
{
    let t = 100 * h + m;
    let d = decimal(t);
    lemma_decimal_digits(t);
    assert(d == decimal(((100 * h + m) as u32) as nat));
    let zero = seq!['0'];
    lemma_digits_value_one('0');
    assert(digits_value(zero) == 0);
    assert(all_digits(zero));
    if h == 0 {
        if m < 10 {
            let y = seq!['0'] + d;
            assert(y.drop_last() =~= zero);
            assert(y.last() == d[0]);
            assert(d.drop_last() =~= Seq::<char>::empty());
            assert(digits_value(y) == m);
            assert(all_digits(y)) by {
                assert forall|i: int| 0 <= i < y.len() implies is_digit(#[trigger] y[i]) by {
                    if i == 1 {
                        assert(y[1] == d[0]);
                    }
                }
            }
            assert(clock_text(t as u32) =~= zero + seq![':'] + y);
            lemma_cron_for_parts(zero, y);
        } else {
            assert(clock_text(t as u32) =~= zero + seq![':'] + d);
            lemma_cron_for_parts(zero, d);
        }
    } else {
        lemma_digits_value_split(d);
        let n = d.len() as int;
        let x = d.take(n - 2);
        let y = d.skip(n - 2);
        assert(digits_value(d) == t);
        assert(digits_value(x) * 100 + digits_value(y) == 100 * h + m);
        assert(digits_value(x) == h && digits_value(y) == m) by (nonlinear_arith)
            requires
                digits_value(x) * 100 + digits_value(y) == 100 * h + m,
                digits_value(y) < 100,
                m < 60,
        ;
        assert(all_digits(x)) by {
            assert forall|i: int| 0 <= i < x.len() implies is_digit(#[trigger] x[i]) by {
                assert(x[i] == d[i]);
            }
        }
        assert(all_digits(y)) by {
            assert forall|i: int| 0 <= i < y.len() implies is_digit(#[trigger] y[i]) by {
                assert(y[i] == d[i + n - 2]);
            }
        }
        if h < 10 {
            assert(n == 3);
            assert(clock_text(t as u32) =~= x + seq![':'] + y);
        } else {
            assert(n == 4);
            assert(clock_text(t as u32) =~= x + seq![':'] + y);
        }
        lemma_cron_for_parts(x, y);
    }
}


/// Every entry that `with_activity` keeps comes from the plan.
proof fn lemma_with_activity_from(s: Seq<(u32, Seq<char>)>, k: Seq<char>, j: int)
    requires
        0 <= j < with_activity(s, k).len(),
    ensures
        with_activity(s, k)[j].1 == k,
        exists|i: int| 0 <= i < s.len() && s[i] == with_activity(s, k)[j],
    decreases s.len(),
{
    let w = with_activity(s, k);
    let r = with_activity(s.drop_last(), k);
    if s.last().1 == k && j == r.len() {
        assert(w[j] == s.last());
        assert(s[s.len() - 1] == w[j]);
    } else {
        assert(w[j] == r[j]);
        lemma_with_activity_from(s.drop_last(), k, j);
        let i = choose|i: int| 0 <= i < s.drop_last().len() && s.drop_last()[i] == r[j];
        assert(s[i] == w[j]);
    }
}

/// The last entry of a plan is the last one that `with_activity` keeps for
/// its activity.
proof fn lemma_with_activity_last(s: Seq<(u32, Seq<char>)>)
    requires
        s.len() > 0,
    ensures
        with_activity(s, s.last().1).len() > 0,
        with_activity(s, s.last().1).last() == s.last(),
        with_activity(s, s.last().1).drop_last() == with_activity(s.drop_last(), s.last().1),
{
}

/// Two stable sorts of one plan are the same plan: the contract of
/// `sort_vec` leaves no choice of result.
pub proof fn law_stable_sort_unique(r1: Seq<(u32, Seq<char>)>, r2: Seq<(u32, Seq<char>)>, s: Seq<(u32, Seq<char>)>)
    requires
        is_stable_sort(r1, s),
        is_stable_sort(r2, s),
    ensures
        r1 == r2,
{
    lemma_sorted_same_groups(r1, r2);
}

proof fn lemma_sorted_same_groups(r1: Seq<(u32, Seq<char>)>, r2: Seq<(u32, Seq<char>)>)
    requires
        sorted_by_activity(r1),
        sorted_by_activity(r2),
        forall|k: Seq<char>| #[trigger] with_activity(r1, k) == with_activity(r2, k),
    ensures
        r1 == r2,
    decreases r1.len() + r2.len(),
{
    if r1.len() == 0 && r2.len() == 0 {
        assert(r1 =~= r2);
    } else if r1.len() == 0 || r2.len() == 0 {
        let (a, b) = if r1.len() == 0 { (r2, r1) } else { (r1, r2) };
        lemma_with_activity_last(a);
        assert(with_activity(a, a.last().1) == with_activity(b, a.last().1));
        assert(with_activity(b, a.last().1) == Seq::<(u32, Seq<char>)>::empty());
    } else {
        let e = r1.last();
        let f = r2.last();
        let ek = e.1;
        let fk = f.1;
        lemma_with_activity_last(r1);
        lemma_with_activity_last(r2);
        // f comes from r1, so its activity is not after e's
        let wf = with_activity(r1, fk);
        assert(wf == with_activity(r2, fk));
        lemma_with_activity_from(r1, fk, wf.len() - 1);
        let i = choose|i: int| 0 <= i < r1.len() && r1[i] == wf[wf.len() - 1];
        assert(r1[i] == f);
        if i < r1.len() - 1 {
            assert(!chars_lt(r1[r1.len() - 1].1, r1[i].1));
        } else {
            lemma_chars_lt_irreflexive(ek);
        }
        // e comes from r2, so its activity is not after f's
        let we = with_activity(r2, ek);
        assert(we == with_activity(r1, ek));
        lemma_with_activity_from(r2, ek, we.len() - 1);
        let p = choose|p: int| 0 <= p < r2.len() && r2[p] == we[we.len() - 1];
        assert(r2[p] == e);
        if p < r2.len() - 1 {
            assert(!chars_lt(r2[r2.len() - 1].1, r2[p].1));
        } else {
            lemma_chars_lt_irreflexive(fk);
        }
        lemma_chars_lt_total(ek, fk);
        assert(ek == fk);
        assert(e == f);
        let a = r1.drop_last();
        let b = r2.drop_last();
        assert forall|x: int, y: int| 0 <= x < y < a.len() implies !chars_lt(#[trigger] a[y].1, #[trigger] a[x].1) by {
            assert(a[x] == r1[x] && a[y] == r1[y]);
        }
        assert forall|x: int, y: int| 0 <= x < y < b.len() implies !chars_lt(#[trigger] b[y].1, #[trigger] b[x].1) by {
            assert(b[x] == r2[x] && b[y] == r2[y]);
        }
        assert forall|k: Seq<char>| #[trigger] with_activity(a, k) == with_activity(b, k) by {
            assert(with_activity(r1, k) == with_activity(r2, k));
            if k != ek {
                assert(with_activity(r1, k) == with_activity(a, k));
                assert(with_activity(r2, k) == with_activity(b, k));
            }
        }
        lemma_sorted_same_groups(a, b);
        assert(r1 =~= a.push(e));
        assert(r2 =~= b.push(f));
    }
}

/// A plan already in activity order is its own stable sort: sorting it
/// changes nothing.
pub proof fn law_sorted_plan_unchanged(s: Seq<(u32, Seq<char>)>, r: Seq<(u32, Seq<char>)>)
    requires
        sorted_by_activity(s),
        is_stable_sort(r, s),
    ensures
        r == s,
{
    law_stable_sort_unique(r, s, s);
}

} // verus!
