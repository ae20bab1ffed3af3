//! The decisions of the planner's interactive menus: which action a menu
//! choice stands for, which files are schedules, how a typed time is read,
//! and how a typed plan is kept and stored.

use vstd::prelude::*;
use crate::schedule::{clock_text, entry_view, plan_view};
use crate::simple_db::SimpleDB;
use crate::text::{
    all_digits, digit_value, digits_value, has_char, is_digit, is_whitespace, join, leading_whitespace,
    lemma_decimal_digits, lemma_split_join, trailing_whitespace, append_str, byte_len, chars_of, decimal, parse_i32, parse_u32, push_char, spec_parse_i32, spec_parse_u32,
    split_all, split_all_at, string_from_chars, trim, trim_whitespace, u64_to_decimal, views,
};

verus! {

/// The actions of the main menu.
#[derive(Clone, Copy, Debug, PartialEq, Eq, Structural)]
pub enum MenuChoice {
    NewPlan,
    DisplayPlan,
    ActivatePlan,
    RemovePlan,
    Quit,
    Invalid,
}

/// The action of the main menu's entry at `selection`: create, display,
/// activate, remove a schedule, or quit.
pub fn menu_choice(selection: usize) -> (c: MenuChoice)
    ensures
        c == (if selection == 0 {
            MenuChoice::NewPlan
        } else if selection == 1 {
            MenuChoice::DisplayPlan
        } else if selection == 2 {
            MenuChoice::ActivatePlan
        } else if selection == 3 {
            MenuChoice::RemovePlan
        } else if selection == 4 {
            MenuChoice::Quit
        } else {
            MenuChoice::Invalid
        }),
{
    match selection {
        0 => MenuChoice::NewPlan,
        1 => MenuChoice::DisplayPlan,
        2 => MenuChoice::ActivatePlan,
        3 => MenuChoice::RemovePlan,
        4 => MenuChoice::Quit,
        _ => MenuChoice::Invalid,
    }
}

/// The text of the entry that leaves a file menu.
pub open spec fn go_back_text() -> Seq<char> {
    seq!['G', 'o', ' ', 'b', 'a', 'c', 'k']
}

/// Whether a file name has the extension `txt` in the sense of
/// `Path::extension`: it ends with `.txt` and that dot does not open the name.
pub open spec fn is_txt_name(name: Seq<char>) -> bool {
    name.len() > 4 && name.skip(name.len() - 4) == seq!['.', 't', 'x', 't']
}

/// Whether a file name has the extension `txt`.
pub fn is_txt_file(name: &str) -> (b: bool)
    ensures
        b == is_txt_name(name@),
{
    let cs = chars_of(name);
    let n = cs.len();
    if n <= 4 {
        return false;
    }
    let b = cs[n - 4] == '.' && cs[n - 3] == 't' && cs[n - 2] == 'x' && cs[n - 1] == 't';
    proof {
        let tail = name@.skip(n - 4);
        if b {
            assert(tail =~= seq!['.', 't', 'x', 't']);
        } else {
            if tail == seq!['.', 't', 'x', 't'] {
                assert(tail[0] == cs@[n - 4]);
                assert(tail[1] == cs@[n - 3]);
                assert(tail[2] == cs@[n - 2]);
                assert(tail[3] == cs@[n - 1]);
            }
        }
    }
    b
}

/// The entries of a file menu: the `txt` files among `names`, in their
/// order, then the entry that leaves the menu.
pub open spec fn file_menu_entries(names: Seq<Seq<char>>) -> Seq<Seq<char>> {
    names.filter_map(|n: Seq<char>| if is_txt_name(n) { Some(n) } else { None }).push(go_back_text())
}

/// The entries of a file menu built from the names of the files at hand.
pub fn file_menu(names: Vec<String>) -> (r: Vec<String>)
    ensures
        views(r@) == file_menu_entries(views(names@)),
{
    let ghost s = views(names@);
    let ghost f = |n: Seq<char>| if is_txt_name(n) { Some(n) } else { None };
    let mut r: Vec<String> = Vec::new();
    let mut i: usize = 0;
    assert(views(r@) =~= s.take(0).filter_map(f));
    while i < names.len()
        invariant
            i <= names@.len(),
            s == views(names@),
            f == (|n: Seq<char>| if is_txt_name(n) { Some(n) } else { None }),
            views(r@) == s.take(i as int).filter_map(f),
        decreases names.len() - i,
    {
        let ghost pre = s.take(i + 1);
        assert(pre.drop_last() =~= s.take(i as int));
        assert(pre.last() == names@[i as int]@);
        assert(pre.filter_map(f) == (match f(pre.last()) {
            Some(x) => pre.drop_last().filter_map(f) + seq![x],
            None => pre.drop_last().filter_map(f),
        }));
        if is_txt_file(names[i].as_str()) {
            let name = names[i].clone();
            let ghost before = r@;
            r.push(name);
            assert(views(r@) =~= views(before) + seq![name@]);
        }
        i = i + 1;
    }
    assert(s.take(names.len() as int) =~= s);
    let back = go_back();
    let ghost before = r@;
    r.push(back);
    assert(views(r@) =~= views(before).push(go_back_text()));
    r
}

/// The entry that leaves a file menu.
pub fn go_back() -> (r: String)
    ensures
        r@ == go_back_text(),
{
    let mut r = String::new();
    append_str(&mut r, "Go back");
    proof {
        reveal_strlit("Go back");
    }
    assert(r@ =~= go_back_text());
    r
}

/// Whether a menu entry is the one that leaves the menu.
pub fn is_go_back(entry: &str) -> (b: bool)
    ensures
        b == (entry@ == go_back_text()),
{
    let cs = chars_of(entry);
    let b = cs.len() == 7 && cs[0] == 'G' && cs[1] == 'o' && cs[2] == ' ' && cs[3] == 'b' && cs[4] == 'a'
        && cs[5] == 'c' && cs[6] == 'k';
    proof {
        if b {
            assert(entry@ =~= go_back_text());
        } else if entry@ == go_back_text() {
            assert(cs@[0] == go_back_text()[0]);
            assert(cs@[1] == go_back_text()[1]);
            assert(cs@[2] == go_back_text()[2]);
            assert(cs@[3] == go_back_text()[3]);
            assert(cs@[4] == go_back_text()[4]);
            assert(cs@[5] == go_back_text()[5]);
            assert(cs@[6] == go_back_text()[6]);
        }
    }
    b
}

/// The name of the file of a schedule named `name`: the name without
/// surrounding whitespace, then `.txt`.
pub fn schedule_file_name(name: &str) -> (r: String)
    ensures
        r@ == trim(name@) + seq!['.', 't', 'x', 't'],
{
    let mut r = trim_whitespace(name);
    append_str(&mut r, ".txt");
    proof {
        reveal_strlit(".txt");
    }
    assert(r@ =~= trim(name@) + seq!['.', 't', 'x', 't']);
    r
}

/// A timezone offset as typed: whitespace around a whole number of hours.
pub fn parse_timezone(line: &str) -> (r: Option<i32>)
    ensures
        r == spec_parse_i32(trim(line@)),
{
    let t = trim_whitespace(line);
    parse_i32(t.as_str())
}

/// `s` without its `':'` characters (what `replace(":", "")` gives).
pub open spec fn without_colons(s: Seq<char>) -> Seq<char>
    decreases s.len(),
{
    if s.len() == 0 {
        Seq::empty()
    } else if s.last() == ':' {
        without_colons(s.drop_last())
    } else {
        without_colons(s.drop_last()).push(s.last())
    }
}

/// What a line typed at the plan prompt asks for.
#[derive(Clone, Copy, Debug, PartialEq, Eq, Structural)]
pub enum PlanInput {
    /// `q`: save the plan and leave.
    Quit,
    /// A time, read as the number that its digits make once the `':'` are
    /// dropped; `well_formed` tells whether it was typed as `HH:MM`.
    Time { time: u32, well_formed: bool },
    /// Text that does not read as a time.
    Unreadable { well_formed: bool },
}

/// How a line typed at the plan prompt is read: trimmed, `q` quits;
/// otherwise it is `HH:MM`-shaped when it has two parts around one `':'` and
/// five bytes, and it reads as the number of its digits once the `':'` are
/// dropped.
pub open spec fn plan_input(line: Seq<char>) -> PlanInput {
    let sel = trim(line);
    if sel == seq!['q'] {
        PlanInput::Quit
    } else {
        let well_formed = split_all(sel, ':').len() == 2 && byte_len(sel) == 5;
        match spec_parse_u32(without_colons(sel)) {
            Some(t) => PlanInput::Time { time: t, well_formed },
            None => PlanInput::Unreadable { well_formed },
        }
    }
}

/// Reads a line typed at the plan prompt.
pub fn read_plan_input(line: &str) -> (r: PlanInput)
    ensures
        r == plan_input(line@),
{
    let sel = trim_whitespace(line);
    let cs = chars_of(sel.as_str());
    if cs.len() == 1 && cs[0] == 'q' {
        assert(sel@ =~= seq!['q']);
        return PlanInput::Quit;
    }
    assert(sel@ != seq!['q']) by {
        if sel@ == seq!['q'] {
            assert(cs@[0] == 'q');
        }
    }
    let parts = split_all_at(sel.as_str(), ':');
    let well_formed = parts.len() == 2 && sel.as_str().len() == 5;
    let mut digits = String::new();
    let mut i: usize = 0;
    while i < cs.len()
        invariant
            i <= cs@.len(),
            cs@ == sel@,
            digits@ == without_colons(cs@.take(i as int)),
        decreases cs.len() - i,
    {
        assert(cs@.take(i + 1).drop_last() =~= cs@.take(i as int));
        assert(cs@.take(i + 1).last() == cs@[i as int]);
        if cs[i] != ':' {
            push_char(&mut digits, cs[i]);
        }
        i = i + 1;
    }
    assert(cs@.take(cs.len() as int) =~= cs@);
    match parse_u32(digits.as_str()) {
        Some(t) => PlanInput::Time { time: t, well_formed },
        None => PlanInput::Unreadable { well_formed },
    }
}

/// The position of the first entry of a plan at time `t`.
pub open spec fn first_at_time(p: Seq<(u32, Seq<char>)>, t: u32) -> Option<int>
    decreases p.len(),
{
    if p.len() == 0 {
        None
    } else if p[0].0 == t {
        Some(0)
    } else {
        match first_at_time(p.drop_first(), t) {
            Some(i) => Some(i + 1),
            None => None,
        }
    }
}

proof fn lemma_first_at_time(p: Seq<(u32, Seq<char>)>, t: u32, i: int)
    requires
        0 <= i <= p.len(),
        forall|j: int| 0 <= j < i ==> #[trigger] p[j].0 != t,
        i == p.len() || p[i].0 == t,
    ensures
        first_at_time(p, t) == (if i == p.len() { None } else { Some(i) }),
    decreases i,
{
    if i > 0 {
        let q = p.drop_first();
        assert forall|j: int| 0 <= j < i - 1 implies #[trigger] q[j].0 != t by {
            assert(q[j] == p[j + 1]);
        }
        if i < p.len() {
            assert(q[i - 1] == p[i]);
        }
        lemma_first_at_time(q, t, i - 1);
    }
}

/// Records `activity` at `time` in a plan being typed: the first entry at
/// that time takes the new activity; with no such entry, the pair goes last.
pub fn upsert_activity(plan: &mut Vec<(u32, String)>, time: u32, activity: String)
    ensures
        plan_view(final(plan)@) == match first_at_time(plan_view(old(plan)@), time) {
            Some(i) => plan_view(old(plan)@).update(i, (time, activity@)),
            None => plan_view(old(plan)@).push((time, activity@)),
        },
{
    let ghost p = plan_view(plan@);
    let n = plan.len();
    let mut i: usize = 0;
    while i < n
        invariant
            i <= n == plan@.len(),
            p == plan_view(plan@),
            p == plan_view(old(plan)@),
            forall|j: int| 0 <= j < i ==> #[trigger] p[j].0 != time,
        decreases n - i,
    {
        assert(p[i as int] == entry_view(plan@[i as int]));
        if plan[i].0 == time {
            proof {
                lemma_first_at_time(p, time, i as int);
            }
            plan.set(i, (time, activity));
            assert(plan_view(plan@) =~= p.update(i as int, (time, activity@)));
            return;
        }
        i = i + 1;
    }
    proof {
        lemma_first_at_time(p, time, n as int);
    }
    plan.push((time, activity));
    assert(plan_view(plan@) =~= p.push((time, activity@)));
}

/// The store contents after a plan is written into it: each entry in turn
/// sets the key of its time (written in decimal) to its activity.
pub open spec fn stored_plan(m: Map<Seq<char>, Seq<char>>, p: Seq<(u32, Seq<char>)>) -> Map<Seq<char>, Seq<char>>
    decreases p.len(),
{
    if p.len() == 0 {
        m
    } else {
        stored_plan(m, p.drop_last()).insert(decimal(p.last().0 as nat), p.last().1)
    }
}

/// Writes a plan into a schedule store: each entry sets the key of its time
/// to its activity.
pub fn store_plan(database: &mut SimpleDB, tuples_vec: &Vec<(u32, String)>)
    requires
        old(database).wf(),
    ensures
        final(database).wf(),
        final(database).file_name_view() == old(database).file_name_view(),
        final(database).contents() == stored_plan(old(database).contents(), plan_view(tuples_vec@)),
{
    let ghost p = plan_view(tuples_vec@);
    let mut i: usize = 0;
    while i < tuples_vec.len()
        invariant
            i <= tuples_vec@.len(),
            p == plan_view(tuples_vec@),
            database.wf(),
            database.file_name_view() == old(database).file_name_view(),
            database.contents() == stored_plan(old(database).contents(), p.take(i as int)),
        decreases tuples_vec.len() - i,
    {
        assert(p.take(i + 1).drop_last() =~= p.take(i as int));
        assert(p.take(i + 1).last() == entry_view(tuples_vec@[i as int]));
        let key = u64_to_decimal(tuples_vec[i].0 as u64);
        database.insert_into_db(key, tuples_vec[i].1.clone());
        i = i + 1;
    }
    assert(p.take(tuples_vec.len() as int) =~= p);
}


/// A time typed as `HH:MM` (four digits around a `':'`) is read as the time
/// `HHMM` and counts as well formed.
pub proof fn law_typed_clock_reads(a: char, b: char, c: char, d: char)
    requires
        is_digit(a),
        is_digit(b),
        is_digit(c),
        is_digit(d),
    ensures
        plan_input(seq![a, b, ':', c, d]) == (PlanInput::Time {
            time: (100 * (10 * digit_value(a) + digit_value(b)) + 10 * digit_value(c) + digit_value(d)) as u32,
            well_formed: true,
        }),
{
    let line = seq![a, b, ':', c, d];
    // no whitespace around the digits
    assert(!is_whitespace(a) && !is_whitespace(d));
    assert(leading_whitespace(line) == 0);
    assert(line.last() == d);
    assert(trailing_whitespace(line) == 0);
    assert(trim(line) =~= line);
    assert(line != seq!['q']) by {
        assert(line.len() != 1);
    }
    // two parts around the colon
    let x = seq![a, b];
    let y = seq![c, d];
    let parts = seq![x, y];
    assert forall|i: int| 0 <= i < parts.len() implies !has_char(#[trigger] parts[i], ':') by {
        let p = parts[i];
        if has_char(p, ':') {
            let j = choose|j: int| 0 <= j < p.len() && p[j] == ':';
            assert(is_digit(p[j]));
        }
    }
    lemma_split_join(parts, ':');
    assert(parts.drop_first() =~= seq![y]);
    assert(join(seq![y], ':') == y);
    assert(join(parts, ':') =~= line);
    // five bytes
    assert(vstd::utf8::is_ascii_chars(line));
    vstd::utf8::is_ascii_chars_encode_utf8(line);
    assert(byte_len(line) == 5);
    // the digits
    let ds = seq![a, b, c, d];
    reveal_with_fuel(without_colons, 6);
    assert(line.drop_last() =~= seq![a, b, ':', c]);
    assert(seq![a, b, ':', c].drop_last() =~= seq![a, b, ':']);
    assert(seq![a, b, ':'].drop_last() =~= seq![a, b]);
    assert(seq![a, b].drop_last() =~= seq![a]);
    assert(seq![a].drop_last() =~= Seq::<char>::empty());
    assert(without_colons(line) =~= ds);
    reveal_with_fuel(digits_value, 5);
    assert(ds.drop_last() =~= seq![a, b, c]);
    assert(seq![a, b, c].drop_last() =~= seq![a, b]);
    assert(digits_value(ds) == 100 * (10 * digit_value(a) + digit_value(b)) + 10 * digit_value(c) + digit_value(d));
    assert(all_digits(ds));
    assert(is_digit(ds[0]));
}

/// Dropping the `':'` of a concatenation drops them from each part.
proof fn lemma_without_colons_concat(x: Seq<char>, y: Seq<char>)
    ensures
        without_colons(x + y) == without_colons(x) + without_colons(y),
    decreases y.len(),
{
    if y.len() == 0 {
        assert(x + y =~= x);
        assert(without_colons(x) + without_colons(y) =~= without_colons(x));
    } else {
        let yl = y.drop_last();
        lemma_without_colons_concat(x, yl);
        assert((x + y).drop_last() =~= x + yl);
        assert((x + y).last() == y.last());
        if y.last() != ':' {
            assert(without_colons(x) + without_colons(yl).push(y.last()) =~= (without_colons(x)
                + without_colons(yl)).push(y.last()));
        }
    }
}

/// A run of digits has no `':'` to drop.
proof fn lemma_without_colons_digits(s: Seq<char>)
    requires
        all_digits(s),
    ensures
        without_colons(s) == s,
    decreases s.len(),
{
    if s.len() > 0 {
        let sl = s.drop_last();
        assert(all_digits(sl)) by {
            assert forall|i: int| 0 <= i < sl.len() implies is_digit(#[trigger] sl[i]) by {
                assert(sl[i] == s[i]);
            }
        }
        lemma_without_colons_digits(sl);
        assert(is_digit(s[s.len() - 1]));
        assert(sl.push(s.last()) =~= s);
    }
}

/// A leading `'0'` does not change the number that a digit run makes.
proof fn lemma_leading_zero(s: Seq<char>)
    ensures
        digits_value(seq!['0'] + s) == digits_value(s),
    decreases s.len(),
{
    let z = seq!['0'];
    if s.len() == 0 {
        assert(z + s =~= z);
        assert(z.drop_last() =~= Seq::<char>::empty());
        assert(digits_value(z) == digits_value(Seq::<char>::empty()) * 10 + digit_value('0'));
    } else {
        lemma_leading_zero(s.drop_last());
        assert((z + s).drop_last() =~= z + s.drop_last());
        assert((z + s).last() == s.last());
    }
}

/// The parts of a digit run around position `k` are digit runs.
proof fn lemma_digit_parts(d: Seq<char>, k: int)
    requires
        all_digits(d),
        0 <= k <= d.len(),
    ensures
        all_digits(d.take(k)),
        all_digits(d.skip(k)),
        d.take(k) + d.skip(k) == d,
{
    assert forall|i: int| 0 <= i < d.take(k).len() implies is_digit(#[trigger] d.take(k)[i]) by {
        assert(d.take(k)[i] == d[i]);
    }
    assert forall|i: int| 0 <= i < d.skip(k).len() implies is_digit(#[trigger] d.skip(k)[i]) by {
        assert(d.skip(k)[i] == d[i + k]);
    }
    assert(d.take(k) + d.skip(k) =~= d);
}

/// The clock text of a time below ten thousand, read back as the plan prompt
/// reads a typed time, gives the time again: its digits, once the `':'` is
/// dropped, make the number `t`.
pub proof fn law_clock_text_reads_back(t: u32)
    requires
        t < 10000,
    ensures
        spec_parse_u32(without_colons(clock_text(t))) == Some(t),
        plan_input(clock_text(t)) matches PlanInput::Time { time, .. } && time == t,
{
    let n = t as nat;
    let d = decimal(n);
    lemma_decimal_digits(n);
    let c = clock_text(t);
    let colon = seq![':'];
    let z = seq!['0'];
    assert(colon.drop_last() =~= Seq::<char>::empty());
    assert(without_colons(colon) == Seq::<char>::empty()) by {
        reveal_with_fuel(without_colons, 2);
    }
    assert(z.drop_last() =~= Seq::<char>::empty());
    assert(without_colons(z) == z) by {
        reveal_with_fuel(without_colons, 2);
        assert(Seq::<char>::empty().push('0') =~= z);
    }
    lemma_without_colons_digits(d);
    let w = without_colons(c);
    if d.len() == 1 {
        assert(c == z + colon + z + d);
        lemma_without_colons_concat(z + colon + z, d);
        lemma_without_colons_concat(z + colon, z);
        lemma_without_colons_concat(z, colon);
        assert(w =~= z + (z + d));
        lemma_leading_zero(d);
        lemma_leading_zero(z + d);
        assert(all_digits(w)) by {
            assert forall|i: int| 0 <= i < w.len() implies is_digit(#[trigger] w[i]) by {
                if i >= 2 {
                    assert(w[i] == d[i - 2]);
                }
            }
        }
        assert(c[0] == '0' && c.last() == d[0]);
    } else if d.len() == 2 {
        assert(c == z + colon + d);
        lemma_without_colons_concat(z + colon, d);
        lemma_without_colons_concat(z, colon);
        assert(w =~= z + d);
        lemma_leading_zero(d);
        assert(all_digits(w)) by {
            assert forall|i: int| 0 <= i < w.len() implies is_digit(#[trigger] w[i]) by {
                if i >= 1 {
                    assert(w[i] == d[i - 1]);
                }
            }
        }
        assert(c[0] == '0' && c.last() == d[1]);
    } else {
        let k: int = if d.len() == 3 { 1 } else { 2 };
        assert(c == d.take(k) + colon + d.skip(k));
        lemma_digit_parts(d, k);
        lemma_without_colons_digits(d.take(k));
        lemma_without_colons_digits(d.skip(k));
        lemma_without_colons_concat(d.take(k) + colon, d.skip(k));
        lemma_without_colons_concat(d.take(k), colon);
        assert(w =~= d);
        assert(c[0] == d[0] && c.last() == d[d.len() - 1]);
    }
    assert(w.len() > 0 && all_digits(w) && digits_value(w) == n);
    assert(is_digit(w[0]));
    assert(spec_parse_u32(w) == Some(t));
    // the clock text has no whitespace around it and is not `q`
    assert(c.len() >= 4);
    assert(is_digit(c[0]) && is_digit(c.last()));
    assert(!is_whitespace(c[0]) && !is_whitespace(c.last()));
    assert(leading_whitespace(c) == 0);
    assert(trailing_whitespace(c) == 0);
    assert(trim(c) =~= c);
    assert(c != seq!['q']) by {
        assert(c.len() != 1);
    }
}

} // verus!
