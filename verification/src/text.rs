//! Character-level text utilities shared by the stores and the planner:
//! decimal rendering and parsing, whitespace trimming, splitting and joining.

use vstd::prelude::*;

verus! {

/// Appends one character to a string.
///
/// Trusted: calls `String::push`, which the standard library documents as
/// appending the given `char` to the end of the string.
#[verifier::external_body]
pub(crate) fn push_char(s: &mut String, c: char)
    ensures
        final(s)@ == old(s)@.push(c),
{
    s.push(c);
}

/// The characters of a string slice, in order.
pub fn chars_of(s: &str) -> (v: Vec<char>)
    ensures
        v@ == s@,
{
    let mut v: Vec<char> = Vec::new();
    for c in it: s.chars()
        invariant
            v@ == it.seq().take(it.index() as int),
            it.seq() == s@,
    {
        v.push(c);
    }
    v
}

/// Builds a string from a run of characters.
pub fn string_from_chars(cs: &[char], from: usize, to: usize) -> (s: String)
    requires
        from <= to <= cs@.len(),
    ensures
        s@ == cs@.subrange(from as int, to as int),
{
    let mut s = String::new();
    let mut i = from;
    while i < to
        invariant
            from <= i <= to <= cs@.len(),
            s@ == cs@.subrange(from as int, i as int),
        decreases to - i,
    {
        push_char(&mut s, cs[i]);
        i = i + 1;
    }
    s
}


/// The value of a decimal digit character.
pub open spec fn digit_value(c: char) -> nat {
    (c as int - '0' as int) as nat
}

/// Whether a character is an ASCII decimal digit.
pub open spec fn is_digit(c: char) -> bool {
    '0' <= c && c <= '9'
}

/// The digit character for a value below ten.
pub open spec fn digit_char(d: nat) -> char {
    ((d + '0' as int) as u32) as char
}

/// The decimal representation of `n`, without leading zeros (`"0"` for zero).
pub open spec fn decimal(n: nat) -> Seq<char>
    decreases n,
{
    if n < 10 {
        seq![digit_char(n)]
    } else {
        decimal(n / 10).push(digit_char(n % 10))
    }
}

/// The number that a run of decimal digits denotes.
pub open spec fn digits_value(s: Seq<char>) -> nat
    decreases s.len(),
{
    if s.len() == 0 {
        0
    } else {
        digits_value(s.drop_last()) * 10 + digit_value(s.last())
    }
}

/// Whether every character is a decimal digit.
pub open spec fn all_digits(s: Seq<char>) -> bool {
    forall|i: int| 0 <= i < s.len() ==> is_digit(#[trigger] s[i])
}

/// How `str::parse::<u32>` reads a string: an optional `+`, then one or more
/// decimal digits whose value fits in a `u32`.
pub open spec fn spec_parse_u32(s: Seq<char>) -> Option<u32> {
    let d = if s.len() > 0 && s[0] == '+' { s.drop_first() } else { s };
    if d.len() > 0 && all_digits(d) && digits_value(d) <= u32::MAX {
        Some(digits_value(d) as u32)
    } else {
        None
    }
}

/// How `str::parse::<i32>` reads a string: an optional `+` or `-`, then one
/// or more decimal digits whose signed value fits in an `i32`.
pub open spec fn spec_parse_i32(s: Seq<char>) -> Option<i32> {
    let negative = s.len() > 0 && s[0] == '-';
    let d = if s.len() > 0 && (s[0] == '+' || s[0] == '-') { s.drop_first() } else { s };
    let v: int = if negative { -digits_value(d) } else { digits_value(d) as int };
    if d.len() > 0 && all_digits(d) && i32::MIN <= v <= i32::MAX {
        Some(v as i32)
    } else {
        None
    }
}

proof fn lemma_digit_char(d: nat)
    requires
        d < 10,
    ensures
        is_digit(digit_char(d)),
        digit_value(digit_char(d)) == d,
{
}

/// Reading back the decimal representation of `n` gives `n`.
pub proof fn lemma_decimal_digits(n: nat)
    ensures
        decimal(n).len() > 0,
        all_digits(decimal(n)),
        digits_value(decimal(n)) == n,
        n < 10 ==> decimal(n).len() == 1,
        10 <= n < 100 ==> decimal(n).len() == 2,
        100 <= n < 1000 ==> decimal(n).len() == 3,
        1000 <= n < 10000 ==> decimal(n).len() == 4,
        10000 <= n ==> decimal(n).len() >= 5,
    decreases n,
{
    if n < 10 {
        lemma_digit_char(n);
        assert(decimal(n).drop_last() =~= Seq::<char>::empty());
        assert(digits_value(Seq::<char>::empty()) == 0);
    } else {
        lemma_decimal_digits(n / 10);
        lemma_digit_char(n % 10);
        let d = decimal(n);
        assert(d.drop_last() =~= decimal(n / 10));
        assert(d.last() == digit_char(n % 10));
        assert(n == (n / 10) * 10 + n % 10);
        assert(digits_value(d) == digits_value(decimal(n / 10)) * 10 + digit_value(d.last()));
        assert forall|i: int| 0 <= i < d.len() implies is_digit(#[trigger] d[i]) by {
            if i < d.len() - 1 {
                assert(d[i] == decimal(n / 10)[i]);
            }
        }
    }
}

/// Adding digits never lowers the value of a digit run.
proof fn lemma_digits_value_grows(s: Seq<char>, t: Seq<char>)
    ensures
        digits_value(s + t) >= digits_value(s),
    decreases t.len(),
{
    if t.len() > 0 {
        assert((s + t).drop_last() =~= s + t.drop_last());
        lemma_digits_value_grows(s, t.drop_last());
    }
}

/// Appends the decimal representation of `n` to `s`.
fn push_decimal(s: &mut String, n: u64)
    ensures
        final(s)@ == old(s)@ + decimal(n as nat),
    decreases n,
{
    if n >= 10 {
        push_decimal(s, n / 10);
    }
    push_char(s, char_of_digit((n % 10) as u8));
    proof {
        if n >= 10 {
            assert(decimal(n as nat) == decimal((n / 10) as nat).push(digit_char((n % 10) as nat)));
        }
    }
}

/// The decimal representation of an unsigned number.
pub fn u64_to_decimal(n: u64) -> (s: String)
    ensures
        s@ == decimal(n as nat),
{
    let mut s = String::new();
    push_decimal(&mut s, n);
    assert(s@ =~= decimal(n as nat));
    s
}

/// The character of a decimal digit.
fn char_of_digit(d: u8) -> (c: char)
    requires
        d < 10,
    ensures
        c == digit_char(d as nat),
{
    match d {
        0 => '0',
        1 => '1',
        2 => '2',
        3 => '3',
        4 => '4',
        5 => '5',
        6 => '6',
        7 => '7',
        8 => '8',
        _ => '9',
    }
}


/// The character view of each string of a sequence.
pub open spec fn views(v: Seq<String>) -> Seq<Seq<char>> {
    v.map_values(|x: String| x@)
}

/// The value of the digit run `cs[from..to]`, when it is a non-empty run of
/// decimal digits whose value fits in a `u32`.
fn parse_digit_run(cs: &Vec<char>, from: usize, to: usize) -> (r: Option<u32>)
    requires
        from <= to <= cs@.len(),
    ensures
        ({
            let d = cs@.subrange(from as int, to as int);
            r == (if d.len() > 0 && all_digits(d) && digits_value(d) <= u32::MAX {
                Some(digits_value(d) as u32)
            } else {
                None
            })
        }),
{
    if from == to {
        return None;
    }
    let ghost full = cs@.subrange(from as int, to as int);
    let mut acc: u64 = 0;
    let mut i = from;
    while i < to
        invariant
            from <= i <= to <= cs@.len(),
            full == cs@.subrange(from as int, to as int),
            all_digits(cs@.subrange(from as int, i as int)),
            acc as nat == digits_value(cs@.subrange(from as int, i as int)),
            acc <= u32::MAX,
        decreases to - i,
    {
        let c = cs[i];
        let ghost pre = cs@.subrange(from as int, i as int);
        let ghost next = cs@.subrange(from as int, i + 1);
        assert(next.drop_last() =~= pre);
        assert(full =~= next + cs@.subrange(i + 1, to as int));
        if !('0' <= c && c <= '9') {
            assert(!is_digit(full[i - from]));
            return None;
        }
        let d = (c as u32 - '0' as u32) as u64;
        acc = acc * 10 + d;
        proof {
            lemma_digits_value_grows(next, cs@.subrange(i + 1, to as int));
        }
        if acc > u32::MAX as u64 {
            return None;
        }
        i = i + 1;
        assert(all_digits(cs@.subrange(from as int, i as int))) by {
            assert forall|j: int| 0 <= j < next.len() implies is_digit(#[trigger] next[j]) by {
                if j < pre.len() {
                    assert(next[j] == pre[j]);
                }
            }
        }
    }
    assert(full =~= cs@.subrange(from as int, i as int));
    Some(acc as u32)
}

/// Reads a string as `str::parse::<u32>` does.
pub fn parse_u32(s: &str) -> (r: Option<u32>)
    ensures
        r == spec_parse_u32(s@),
{
    let cs = chars_of(s);
    let n = cs.len();
    if n > 0 && cs[0] == '+' {
        assert(cs@.subrange(1, n as int) =~= s@.drop_first());
        parse_digit_run(&cs, 1, n)
    } else {
        assert(cs@.subrange(0, n as int) =~= s@);
        parse_digit_run(&cs, 0, n)
    }
}

/// Reads a string as `str::parse::<i32>` does.
pub fn parse_i32(s: &str) -> (r: Option<i32>)
    ensures
        r == spec_parse_i32(s@),
{
    let cs = chars_of(s);
    let n = cs.len();
    let negative = n > 0 && cs[0] == '-';
    let start: usize = if n > 0 && (cs[0] == '+' || cs[0] == '-') { 1 } else { 0 };
    let ghost d = if s@.len() > 0 && (s@[0] == '+' || s@[0] == '-') { s@.drop_first() } else { s@ };
    assert(cs@.subrange(start as int, n as int) =~= d);
    match parse_digit_run(&cs, start, n) {
        None => {
            None
        },
        Some(v) => {
            if negative {
                if v <= 2147483648 {
                    let r: i64 = 0 - (v as i64);
                    Some(r as i32)
                } else {
                    None
                }
            } else {
                if v <= 2147483647 {
                    Some(v as i32)
                } else {
                    None
                }
            }
        },
    }
}


/// Whether `char::is_whitespace` holds: the Unicode `White_Space` characters.
pub open spec fn is_whitespace(c: char) -> bool {
    ||| ('\t' <= c && c <= '\r')
    ||| c == ' '
    ||| c == '\u{85}'
    ||| c == '\u{a0}'
    ||| c == '\u{1680}'
    ||| ('\u{2000}' <= c && c <= '\u{200a}')
    ||| c == '\u{2028}'
    ||| c == '\u{2029}'
    ||| c == '\u{202f}'
    ||| c == '\u{205f}'
    ||| c == '\u{3000}'
}

/// Whether a character is whitespace in the sense of `char::is_whitespace`.
pub fn char_is_whitespace(c: char) -> (b: bool)
    ensures
        b == is_whitespace(c),
{
    ('\t' <= c && c <= '\r') || c == ' ' || c == '\u{85}' || c == '\u{a0}' || c == '\u{1680}'
        || ('\u{2000}' <= c && c <= '\u{200a}') || c == '\u{2028}' || c == '\u{2029}'
        || c == '\u{202f}' || c == '\u{205f}' || c == '\u{3000}'
}

/// The number of whitespace characters that open `s`.
pub open spec fn leading_whitespace(s: Seq<char>) -> nat
    decreases s.len(),
{
    if s.len() > 0 && is_whitespace(s[0]) {
        1 + leading_whitespace(s.drop_first())
    } else {
        0
    }
}

/// The number of whitespace characters that close `s`.
pub open spec fn trailing_whitespace(s: Seq<char>) -> nat
    decreases s.len(),
{
    if s.len() > 0 && is_whitespace(s.last()) {
        1 + trailing_whitespace(s.drop_last())
    } else {
        0
    }
}

/// `s` without its leading and trailing whitespace, as `str::trim` gives it.
pub open spec fn trim(s: Seq<char>) -> Seq<char> {
    let start = leading_whitespace(s);
    if start == s.len() {
        Seq::empty()
    } else {
        s.subrange(start as int, s.len() - trailing_whitespace(s))
    }
}

proof fn lemma_leading_whitespace(s: Seq<char>, i: int)
    requires
        0 <= i <= s.len(),
        forall|j: int| 0 <= j < i ==> is_whitespace(#[trigger] s[j]),
        i == s.len() || !is_whitespace(s[i]),
    ensures
        leading_whitespace(s) == i,
    decreases i,
{
    if i > 0 {
        assert(is_whitespace(s[0]));
        let t = s.drop_first();
        assert forall|j: int| 0 <= j < i - 1 implies is_whitespace(#[trigger] t[j]) by {
            assert(t[j] == s[j + 1]);
        }
        lemma_leading_whitespace(t, i - 1);
    }
}

proof fn lemma_trailing_whitespace(s: Seq<char>, i: int)
    requires
        0 <= i <= s.len(),
        forall|j: int| i <= j < s.len() ==> is_whitespace(#[trigger] s[j]),
        i == 0 || !is_whitespace(s[i - 1]),
    ensures
        trailing_whitespace(s) == s.len() - i,
    decreases s.len() - i,
{
    if i < s.len() {
        assert(is_whitespace(s[s.len() - 1]));
        let t = s.drop_last();
        assert forall|j: int| i <= j < t.len() implies is_whitespace(#[trigger] t[j]) by {
            assert(t[j] == s[j]);
        }
        lemma_trailing_whitespace(t, i);
    }
}

/// The string without leading and trailing whitespace (`str::trim`).
pub fn trim_whitespace(s: &str) -> (r: String)
    ensures
        r@ == trim(s@),
{
    let cs = chars_of(s);
    let n = cs.len();
    let mut start: usize = 0;
    while start < n && char_is_whitespace(cs[start])
        invariant
            start <= n == cs@.len(),
            forall|j: int| 0 <= j < start ==> is_whitespace(#[trigger] cs@[j]),
        decreases n - start,
    {
        start = start + 1;
    }
    proof {
        lemma_leading_whitespace(cs@, start as int);
    }
    if start == n {
        return String::new();
    }
    let mut end: usize = n;
    while end > start && char_is_whitespace(cs[end - 1])
        invariant
            start < n == cs@.len(),
            !is_whitespace(cs@[start as int]),
            start <= end <= n,
            forall|j: int| end <= j < n ==> is_whitespace(#[trigger] cs@[j]),
        decreases end,
    {
        end = end - 1;
    }
    proof {
        lemma_trailing_whitespace(cs@, end as int);
    }
    string_from_chars(cs.as_slice(), start, end)
}

/// The position of the first occurrence of `c` in `s`.
pub open spec fn find_char(s: Seq<char>, c: char) -> Option<int>
    decreases s.len(),
{
    if s.len() == 0 {
        None
    } else if s[0] == c {
        Some(0)
    } else {
        match find_char(s.drop_first(), c) {
            Some(i) => Some(i + 1),
            None => None,
        }
    }
}

/// `find_char` gives the least position holding `c`, or `None` when there is none.
pub proof fn lemma_find_char(s: Seq<char>, c: char)
    ensures
        match find_char(s, c) {
            Some(i) => 0 <= i < s.len() && s[i] == c && forall|j: int| 0 <= j < i ==> s[j] != c,
            None => forall|j: int| 0 <= j < s.len() ==> s[j] != c,
        },
    decreases s.len(),
{
    if s.len() > 0 && s[0] != c {
        let t = s.drop_first();
        lemma_find_char(t, c);
        match find_char(t, c) {
            Some(i) => {
                assert forall|j: int| 0 <= j < i + 1 implies s[j] != c by {
                    if j > 0 {
                        assert(s[j] == t[j - 1]);
                    }
                }
            },
            None => {
                assert forall|j: int| 0 <= j < s.len() implies s[j] != c by {
                    if j > 0 {
                        assert(s[j] == t[j - 1]);
                    }
                }
            },
        }
    }
}

/// The converse of `lemma_find_char`: a least position holding `c` is what
/// `find_char` gives.
pub proof fn lemma_find_char_at(s: Seq<char>, c: char, i: int)
    requires
        0 <= i <= s.len(),
        forall|j: int| 0 <= j < i ==> s[j] != c,
        i == s.len() || s[i] == c,
    ensures
        find_char(s, c) == (if i == s.len() { None } else { Some(i) }),
{
    lemma_find_char(s, c);
}

/// The first position at or after `from` in `cs[..to]` that holds `c`.
fn find_in(cs: &Vec<char>, from: usize, to: usize, c: char) -> (r: Option<usize>)
    requires
        from <= to <= cs@.len(),
    ensures
        match find_char(cs@.subrange(from as int, to as int), c) {
            Some(i) => r == Some((from + i) as usize),
            None => r is None,
        },
{
    let ghost t = cs@.subrange(from as int, to as int);
    let mut i = from;
    while i < to
        invariant
            from <= i <= to <= cs@.len(),
            t == cs@.subrange(from as int, to as int),
            forall|j: int| 0 <= j < i - from ==> t[j] != c,
        decreases to - i,
    {
        if cs[i] == c {
            proof {
                lemma_find_char_at(t, c, i - from);
            }
            return Some(i);
        }
        i = i + 1;
    }
    proof {
        lemma_find_char_at(t, c, t.len() as int);
    }
    None
}

/// `s` cut at the first `sep`, as `str::splitn(2, sep)` cuts it into two
/// parts; `None` when `sep` does not occur.
pub open spec fn split_once(s: Seq<char>, sep: char) -> Option<(Seq<char>, Seq<char>)> {
    match find_char(s, sep) {
        Some(i) => Some((s.take(i), s.skip(i + 1))),
        None => None,
    }
}

/// The pieces of `s` between occurrences of `sep`, as `str::split(sep)`
/// yields them: always at least one piece.
pub open spec fn split_all(s: Seq<char>, sep: char) -> Seq<Seq<char>>
    decreases s.len(),
{
    match find_char(s, sep) {
        Some(i) => {
            if 0 <= i < s.len() {
                seq![s.take(i)] + split_all(s.skip(i + 1), sep)
            } else {
                seq![s]
            }
        },
        None => seq![s],
    }
}

/// The parts joined with `sep` between neighbours, as `[String]::join` gives them.
pub open spec fn join(parts: Seq<Seq<char>>, sep: char) -> Seq<char>
    decreases parts.len(),
{
    if parts.len() == 0 {
        Seq::empty()
    } else if parts.len() == 1 {
        parts[0]
    } else {
        parts[0] + seq![sep] + join(parts.drop_first(), sep)
    }
}

/// `s` cut at the first `sep`.
pub fn split_once_at(s: &str, sep: char) -> (r: Option<(String, String)>)
    ensures
        match split_once(s@, sep) {
            Some((a, b)) => r matches Some((x, y)) && x@ == a && y@ == b,
            None => r is None,
        },
{
    let cs = chars_of(s);
    let n = cs.len();
    assert(cs@.subrange(0, n as int) =~= s@);
    proof {
        lemma_find_char(s@, sep);
    }
    match find_in(&cs, 0, n, sep) {
        Some(i) => {
            let a = string_from_chars(cs.as_slice(), 0, i);
            let b = string_from_chars(cs.as_slice(), i + 1, n);
            assert(a@ =~= s@.take(i as int));
            assert(b@ =~= s@.skip(i + 1));
            Some((a, b))
        },
        None => None,
    }
}

/// The pieces of `s` between occurrences of `sep`.
pub fn split_all_at(s: &str, sep: char) -> (r: Vec<String>)
    ensures
        views(r@) == split_all(s@, sep),
{
    let cs = chars_of(s);
    let n = cs.len();
    let mut out: Vec<String> = Vec::new();
    let mut pos: usize = 0;
    assert(cs@.subrange(0, n as int) =~= s@);
    assert(views(out@) =~= Seq::<Seq<char>>::empty());
    loop
        invariant
            pos <= n == cs@.len(),
            cs@ == s@,
            split_all(s@, sep) == views(out@) + split_all(cs@.subrange(pos as int, n as int), sep),
        decreases n - pos,
    {
        let ghost rest = cs@.subrange(pos as int, n as int);
        proof {
            lemma_find_char(rest, sep);
        }
        match find_in(&cs, pos, n, sep) {
            Some(i) => {
                let piece = string_from_chars(cs.as_slice(), pos, i);
                proof {
                    let k = i - pos;
                    assert(rest.take(k) =~= piece@);
                    assert(rest.skip(k + 1) =~= cs@.subrange(i + 1, n as int));
                    assert(views(out@.push(piece)) =~= views(out@) + seq![piece@]);
                }
                out.push(piece);
                pos = i + 1;
            },
            None => {
                let piece = string_from_chars(cs.as_slice(), pos, n);
                proof {
                    assert(views(out@.push(piece)) =~= views(out@) + seq![piece@]);
                }
                out.push(piece);
                return out;
            },
        }
    }
}

/// The strings joined with `sep` between neighbours.
pub fn join_with(parts: &Vec<String>, sep: char) -> (r: String)
    ensures
        r@ == join(views(parts@), sep),
{
    let n = parts.len();
    if n == 0 {
        return String::new();
    }
    let ghost ps = views(parts@);
    // built from the back: `r` holds the join of `parts[i..]`
    let mut i = n - 1;
    let mut r = parts[i].clone();
    assert(ps.subrange(i as int, n as int).len() == 1);
    while i > 0
        invariant
            0 <= i < n == parts@.len(),
            ps == views(parts@),
            r@ == join(ps.subrange(i as int, n as int), sep),
        decreases i,
    {
        i = i - 1;
        let mut front = parts[i].clone();
        push_char(&mut front, sep);
        append_str(&mut front, r.as_str());
        proof {
            let sub = ps.subrange(i as int, n as int);
            assert(sub.drop_first() =~= ps.subrange(i + 1, n as int));
            assert(sub[0] == parts@[i as int]@);
        }
        r = front;
    }
    assert(ps.subrange(0, n as int) =~= ps);
    r
}

/// Appends a string slice to a string.
///
/// Trusted: calls `String::push_str`, which the standard library documents as
/// appending the given slice to the end of the string.
#[verifier::external_body]
pub(crate) fn append_str(s: &mut String, t: &str)
    ensures
        final(s)@ == old(s)@ + t@,
{
    s.push_str(t);
}


/// A line without the carriage return that may close it.
pub open spec fn strip_cr(l: Seq<char>) -> Seq<char> {
    if l.len() > 0 && l.last() == '\r' {
        l.drop_last()
    } else {
        l
    }
}

/// The lines of a text as `BufRead::lines` yields them: split at `'\n'`, a
/// `'\r'` before a `'\n'` dropped, and no empty line after a final `'\n'`.
pub open spec fn lines(s: Seq<char>) -> Seq<Seq<char>>
    decreases s.len(),
{
    if s.len() == 0 {
        Seq::empty()
    } else {
        match find_char(s, '\n') {
            Some(i) => {
                if 0 <= i < s.len() {
                    seq![strip_cr(s.take(i))] + lines(s.skip(i + 1))
                } else {
                    seq![s]
                }
            },
            None => seq![s],
        }
    }
}

/// Each line followed by a `'\n'`, as `writeln!` writes them one after another.
pub open spec fn terminated(ls: Seq<Seq<char>>) -> Seq<char>
    decreases ls.len(),
{
    if ls.len() == 0 {
        Seq::empty()
    } else {
        ls[0] + seq!['\n'] + terminated(ls.drop_first())
    }
}

/// The lines of a text.
pub fn text_lines(text: &str) -> (r: Vec<String>)
    ensures
        views(r@) == lines(text@),
{
    let cs = chars_of(text);
    let n = cs.len();
    let mut out: Vec<String> = Vec::new();
    let mut pos: usize = 0;
    assert(cs@.subrange(0, n as int) =~= text@);
    assert(views(out@) =~= Seq::<Seq<char>>::empty());
    while pos < n
        invariant
            pos <= n == cs@.len(),
            cs@ == text@,
            lines(text@) == views(out@) + lines(cs@.subrange(pos as int, n as int)),
        decreases n - pos,
    {
        let ghost rest = cs@.subrange(pos as int, n as int);
        proof {
            lemma_find_char(rest, '\n');
        }
        match find_in(&cs, pos, n, '\n') {
            Some(i) => {
                let end = if i > pos && cs[i - 1] == '\r' { i - 1 } else { i };
                let line = string_from_chars(cs.as_slice(), pos, end);
                proof {
                    let k = i - pos;
                    assert(strip_cr(rest.take(k)) =~= line@);
                    assert(rest.skip(k + 1) =~= cs@.subrange(i + 1, n as int));
                    assert(views(out@.push(line)) =~= views(out@) + seq![line@]);
                }
                out.push(line);
                pos = i + 1;
            },
            None => {
                let line = string_from_chars(cs.as_slice(), pos, n);
                proof {
                    assert(views(out@.push(line)) =~= views(out@) + seq![line@]);
                    assert(lines(cs@.subrange(n as int, n as int)) =~= Seq::<Seq<char>>::empty());
                }
                out.push(line);
                pos = n;
            },
        }
    }
    assert(lines(cs@.subrange(n as int, n as int)) =~= Seq::<Seq<char>>::empty());
    assert(views(out@) + Seq::<Seq<char>>::empty() =~= views(out@));
    out
}

/// Whether `c` occurs in `s`.
pub open spec fn has_char(s: Seq<char>, c: char) -> bool {
    exists|i: int| 0 <= i < s.len() && s[i] == c
}

/// Cutting `a + [sep] + b` at its first `sep` gives back `a` and `b` when `a`
/// holds no `sep`.
pub proof fn lemma_split_once_joined(a: Seq<char>, b: Seq<char>, sep: char)
    requires
        !has_char(a, sep),
    ensures
        find_char(a + seq![sep] + b, sep) == Some(a.len() as int),
        split_once(a + seq![sep] + b, sep) == Some((a, b)),
{
    let s = a + seq![sep] + b;
    assert(s[a.len() as int] == sep);
    assert forall|j: int| 0 <= j < a.len() implies s[j] != sep by {
        assert(s[j] == a[j]);
    }
    lemma_find_char_at(s, sep, a.len() as int);
    assert(s.take(a.len() as int) =~= a);
    assert(s.skip(a.len() as int + 1) =~= b);
}

/// `split_all` undoes `join` on a non-empty list of parts that hold no separator.
pub proof fn lemma_split_join(parts: Seq<Seq<char>>, sep: char)
    requires
        parts.len() > 0,
        forall|i: int| 0 <= i < parts.len() ==> !has_char(#[trigger] parts[i], sep),
    ensures
        split_all(join(parts, sep), sep) == parts,
    decreases parts.len(),
{
    if parts.len() == 1 {
        let p = parts[0];
        assert(!has_char(p, sep));
        lemma_find_char(p, sep);
        if find_char(p, sep) is Some {
            let i = find_char(p, sep)->0;
            assert(p[i] == sep);
        }
        assert(split_all(p, sep) =~= seq![p]);
        assert(parts =~= seq![p]);
    } else {
        let p = parts[0];
        let rest = parts.drop_first();
        assert(!has_char(p, sep));
        assert forall|i: int| 0 <= i < rest.len() implies !has_char(#[trigger] rest[i], sep) by {
            assert(rest[i] == parts[i + 1]);
        }
        lemma_split_join(rest, sep);
        let s = join(parts, sep);
        let t = join(rest, sep);
        assert(s == p + seq![sep] + t);
        lemma_split_once_joined(p, t, sep);
        assert(s.take(p.len() as int) =~= p);
        assert(s.skip(p.len() as int + 1) =~= t);
        assert(split_all(s, sep) =~= seq![p] + split_all(t, sep));
        assert(parts =~= seq![p] + rest);
    }
}

/// Reading back the lines of a terminated text gives the lines, when none of
/// them holds a `'\n'` or ends with a `'\r'`.
pub proof fn lemma_lines_terminated(ls: Seq<Seq<char>>)
    requires
        forall|i: int| 0 <= i < ls.len() ==> !has_char(#[trigger] ls[i], '\n'),
        forall|i: int| 0 <= i < ls.len() ==> strip_cr(#[trigger] ls[i]) == ls[i],
    ensures
        lines(terminated(ls)) == ls,
    decreases ls.len(),
{
    if ls.len() == 0 {
        assert(lines(terminated(ls)) =~= ls);
    } else {
        let l = ls[0];
        let rest = ls.drop_first();
        assert(!has_char(l, '\n'));
        assert(strip_cr(l) == l);
        assert forall|i: int| 0 <= i < rest.len() implies !has_char(#[trigger] rest[i], '\n') && strip_cr(rest[i]) == rest[i] by {
            assert(rest[i] == ls[i + 1]);
        }
        lemma_lines_terminated(rest);
        let s = terminated(ls);
        let t = terminated(rest);
        lemma_split_once_joined(l, t, '\n');
        assert(s =~= l + seq!['\n'] + t);
        assert(s.take(l.len() as int) =~= l);
        assert(s.skip(l.len() as int + 1) =~= t);
        assert(lines(s) =~= seq![l] + lines(t));
        assert(ls =~= seq![l] + rest);
    }
}


/// The plain view of a list of text pairs.
pub open spec fn pairs_view(v: Seq<(String, String)>) -> Seq<(Seq<char>, Seq<char>)> {
    v.map_values(|e: (String, String)| (e.0@, e.1@))
}

/// The length of a text in UTF-8 bytes, as `str::len` reports it.
pub open spec fn byte_len(s: Seq<char>) -> nat {
    (vstd::utf8::encode_utf8(s).len() as usize) as nat
}

} // verus!
