//! `ColonDB`: a table of rows keyed by row id, backed by a file that holds one
//! `key:value,value,...` line per row.
//!
//! The rows are kept in an `IndexMap` of the `indexmap` crate, which keeps
//! them in order; the first row serves as the header that names the columns.
//! Reading and writing the file is left to the caller: `find_database` takes
//! the text that the file held, `file_text` gives the text that it is to hold,
//! and each change reports in its `Outcome` whether the file is to be
//! rewritten.

use vstd::prelude::*;
use indexmap::IndexMap;
use crate::text::{
    append_str, byte_len, has_char, join, join_with, lemma_lines_terminated, lemma_split_join,
    lemma_split_once_joined, lines, push_char, split_all, split_all_at, split_once, split_once_at,
    strip_cr, terminated, text_lines, views,
};
use crate::keyed::{distinct_keys, has_key, key_index, set_entry};

verus! {

/// The `IndexMap` type of the `indexmap` crate: a hash map that keeps its
/// entries in order.
#[verifier::external_type_specification]
#[verifier::external_body]
#[verifier::reject_recursive_types(K)]
#[verifier::reject_recursive_types(V)]
#[verifier::reject_recursive_types(S)]
pub struct ExIndexMap<K, V, S>(IndexMap<K, V, S>);

/// The entries of a table map, in order: each key with its row.
pub uninterp spec fn index_map_entries(m: IndexMap<String, Vec<String>>) -> Seq<(Seq<char>, Seq<Seq<char>>)>;

/// The entries after an `IndexMap::swap_remove`: the last entry takes the
/// place of the removed one.
pub open spec fn swap_remove_key(
    es: Seq<(Seq<char>, Seq<Seq<char>>)>,
    k: Seq<char>,
) -> Seq<(Seq<char>, Seq<Seq<char>>)> {
    if has_key(es, k) {
        es.update(key_index(es, k), es.last()).drop_last()
    } else {
        es
    }
}

/// Trusted: calls `IndexMap::new`, which creates an empty map.
#[verifier::external_body]
fn table_new() -> (m: IndexMap<String, Vec<String>>)
    ensures
        index_map_entries(m) == Seq::<(Seq<char>, Seq<Seq<char>>)>::empty(),
{
    IndexMap::new()
}

/// Trusted: calls `IndexMap::len`, the number of entries.
#[verifier::external_body]
fn table_len(m: &IndexMap<String, Vec<String>>) -> (n: usize)
    ensures
        n == index_map_entries(*m).len(),
{
    m.len()
}

/// Trusted: calls `IndexMap::get_index`, the entry at a position in the
/// map's order, and clones it.
#[verifier::external_body]
fn table_get_index(m: &IndexMap<String, Vec<String>>, i: usize) -> (r: Option<(String, Vec<String>)>)
    ensures
        match r {
            Some((k, row)) => i < index_map_entries(*m).len() && k@ == index_map_entries(*m)[i as int].0
                && views(row@) == index_map_entries(*m)[i as int].1,
            None => i >= index_map_entries(*m).len(),
        },
{
    match m.get_index(i) {
        Some((k, row)) => Some((k.clone(), row.clone())),
        None => None,
    }
}

/// Trusted: calls `IndexMap::get`, the row stored for a key, and clones it.
#[verifier::external_body]
fn table_get(m: &IndexMap<String, Vec<String>>, key: &str) -> (r: Option<Vec<String>>)
    ensures
        match r {
            Some(row) => has_key(index_map_entries(*m), key@) && views(row@) == index_map_entries(*m)[key_index(
                index_map_entries(*m),
                key@,
            )].1,
            None => !has_key(index_map_entries(*m), key@),
        },
{
    m.get(key).cloned()
}

/// Trusted: calls `IndexMap::insert`; a key already present keeps its place
/// and takes the new row, a new key goes last.
#[verifier::external_body]
fn table_insert(m: &mut IndexMap<String, Vec<String>>, key: String, row: Vec<String>)
    ensures
        index_map_entries(*final(m)) == set_entry(index_map_entries(*old(m)), key@, views(row@)),
{
    m.insert(key, row);
}

/// Trusted: calls `IndexMap::swap_remove` (what `IndexMap::remove` does): the
/// entry for the key is removed and the last entry takes its place. Tells
/// whether the key was present.
#[verifier::external_body]
fn table_swap_remove(m: &mut IndexMap<String, Vec<String>>, key: &str) -> (found: bool)
    ensures
        found == has_key(index_map_entries(*old(m)), key@),
        index_map_entries(*final(m)) == swap_remove_key(index_map_entries(*old(m)), key@),
{
    m.swap_remove(key).is_some()
}

/// Why a table operation did nothing, or did less than asked.
#[derive(Clone, Copy, Debug, PartialEq, Eq, Structural)]
pub enum ColonError {
    /// The column is not named in the header.
    ColumnNotFound,
    /// No row has the key.
    KeyNotFound,
    /// The row is too short to hold the column.
    IndexOutOfBounds,
    /// A new row does not have one value per header column.
    LengthMismatch { entry_len: usize, header_len: usize },
}

/// What a table change did: whether the file is to be rewritten, and what
/// went wrong, if anything.
#[derive(Clone, Copy, Debug, PartialEq, Eq, Structural)]
pub struct Outcome {
    pub save: bool,
    pub problem: Option<ColonError>,
}

/// The outcome of a change that went through.
pub open spec fn saved() -> Outcome {
    Outcome { save: true, problem: None }
}

/// The outcome of a change refused for `e`.
pub open spec fn refused(e: ColonError) -> Outcome {
    Outcome { save: false, problem: Some(e) }
}

/// The header: the first row, or no columns when the table is empty.
pub open spec fn header(es: Seq<(Seq<char>, Seq<Seq<char>>)>) -> Seq<Seq<char>> {
    if es.len() > 0 {
        es[0].1
    } else {
        Seq::empty()
    }
}

/// The first position of `x` in `s`.
pub open spec fn position_of(s: Seq<Seq<char>>, x: Seq<char>) -> Option<int>
    decreases s.len(),
{
    if s.len() == 0 {
        None
    } else if s[0] == x {
        Some(0)
    } else {
        match position_of(s.drop_first(), x) {
            Some(i) => Some(i + 1),
            None => None,
        }
    }
}

/// `position_of` gives the least position holding `x`, or `None` when there is none.
pub proof fn lemma_position_of(s: Seq<Seq<char>>, x: Seq<char>)
    ensures
        match position_of(s, x) {
            Some(i) => 0 <= i < s.len() && s[i] == x && forall|j: int| 0 <= j < i ==> s[j] != x,
            None => forall|j: int| 0 <= j < s.len() ==> s[j] != x,
        },
    decreases s.len(),
{
    if s.len() > 0 && s[0] != x {
        let t = s.drop_first();
        lemma_position_of(t, x);
        match position_of(t, x) {
            Some(i) => {
                assert forall|j: int| 0 <= j < i + 1 implies s[j] != x by {
                    if j > 0 {
                        assert(s[j] == t[j - 1]);
                    }
                }
            },
            None => {
                assert forall|j: int| 0 <= j < s.len() implies s[j] != x by {
                    if j > 0 {
                        assert(s[j] == t[j - 1]);
                    }
                }
            },
        }
    }
}

/// The row stored for `k` (meaningful when `has_key(es, k)`).
pub open spec fn row_of(es: Seq<(Seq<char>, Seq<Seq<char>>)>, k: Seq<char>) -> Seq<Seq<char>> {
    es[key_index(es, k)].1
}

/// A row of `n` empty values.
pub open spec fn empty_row(n: nat) -> Seq<Seq<char>> {
    Seq::new(n, |i: int| Seq::<char>::empty())
}

/// Setting one value: the column is looked up in the header; a missing row is
/// first created with one empty value per header column.
pub open spec fn spec_insert_item(
    es: Seq<(Seq<char>, Seq<Seq<char>>)>,
    key: Seq<char>,
    column: Seq<char>,
    value: Seq<char>,
) -> (Seq<(Seq<char>, Seq<Seq<char>>)>, Outcome) {
    match position_of(header(es), column) {
        None => (es, refused(ColonError::ColumnNotFound)),
        Some(idx) => {
            let row = if has_key(es, key) { row_of(es, key) } else { empty_row(header(es).len()) };
            if idx < row.len() {
                (set_entry(es, key, row.update(idx, value)), saved())
            } else {
                (es, Outcome { save: true, problem: Some(ColonError::IndexOutOfBounds) })
            }
        },
    }
}

/// Setting a whole row, which must have one value per header column.
pub open spec fn spec_insert_row(
    es: Seq<(Seq<char>, Seq<Seq<char>>)>,
    key: Seq<char>,
    row: Seq<Seq<char>>,
) -> (Seq<(Seq<char>, Seq<Seq<char>>)>, Outcome) {
    if row.len() != header(es).len() {
        (
            es,
            refused(
                ColonError::LengthMismatch { entry_len: row.len() as usize, header_len: header(es).len() as usize },
            ),
        )
    } else {
        (set_entry(es, key, row), saved())
    }
}

/// Whether clearing the cell of `key` and `column` stays inside the row: it
/// does unless the row is shorter than the header.
pub open spec fn cell_in_bounds(
    es: Seq<(Seq<char>, Seq<Seq<char>>)>,
    key: Seq<char>,
    column: Seq<char>,
) -> bool {
    match position_of(header(es), column) {
        Some(idx) => has_key(es, key) ==> idx < row_of(es, key).len(),
        None => true,
    }
}

/// Clearing one value.
pub open spec fn spec_delete_item(
    es: Seq<(Seq<char>, Seq<Seq<char>>)>,
    key: Seq<char>,
    column: Seq<char>,
) -> (Seq<(Seq<char>, Seq<Seq<char>>)>, Outcome) {
    match position_of(header(es), column) {
        None => (es, refused(ColonError::ColumnNotFound)),
        Some(idx) => {
            if has_key(es, key) {
                (set_entry(es, key, row_of(es, key).update(idx, Seq::empty())), saved())
            } else {
                (es, refused(ColonError::KeyNotFound))
            }
        },
    }
}

/// A row with the value at `idx` cleared, when the row reaches that far.
pub open spec fn clear_cell(row: Seq<Seq<char>>, idx: int) -> Seq<Seq<char>> {
    if 0 <= idx < row.len() {
        row.update(idx, Seq::empty())
    } else {
        row
    }
}

/// Clearing a column in every row.
pub open spec fn spec_delete_column(
    es: Seq<(Seq<char>, Seq<Seq<char>>)>,
    column: Seq<char>,
) -> (Seq<(Seq<char>, Seq<Seq<char>>)>, Outcome) {
    match position_of(header(es), column) {
        None => (es, refused(ColonError::ColumnNotFound)),
        Some(idx) => (
            es.map_values(|e: (Seq<char>, Seq<Seq<char>>)| (e.0, clear_cell(e.1, idx))),
            saved(),
        ),
    }
}

/// Removing a row.
pub open spec fn spec_delete_row(
    es: Seq<(Seq<char>, Seq<Seq<char>>)>,
    key: Seq<char>,
) -> (Seq<(Seq<char>, Seq<Seq<char>>)>, Outcome) {
    if has_key(es, key) {
        (swap_remove_key(es, key), saved())
    } else {
        (es, refused(ColonError::KeyNotFound))
    }
}

/// Reading one value.
pub open spec fn spec_select_item(
    es: Seq<(Seq<char>, Seq<Seq<char>>)>,
    key: Seq<char>,
    column: Seq<char>,
) -> Result<Seq<char>, ColonError> {
    match position_of(header(es), column) {
        None => Err(ColonError::ColumnNotFound),
        Some(idx) => {
            if !has_key(es, key) {
                Err(ColonError::KeyNotFound)
            } else if idx < row_of(es, key).len() {
                Ok(row_of(es, key)[idx])
            } else {
                Err(ColonError::IndexOutOfBounds)
            }
        },
    }
}

/// The rows that a table file describes: each line that holds a `':'` gives
/// the key before its first `':'` and the row of the `','`-separated values
/// after it; a later line for the same key replaces the row of an earlier one
/// in its place. Other lines are skipped.
pub open spec fn colon_load(ls: Seq<Seq<char>>) -> Seq<(Seq<char>, Seq<Seq<char>>)>
    decreases ls.len(),
{
    if ls.len() == 0 {
        Seq::empty()
    } else {
        let es = colon_load(ls.drop_last());
        match split_once(ls.last(), ':') {
            Some((k, rest)) => set_entry(es, k, split_all(rest, ',')),
            None => es,
        }
    }
}

/// The line that stores one row.
pub open spec fn colon_line(e: (Seq<char>, Seq<Seq<char>>)) -> Seq<char> {
    e.0 + seq![':'] + join(e.1, ',')
}

/// The text of a table file holding the given rows, one line each.
pub open spec fn colon_text(es: Seq<(Seq<char>, Seq<Seq<char>>)>) -> Seq<char> {
    terminated(es.map_values(|e: (Seq<char>, Seq<Seq<char>>)| colon_line(e)))
}

/// The header positions that a selection keeps: those of the named columns
/// that the header holds, in the order named (unknown names are skipped), or
/// every header position when no columns are named.
pub open spec fn selected_columns(h: Seq<Seq<char>>, columns: Option<Seq<Seq<char>>>) -> Seq<int> {
    match columns {
        Some(cs) => cs.filter_map(|c: Seq<char>| position_of(h, c)),
        None => Seq::new(h.len(), |i: int| i),
    }
}

/// The values of a row at the given positions, skipping positions past its end.
pub open spec fn project(row: Seq<Seq<char>>, idxs: Seq<int>) -> Seq<Seq<char>> {
    idxs.filter_map(|i: int| if 0 <= i < row.len() { Some(row[i]) } else { None })
}

/// The positions of the rows that a selection keeps: those of the range, cut
/// to the table (`skip(start).take(end - start)` over the rows), or every row
/// when no range is given.
pub open spec fn row_window(n: int, range: Option<core::ops::Range<usize>>) -> (int, int) {
    match range {
        Some(r) => {
            let lo = if r.start < n { r.start as int } else { n };
            let hi = if r.end < r.start { lo } else if r.end < n { r.end as int } else { n };
            (lo, hi)
        },
        None => (0, n),
    }
}

/// The rows that a selection gives: the rows of the window, each cut to the
/// selected columns.
pub open spec fn spec_select_data(
    es: Seq<(Seq<char>, Seq<Seq<char>>)>,
    range: Option<core::ops::Range<usize>>,
    columns: Option<Seq<Seq<char>>>,
) -> Seq<(Seq<char>, Seq<Seq<char>>)> {
    let idxs = selected_columns(header(es), columns);
    let (lo, hi) = row_window(es.len() as int, range);
    es.subrange(lo, hi).map_values(|e: (Seq<char>, Seq<Seq<char>>)| (e.0, project(e.1, idxs)))
}

/// The character views of an optional list of strings.
pub open spec fn option_views(v: Option<Vec<String>>) -> Option<Seq<Seq<char>>> {
    match v {
        Some(x) => Some(views(x@)),
        None => None,
    }
}

/// How one value shows in a printed row.
pub open spec fn shown_cell(v: Seq<char>) -> Seq<char> {
    if v.len() == 0 {
        seq!['e', 'm', 'p', 't', 'y', ' ', '|', ' ']
    } else {
        v + seq![' ', '|', ' ']
    }
}

/// How the values of a row show, one after another.
pub open spec fn shown_cells(row: Seq<Seq<char>>) -> Seq<char>
    decreases row.len(),
{
    if row.len() == 0 {
        Seq::empty()
    } else {
        shown_cells(row.drop_last()) + shown_cell(row.last())
    }
}

/// The printed line of a row: its key, `" || "`, then its values.
pub open spec fn shown_row(e: (Seq<char>, Seq<Seq<char>>)) -> Seq<char> {
    e.0 + seq![' ', '|', '|', ' '] + shown_cells(e.1)
}

/// A line of `'-'` as long, in UTF-8 bytes, as `line`.
pub open spec fn separator(line: Seq<char>) -> Seq<char> {
    Seq::new(byte_len(line), |i: int| '-')
}

/// The printed table: for each row, its line, then a separator line.
pub open spec fn shown_table(es: Seq<(Seq<char>, Seq<Seq<char>>)>) -> Seq<Seq<char>>
    decreases es.len(),
{
    if es.len() == 0 {
        Seq::empty()
    } else {
        shown_table(es.drop_last()) + seq![shown_row(es.last()), separator(shown_row(es.last()))]
    }
}

/// A table of rows keyed by row id, backed by a text file.
pub struct ColonDB {
    data: IndexMap<String, Vec<String>>,
    filename: String,
}

impl ColonDB {
    /// The rows, in the table's order.
    pub closed spec fn entries(&self) -> Seq<(Seq<char>, Seq<Seq<char>>)> {
        index_map_entries(self.data)
    }

    /// The name of the file that backs the table.
    pub closed spec fn file_name_view(&self) -> Seq<char> {
        self.filename@
    }

    /// The table's invariant: no key is stored twice.
    pub open spec fn wf(&self) -> bool {
        distinct_keys(self.entries())
    }

    /// The header row: the first row, or no columns when the table is empty.
    fn header_row(&self) -> (h: Vec<String>)
        ensures
            views(h@) == header(self.entries()),
    {
        match table_get_index(&self.data, 0) {
            Some((_k, row)) => row,
            None => {
                let h: Vec<String> = Vec::new();
                assert(views(h@) =~= Seq::<Seq<char>>::empty());
                h
            },
        }
    }

    /// Sets the row of `key`, in place if the key is present, else last.
    fn put_row(&mut self, key: String, row: Vec<String>)
        requires
            old(self).wf(),
        ensures
            final(self).wf(),
            final(self).file_name_view() == old(self).file_name_view(),
            final(self).entries() == set_entry(old(self).entries(), key@, views(row@)),
    {
        proof {
            lemma_set_entry(self.entries(), key@, views(row@));
        }
        table_insert(&mut self.data, key, row);
    }

    /// Opens the table named `file_name`. `text` is what the file holds, or
    /// `None` when there is no such file (the table is then empty).
    pub fn find_database(file_name: &str, text: Option<&str>) -> (db: ColonDB)
        ensures
            db.wf(),
            db.file_name_view() == file_name@,
            db.entries() == match text {
                Some(t) => colon_load(lines(t@)),
                None => Seq::empty(),
            },
    {
        let mut db = ColonDB { data: table_new(), filename: file_name.to_owned() };
        match text {
            None => db,
            Some(t) => {
                let ls = text_lines(t);
                let ghost lv = views(ls@);
                let mut i: usize = 0;
                while i < ls.len()
                    invariant
                        i <= ls@.len(),
                        lv == views(ls@),
                        lv == lines(t@),
                        db.wf(),
                        db.file_name_view() == file_name@,
                        db.entries() == colon_load(lv.take(i as int)),
                    decreases ls.len() - i,
                {
                    assert(lv.take(i + 1).drop_last() =~= lv.take(i as int));
                    assert(lv.take(i + 1).last() == ls@[i as int]@);
                    match split_once_at(ls[i].as_str(), ':') {
                        Some((k, rest)) => {
                            let values = split_all_at(rest.as_str(), ',');
                            db.put_row(k, values);
                        },
                        None => {},
                    }
                    i = i + 1;
                }
                assert(lv.take(ls.len() as int) =~= lv);
                db
            },
        }
    }

    /// The text that the table's file is to hold: one `key:v1,v2,...` line
    /// per row, in the table's order, each closed by a `'\n'`.
    pub fn file_text(&self) -> (r: String)
        ensures
            r@ == colon_text(self.entries()),
    {
        let ghost es = self.entries();
        let ghost ls = es.map_values(|e: (Seq<char>, Seq<Seq<char>>)| colon_line(e));
        let n = table_len(&self.data);
        let mut r = String::new();
        let mut i: usize = n;
        assert(terminated(ls.subrange(n as int, n as int)) =~= Seq::<char>::empty());
        while i > 0
            invariant
                i <= n == es.len(),
                es == self.entries(),
                ls == es.map_values(|e: (Seq<char>, Seq<Seq<char>>)| colon_line(e)),
                r@ == terminated(ls.subrange(i as int, n as int)),
            decreases i,
        {
            i = i - 1;
            let (key, row) = match table_get_index(&self.data, i) {
                Some(e) => e,
                None => {
                    assert(false);
                    return r;
                },
            };
            let mut line = key;
            push_char(&mut line, ':');
            let values = join_with(&row, ',');
            append_str(&mut line, values.as_str());
            push_char(&mut line, '\n');
            append_str(&mut line, r.as_str());
            proof {
                let sub = ls.subrange(i as int, n as int);
                assert(sub.drop_first() =~= ls.subrange(i + 1, n as int));
                assert(sub[0] == colon_line(es[i as int]));
                assert(line@ =~= sub[0] + seq!['\n'] + terminated(sub.drop_first()));
            }
            r = line;
        }
        assert(ls.subrange(0, n as int) =~= ls);
        r
    }

    /// The row stored for `key`, if any.
    fn row(&self, key: &str) -> (r: Option<Vec<String>>)
        ensures
            match r {
                Some(row) => has_key(self.entries(), key@) && views(row@) == row_of(self.entries(), key@),
                None => !has_key(self.entries(), key@),
            },
    {
        table_get(&self.data, key)
    }

    /// Sets the value of `key` in `column`. A missing row is first created
    /// with an empty value in every header column. The file is to be
    /// rewritten unless the column is not in the header.
    #[verifier::spinoff_prover]
    pub fn insert_item_into_db(&mut self, key: String, column: String, value: String) -> (r: Outcome)
        requires
            old(self).wf(),
        ensures
            final(self).wf(),
            final(self).file_name_view() == old(self).file_name_view(),
            (final(self).entries(), r) == spec_insert_item(old(self).entries(), key@, column@, value@),
    {
        let ghost es = self.entries();
        let ghost hv = header(es);
        let h = self.header_row();
        assert(views(h@) == hv);
        assert(h@.len() == hv.len());
        proof {
            lemma_position_of(hv, column@);
        }
        match column_position(&h, column.as_str()) {
            None => {
                assert(position_of(hv, column@) is None);
                let r = Outcome { save: false, problem: Some(ColonError::ColumnNotFound) };
                assert((es, r) == spec_insert_item(es, key@, column@, value@));
                r
            },
            Some(idx) => {
                let ghost i = idx as int;
                assert(position_of(hv, column@) == Some(i));
                assert(0 <= i < hv.len());
                let mut row = match self.row(key.as_str()) {
                    Some(existing) => existing,
                    None => empty_values(h.len()),
                };
                let ghost before = views(row@);
                let ghost expected = if has_key(es, key@) { row_of(es, key@) } else { empty_row(hv.len()) };
                assert(before == expected);
                assert(before.len() == row@.len());
                if idx < row.len() {
                    row.set(idx, value);
                    assert(views(row@) =~= before.update(i, value@));
                    self.put_row(key, row);
                    assert(self.entries() == set_entry(es, key@, expected.update(i, value@)));
                    let r = Outcome { save: true, problem: None };
                    assert((self.entries(), r) == spec_insert_item(es, key@, column@, value@));
                    r
                } else {
                    assert(!(i < expected.len()));
                    assert(has_key(es, key@));
                    let r = Outcome { save: true, problem: Some(ColonError::IndexOutOfBounds) };
                    assert((es, r) == spec_insert_item(es, key@, column@, value@));
                    r
                }
            },
        }
    }

    /// Sets the whole row of `key`, which must hold one value per header
    /// column; the file is then to be rewritten.
    pub fn insert_row_into_db(&mut self, key: String, entry_vec: Vec<String>) -> (r: Outcome)
        requires
            old(self).wf(),
        ensures
            final(self).wf(),
            final(self).file_name_view() == old(self).file_name_view(),
            (final(self).entries(), r) == spec_insert_row(old(self).entries(), key@, views(entry_vec@)),
    {
        let h = self.header_row();
        if entry_vec.len() != h.len() {
            return Outcome {
                save: false,
                problem: Some(ColonError::LengthMismatch { entry_len: entry_vec.len(), header_len: h.len() }),
            };
        }
        self.put_row(key, entry_vec);
        Outcome { save: true, problem: None }
    }

    /// Whether clearing the value of `key` in `column` stays inside the row
    /// (it does not when the row is shorter than the header).
    #[verifier::spinoff_prover]
    pub fn item_in_bounds(&self, key: &str, column: &str) -> (b: bool)
        ensures
            b == cell_in_bounds(self.entries(), key@, column@),
    {
        let ghost es = self.entries();
        let ghost hv = header(es);
        let h = self.header_row();
        assert(views(h@) == hv);
        proof {
            lemma_position_of(hv, column@);
        }
        match column_position(&h, column) {
            None => {
                assert(position_of(hv, column@) is None);
                assert(cell_in_bounds(es, key@, column@));
                true
            },
            Some(idx) => {
                let ghost i = idx as int;
                assert(position_of(hv, column@) == Some(i));
                match self.row(key) {
                    Some(row) => {
                        assert(has_key(es, key@));
                        assert(views(row@) == row_of(es, key@));
                        assert(views(row@).len() == row@.len());
                        let b = idx < row.len();
                        assert(b == (i < row_of(es, key@).len()));
                        assert(b == cell_in_bounds(es, key@, column@));
                        b
                    },
                    None => {
                        assert(!has_key(es, key@));
                        assert(cell_in_bounds(es, key@, column@));
                        true
                    },
                }
            },
        }
    }

    /// Clears the value of `key` in `column`; the file is then to be rewritten.
    pub fn delete_item(&mut self, key: &str, column: String) -> (r: Outcome)
        requires
            old(self).wf(),
            cell_in_bounds(old(self).entries(), key@, column@),
        ensures
            final(self).wf(),
            final(self).file_name_view() == old(self).file_name_view(),
            (final(self).entries(), r) == spec_delete_item(old(self).entries(), key@, column@),
    {
        let h = self.header_row();
        proof {
            lemma_position_of(header(self.entries()), column@);
        }
        match column_position(&h, column.as_str()) {
            None => Outcome { save: false, problem: Some(ColonError::ColumnNotFound) },
            Some(idx) => match self.row(key) {
                Some(mut row) => {
                    let ghost before = views(row@);
                    row.set(idx, String::new());
                    assert(views(row@) =~= before.update(idx as int, Seq::empty()));
                    self.put_row(key.to_owned(), row);
                    Outcome { save: true, problem: None }
                },
                None => Outcome { save: false, problem: Some(ColonError::KeyNotFound) },
            },
        }
    }

    /// Clears `column` in every row that reaches it; the file is then to be
    /// rewritten.
    pub fn delete_column(&mut self, column: String) -> (r: Outcome)
        requires
            old(self).wf(),
        ensures
            final(self).wf(),
            final(self).file_name_view() == old(self).file_name_view(),
            (final(self).entries(), r) == spec_delete_column(old(self).entries(), column@),
    {
        let h = self.header_row();
        match column_position(&h, column.as_str()) {
            None => Outcome { save: false, problem: Some(ColonError::ColumnNotFound) },
            Some(idx) => {
                let ghost es = self.entries();
                let ghost target = es.map_values(|e: (Seq<char>, Seq<Seq<char>>)| (e.0, clear_cell(e.1, idx as int)));
                let n = table_len(&self.data);
                let mut i: usize = 0;
                while i < n
                    invariant
                        i <= n == es.len(),
                        distinct_keys(es),
                        target == es.map_values(|e: (Seq<char>, Seq<Seq<char>>)| (e.0, clear_cell(e.1, idx as int))),
                        self.wf(),
                        self.file_name_view() == old(self).file_name_view(),
                        self.entries().len() == n,
                        forall|j: int| 0 <= j < i ==> #[trigger] self.entries()[j] == target[j],
                        forall|j: int| i <= j < n ==> #[trigger] self.entries()[j] == es[j],
                    decreases n - i,
                {
                    let (key, mut row) = match table_get_index(&self.data, i) {
                        Some(e) => e,
                        None => {
                            assert(false);
                            return Outcome { save: true, problem: None };
                        },
                    };
                    let ghost cur = self.entries();
                    if idx < row.len() {
                        let ghost before = views(row@);
                        row.set(idx, String::new());
                        assert(views(row@) =~= before.update(idx as int, Seq::empty()));
                    }
                    proof {
                        lemma_set_entry(cur, key@, views(row@));
                        assert(has_key(cur, key@));
                        assert(key_index(cur, key@) == i) by {
                            let a = key_index(cur, key@);
                            assert(cur[a].0 == key@);
                        }
                    }
                    self.put_row(key, row);
                    i = i + 1;
                }
                assert(self.entries() =~= target);
                proof {
                    lemma_position_of(header(es), column@);
                    assert(target =~= spec_delete_column(es, column@).0);
                }
                Outcome { save: true, problem: None }
            },
        }
    }

    /// Removes the row of `key`; the last row takes its place, as
    /// `IndexMap::remove` does it. The file is then to be rewritten.
    pub fn delete_row(&mut self, key: &str) -> (r: Outcome)
        requires
            old(self).wf(),
        ensures
            final(self).wf(),
            final(self).file_name_view() == old(self).file_name_view(),
            (final(self).entries(), r) == spec_delete_row(old(self).entries(), key@),
    {
        proof {
            lemma_swap_remove_distinct(self.entries(), key@);
        }
        if table_swap_remove(&mut self.data, key) {
            Outcome { save: true, problem: None }
        } else {
            Outcome { save: false, problem: Some(ColonError::KeyNotFound) }
        }
    }

    /// The value of `key` in `column`.
    pub fn select_item(&self, key: &str, column: &str) -> (r: Result<String, ColonError>)
        requires
            self.wf(),
        ensures
            match (r, spec_select_item(self.entries(), key@, column@)) {
                (Ok(v), Ok(w)) => v@ == w,
                (Err(e), Err(f)) => e == f,
                _ => false,
            },
    {
        let h = self.header_row();
        proof {
            lemma_position_of(header(self.entries()), column@);
        }
        match column_position(&h, column) {
            None => Err(ColonError::ColumnNotFound),
            Some(idx) => match self.row(key) {
                Some(row) => {
                    if idx < row.len() {
                        let v = row[idx].clone();
                        assert(views(row@)[idx as int] == row@[idx as int]@);
                        Ok(v)
                    } else {
                        Err(ColonError::IndexOutOfBounds)
                    }
                },
                None => Err(ColonError::KeyNotFound),
            },
        }
    }

    /// A new table, under the same file name, of the rows of `row_range`
    /// (all rows when `None`) cut to the columns of `column_range` that the
    /// header names (all columns when `None`).
    pub fn select_data(
        &self,
        row_range: Option<core::ops::Range<usize>>,
        column_range: Option<Vec<String>>,
    ) -> (db: ColonDB)
        requires
            self.wf(),
        ensures
            db.wf(),
            db.file_name_view() == self.file_name_view(),
            db.entries() == spec_select_data(self.entries(), row_range, option_views(column_range)),
    {
        let ghost es = self.entries();
        let h = self.header_row();
        let ghost hv = views(h@);
        let idxs = column_indices(&h, &column_range);
        let ghost iv = as_ints(idxs@);
        let n = table_len(&self.data);
        let (lo, hi) = match &row_range {
            Some(r) => {
                let lo = if r.start < n { r.start } else { n };
                let hi = if r.end < r.start { lo } else if r.end < n { r.end } else { n };
                (lo, hi)
            },
            None => (0, n),
        };
        assert((lo as int, hi as int) == row_window(n as int, row_range));
        let ghost target = es.subrange(lo as int, hi as int).map_values(
            |e: (Seq<char>, Seq<Seq<char>>)| (e.0, project(e.1, iv)),
        );
        let mut db = ColonDB { data: table_new(), filename: self.filename.clone() };
        assert(db.entries() =~= target.take(0));
        let mut i = lo;
        while i < hi
            invariant
                lo <= i <= hi <= n == es.len(),
                es == self.entries(),
                distinct_keys(es),
                target == es.subrange(lo as int, hi as int).map_values(
                    |e: (Seq<char>, Seq<Seq<char>>)| (e.0, project(e.1, iv)),
                ),
                iv == as_ints(idxs@),
                db.wf(),
                db.file_name_view() == self.file_name_view(),
                db.entries() == target.take(i - lo),
            decreases hi - i,
        {
            let (key, row) = match table_get_index(&self.data, i) {
                Some(e) => e,
                None => {
                    assert(false);
                    return db;
                },
            };
            let cut = project_row(&row, &idxs);
            proof {
                assert(!has_key(db.entries(), key@)) by {
                    if has_key(db.entries(), key@) {
                        let j = choose|j: int| 0 <= j < db.entries().len() && db.entries()[j].0 == key@;
                        assert(db.entries()[j] == target[j]);
                        assert(target[j].0 == es[lo + j].0);
                    }
                }
                assert(target.take(i - lo + 1) =~= target.take(i - lo).push((key@, views(cut@))));
            }
            db.put_row(key, cut);
            i = i + 1;
        }
        proof {
            assert(target.take(hi - lo) =~= target);
            lemma_position_of(hv, Seq::empty());
            assert(iv == selected_columns(header(es), option_views(column_range)));
        }
        db
    }

    /// The lines that show the table: for each row, the key, `" || "` and
    /// each value followed by `" | "` (`"empty | "` for an empty value), then
    /// a line of `'-'` as long in bytes.
    pub fn print_database(&self) -> (r: Vec<String>)
        ensures
            views(r@) == shown_table(self.entries()),
    {
        let ghost es = self.entries();
        let n = table_len(&self.data);
        let mut out: Vec<String> = Vec::new();
        let mut i: usize = 0;
        while i < n
            invariant
                i <= n == es.len(),
                es == self.entries(),
                views(out@) == shown_table(es.take(i as int)),
            decreases n - i,
        {
            let (key, row) = match table_get_index(&self.data, i) {
                Some(e) => e,
                None => {
                    assert(false);
                    return out;
                },
            };
            let line = shown_row_line(&key, &row);
            let bytes = line.as_str().len();
            let mut sep = String::new();
            let mut j: usize = 0;
            while j < bytes
                invariant
                    j <= bytes,
                    sep@ == Seq::new(j as nat, |q: int| '-'),
                decreases bytes - j,
            {
                push_char(&mut sep, '-');
                assert(sep@ =~= Seq::new((j + 1) as nat, |q: int| '-'));
                j = j + 1;
            }
            proof {
                assert(es.take(i + 1).drop_last() =~= es.take(i as int));
                assert(es.take(i + 1).last() == es[i as int]);
                assert(sep@ =~= separator(line@));
            }
            let ghost before = out@;
            out.push(line);
            out.push(sep);
            proof {
                assert(views(out@) =~= views(before) + seq![line@, sep@]);
            }
            i = i + 1;
        }
        assert(es.take(n as int) =~= es);
        out
    }

    /// The name of the file that backs the table.
    pub fn file_name(&self) -> (r: &String)
        ensures
            r@ == self.file_name_view(),
    {
        &self.filename
    }
}

/// Positions as integers.
pub open spec fn as_ints(v: Seq<usize>) -> Seq<int> {
    v.map_values(|x: usize| x as int)
}

/// The header positions of the named columns, or every header position.
fn column_indices(h: &Vec<String>, columns: &Option<Vec<String>>) -> (r: Vec<usize>)
    ensures
        as_ints(r@) == selected_columns(views(h@), option_views(*columns)),
        forall|j: int| 0 <= j < r@.len() ==> r@[j] < h@.len(),
{
    let ghost hv = views(h@);
    match columns {
        Some(cs) => {
            let ghost cv = views(cs@);
            let ghost f = |c: Seq<char>| position_of(hv, c);
            let hn = h.len();
            let mut r: Vec<usize> = Vec::new();
            let mut i: usize = 0;
            while i < cs.len()
                invariant
                    i <= cs@.len(),
                    cv == views(cs@),
                    hv == views(h@),
                    f == (|c: Seq<char>| position_of(hv, c)),
                    hn == h@.len(),
                    as_ints(r@) == cv.take(i as int).filter_map(f),
                    forall|j: int| 0 <= j < r@.len() ==> r@[j] < h@.len(),
                decreases cs.len() - i,
            {
                proof {
                    lemma_position_of(hv, cs@[i as int]@);
                    assert(cv.take(i + 1).drop_last() =~= cv.take(i as int));
                    assert(cv.take(i + 1).last() == cs@[i as int]@);
                }
                let ghost pre = cv.take(i + 1);
                assert(f(pre.last()) == position_of(hv, cs@[i as int]@));
                assert(pre.filter_map(f) == (match f(pre.last()) {
                    Some(x) => pre.drop_last().filter_map(f) + seq![x],
                    None => pre.drop_last().filter_map(f),
                }));
                match column_position(h, cs[i].as_str()) {
                    Some(p) => {
                        assert(f(pre.last()) == Some(p as int));
                        let ghost before = r@;
                        r.push(p);
                        assert(as_ints(r@) =~= as_ints(before) + seq![p as int]);
                    },
                    None => {
                        assert(f(pre.last()) is None);
                    },
                }
                i = i + 1;
            }
            assert(cv.take(cs.len() as int) =~= cv);
            assert(selected_columns(hv, option_views(*columns)) == cv.filter_map(f));
            r
        },
        None => {
            let n = h.len();
            let mut r: Vec<usize> = Vec::new();
            let mut i: usize = 0;
            while i < n
                invariant
                    i <= n == h@.len(),
                    r@.len() == i,
                    as_ints(r@) == Seq::new(i as nat, |q: int| q),
                    forall|j: int| 0 <= j < r@.len() ==> r@[j] < h@.len(),
                decreases n - i,
            {
                let ghost before = r@;
                r.push(i);
                assert(as_ints(r@) =~= Seq::new((i + 1) as nat, |q: int| q)) by {
                    assert(r@ == before.push(i));
                    assert forall|q: int| 0 <= q < i + 1 implies #[trigger] as_ints(r@)[q] == q by {
                        if q < i {
                            assert(as_ints(before)[q] == q);
                            assert(r@[q] == before[q]);
                        }
                    }
                }
                i = i + 1;
            }
            r
        },
    }
}

/// The values of a row at the given positions, skipping positions past its end.
fn project_row(row: &Vec<String>, idxs: &Vec<usize>) -> (r: Vec<String>)
    ensures
        views(r@) == project(views(row@), as_ints(idxs@)),
{
    let ghost rv = views(row@);
    let ghost iv = as_ints(idxs@);
    let mut r: Vec<String> = Vec::new();
    let mut i: usize = 0;
    while i < idxs.len()
        invariant
            i <= idxs@.len(),
            rv == views(row@),
            iv == as_ints(idxs@),
            views(r@) == project(rv, iv.take(i as int)),
        decreases idxs.len() - i,
    {
        proof {
            assert(iv.take(i + 1).drop_last() =~= iv.take(i as int));
            assert(iv.take(i + 1).last() == idxs@[i as int] as int);
        }
        let p = idxs[i];
        if p < row.len() {
            let v = row[p].clone();
            let ghost before = r@;
            r.push(v);
            assert(views(r@) =~= views(before).push(rv[p as int]));
        }
        i = i + 1;
    }
    assert(iv.take(idxs.len() as int) =~= iv);
    r
}

/// The printed line of one row.
fn shown_row_line(key: &String, row: &Vec<String>) -> (line: String)
    ensures
        line@ == shown_row((key@, views(row@))),
{
    let ghost rv = views(row@);
    let mut line = key.clone();
    append_str(&mut line, " || ");
    proof {
        reveal_strlit(" || ");
    }
    let ghost head = line@;
    assert(head == key@ + seq![' ', '|', '|', ' ']);
    let mut i: usize = 0;
    while i < row.len()
        invariant
            i <= row@.len(),
            rv == views(row@),
            head == key@ + seq![' ', '|', '|', ' '],
            line@ == head + shown_cells(rv.take(i as int)),
        decreases row.len() - i,
    {
        proof {
            assert(rv.take(i + 1).drop_last() =~= rv.take(i as int));
            assert(rv.take(i + 1).last() == row@[i as int]@);
        }
        let v = &row[i];
        if v.as_str().is_empty() {
            append_str(&mut line, "empty | ");
            proof {
                reveal_strlit("empty | ");
            }
        } else {
            append_str(&mut line, v.as_str());
            append_str(&mut line, " | ");
            proof {
                reveal_strlit(" | ");
            }
        }
        assert(line@ =~= head + shown_cells(rv.take(i + 1)));
        i = i + 1;
    }
    assert(rv.take(row.len() as int) =~= rv);
    line
}

/// Swap-removing keeps the keys distinct.
pub proof fn lemma_swap_remove_distinct(es: Seq<(Seq<char>, Seq<Seq<char>>)>, k: Seq<char>)
    requires
        distinct_keys(es),
    ensures
        distinct_keys(swap_remove_key(es, k)),
{
    if has_key(es, k) {
        let i = key_index(es, k);
        let last = es.len() - 1;
        let fs = swap_remove_key(es, k);
        assert forall|a: int, b: int| 0 <= a < fs.len() && 0 <= b < fs.len() && a != b implies fs[a].0 != fs[b].0 by {
            let aa = if a == i { last } else { a };
            let bb = if b == i { last } else { b };
            assert(fs[a] == es[aa]);
            assert(fs[b] == es[bb]);
        }
    }
}

/// A row of `n` empty values.
fn empty_values(n: usize) -> (v: Vec<String>)
    ensures
        views(v@) == empty_row(n as nat),
{
    let mut v: Vec<String> = Vec::new();
    let mut i: usize = 0;
    while i < n
        invariant
            i <= n,
            v@.len() == i,
            views(v@) == empty_row(i as nat),
        decreases n - i,
    {
        let e = String::new();
        let ghost pre = v@;
        v.push(e);
        assert(views(v@) =~= empty_row((i + 1) as nat)) by {
            assert(v@ == pre.push(e));
            assert(e@ == Seq::<char>::empty());
            assert forall|j: int| 0 <= j < i + 1 implies #[trigger] views(v@)[j] == empty_row((i + 1) as nat)[j] by {
                if j < i {
                    assert(views(pre)[j] == empty_row(i as nat)[j]);
                    assert(v@[j] == pre[j]);
                }
            }
        }
        i = i + 1;
    }
    v
}

/// The position of `column` in a header row.
fn column_position(h: &Vec<String>, column: &str) -> (r: Option<usize>)
    ensures
        match position_of(views(h@), column@) {
            Some(i) => r == Some(i as usize),
            None => r is None,
        },
        match r {
            Some(i) => position_of(views(h@), column@) == Some(i as int),
            None => position_of(views(h@), column@) is None,
        },
{
    let c = column.to_owned();
    let ghost hv = views(h@);
    let n = h.len();
    let mut i: usize = 0;
    while i < n
        invariant
            i <= n == h@.len(),
            hv == views(h@),
            c@ == column@,
            forall|j: int| 0 <= j < i ==> hv[j] != column@,
        decreases n - i,
    {
        assert(hv[i as int] == h@[i as int]@);
        let same = h[i] == c;
        if same {
            proof {
                lemma_position_of(hv, column@);
            }
            return Some(i);
        }
        i = i + 1;
    }
    proof {
        lemma_position_of(hv, column@);
    }
    None
}

/// Inserting keeps the keys distinct; the inserted key reads as the new row
/// and every other key as before.
pub proof fn lemma_set_entry(es: Seq<(Seq<char>, Seq<Seq<char>>)>, k: Seq<char>, row: Seq<Seq<char>>)
    requires
        distinct_keys(es),
    ensures
        distinct_keys(set_entry(es, k, row)),
        has_key(set_entry(es, k, row), k),
        row_of(set_entry(es, k, row), k) == row,
        forall|q: Seq<char>| q != k ==> (#[trigger] has_key(set_entry(es, k, row), q) == has_key(es, q)),
        forall|q: Seq<char>| q != k && has_key(es, q) ==> #[trigger] row_of(set_entry(es, k, row), q) == row_of(es, q),
        set_entry(es, k, row).len() == es.len() + (if has_key(es, k) { 0int } else { 1int }),
        es.len() > 0 ==> set_entry(es, k, row)[0] == (if es[0].0 == k { (k, row) } else { es[0] }),
{
    let fs = set_entry(es, k, row);
    if has_key(es, k) {
        let i = key_index(es, k);
        assert forall|a: int, b: int| 0 <= a < fs.len() && 0 <= b < fs.len() && a != b implies fs[a].0 != fs[b].0 by {
            assert(fs[a].0 == es[a].0);
            assert(fs[b].0 == es[b].0);
        }
        assert(fs[i].0 == k);
        assert forall|q: Seq<char>| q != k implies (#[trigger] has_key(fs, q) == has_key(es, q)) by {
            if has_key(fs, q) {
                let j = choose|j: int| 0 <= j < fs.len() && fs[j].0 == q;
                assert(es[j].0 == q);
            }
            if has_key(es, q) {
                let j = choose|j: int| 0 <= j < es.len() && es[j].0 == q;
                assert(fs[j].0 == q);
            }
        }
        assert forall|q: Seq<char>| q != k && has_key(es, q) implies #[trigger] row_of(fs, q) == row_of(es, q) by {
            let a = key_index(fs, q);
            let b = key_index(es, q);
            assert(fs[b].0 == q);
            assert(fs[a].0 == es[a].0);
            assert(a == b);
        }
        let a = key_index(fs, k);
        assert(a == i);
        if es[0].0 == k {
            assert(i == 0);
        }
    } else {
        let n = es.len() as int;
        assert forall|a: int, b: int| 0 <= a < fs.len() && 0 <= b < fs.len() && a != b implies fs[a].0 != fs[b].0 by {
            if a < n {
                assert(fs[a] == es[a]);
            }
            if b < n {
                assert(fs[b] == es[b]);
            }
            if a < n && b == n {
                assert(fs[b].0 == k);
            }
            if b < n && a == n {
                assert(fs[a].0 == k);
            }
        }
        assert(fs[n].0 == k);
        assert forall|q: Seq<char>| q != k implies (#[trigger] has_key(fs, q) == has_key(es, q)) by {
            if has_key(fs, q) {
                let j = choose|j: int| 0 <= j < fs.len() && fs[j].0 == q;
                assert(j < n);
                assert(es[j].0 == q);
            }
            if has_key(es, q) {
                let j = choose|j: int| 0 <= j < es.len() && es[j].0 == q;
                assert(fs[j].0 == q);
            }
        }
        assert forall|q: Seq<char>| q != k && has_key(es, q) implies #[trigger] row_of(fs, q) == row_of(es, q) by {
            let a = key_index(fs, q);
            let b = key_index(es, q);
            assert(fs[b].0 == q);
            if a == n {
                assert(fs[a].0 == k);
            }
            assert(fs[a].0 == es[a].0);
            assert(a == b);
        }
        let a = key_index(fs, k);
        if a < n {
            assert(es[a].0 == k);
        }
        assert(a == n);
        if n > 0 {
            assert(es[0].0 != k);
        }
    }
}



/// Whether a list of rows can be written to a table file and read back: no
/// key holds a `':'` or a `'\n'`; every row has a value; no value holds a
/// `','` or a `'\n'`; and the last value of a row does not end with a `'\r'`.
pub open spec fn colon_storable(es: Seq<(Seq<char>, Seq<Seq<char>>)>) -> bool {
    forall|i: int|
        0 <= i < es.len() ==> {
            &&& !has_char(#[trigger] es[i].0, ':')
            &&& !has_char(es[i].0, '\n')
            &&& es[i].1.len() > 0
            &&& forall|j: int| 0 <= j < es[i].1.len() ==> !has_char(#[trigger] es[i].1[j], ',') && !has_char(es[i].1[j], '\n')
            &&& (es[i].1.last().len() == 0 || es[i].1.last().last() != '\r')
        }
}

/// A character of a joined text is the separator or a character of a part.
proof fn lemma_join_chars(parts: Seq<Seq<char>>, sep: char, c: char)
    requires
        c != sep,
        forall|j: int| 0 <= j < parts.len() ==> !has_char(#[trigger] parts[j], c),
    ensures
        !has_char(join(parts, sep), c),
    decreases parts.len(),
{
    if parts.len() > 1 {
        let rest = parts.drop_first();
        assert forall|j: int| 0 <= j < rest.len() implies !has_char(#[trigger] rest[j], c) by {
            assert(rest[j] == parts[j + 1]);
        }
        lemma_join_chars(rest, sep, c);
        let p = parts[0];
        let t = join(rest, sep);
        let s = join(parts, sep);
        assert(!has_char(p, c));
        if has_char(s, c) {
            let k = choose|k: int| 0 <= k < s.len() && s[k] == c;
            if k < p.len() {
                assert(s[k] == p[k]);
            } else if k > p.len() {
                assert(s[k] == t[k - p.len() - 1]);
            }
        }
    } else if parts.len() == 1 {
        assert(!has_char(parts[0], c));
    }
}

/// A joined text ends as its last part does, when that part is not empty.
proof fn lemma_join_last(parts: Seq<Seq<char>>, sep: char)
    requires
        parts.len() > 0,
        parts.last().len() > 0,
    ensures
        join(parts, sep).len() > 0,
        join(parts, sep).last() == parts.last().last(),
    decreases parts.len(),
{
    if parts.len() > 1 {
        let rest = parts.drop_first();
        assert(rest.last() == parts.last());
        lemma_join_last(rest, sep);
    }
}

proof fn lemma_colon_load_lines(es: Seq<(Seq<char>, Seq<Seq<char>>)>)
    requires
        distinct_keys(es),
        colon_storable(es),
    ensures
        colon_load(es.map_values(|e: (Seq<char>, Seq<Seq<char>>)| colon_line(e))) == es,
    decreases es.len(),
{
    let ls = es.map_values(|e: (Seq<char>, Seq<Seq<char>>)| colon_line(e));
    if es.len() == 0 {
        assert(colon_load(ls) =~= es);
    } else {
        let front = es.drop_last();
        let (k, row) = es.last();
        assert(ls.drop_last() =~= front.map_values(|e: (Seq<char>, Seq<Seq<char>>)| colon_line(e)));
        assert forall|a: int, b: int| 0 <= a < front.len() && 0 <= b < front.len() && a != b implies front[a].0 != front[b].0 by {
            assert(front[a] == es[a] && front[b] == es[b]);
        }
        assert forall|i: int| 0 <= i < front.len() implies {
            &&& !has_char(#[trigger] front[i].0, ':')
            &&& !has_char(front[i].0, '\n')
            &&& front[i].1.len() > 0
            &&& forall|j: int| 0 <= j < front[i].1.len() ==> !has_char(#[trigger] front[i].1[j], ',') && !has_char(front[i].1[j], '\n')
            &&& (front[i].1.last().len() == 0 || front[i].1.last().last() != '\r')
        } by {
            assert(front[i] == es[i]);
        }
        lemma_colon_load_lines(front);
        let last = es.len() - 1;
        assert(es[last] == (k, row));
        assert(!has_char(k, ':'));
        assert(row.len() > 0);
        assert forall|j: int| 0 <= j < row.len() implies !has_char(#[trigger] row[j], ',') by {
            assert(!has_char(es[last].1[j], ','));
        }
        let joined = join(row, ',');
        lemma_split_once_joined(k, joined, ':');
        lemma_split_join(row, ',');
        assert(ls.last() == k + seq![':'] + joined);
        assert(!has_key(front, k)) by {
            if has_key(front, k) {
                let j = choose|j: int| 0 <= j < front.len() && front[j].0 == k;
                assert(es[j].0 == es[last].0);
            }
        }
        assert(front.push((k, row)) =~= es);
    }
}

/// A table read back from the text that `file_text` gave holds the same
/// rows in the same order, when the rows are storable.
pub proof fn law_colon_file_round_trip(es: Seq<(Seq<char>, Seq<Seq<char>>)>)
    requires
        distinct_keys(es),
        colon_storable(es),
    ensures
        colon_load(lines(colon_text(es))) == es,
{
    let ls = es.map_values(|e: (Seq<char>, Seq<Seq<char>>)| colon_line(e));
    assert forall|i: int| 0 <= i < ls.len() implies !has_char(#[trigger] ls[i], '\n') && strip_cr(ls[i]) == ls[i] by {
        let (k, row) = es[i];
        let joined = join(row, ',');
        assert(ls[i] == k + seq![':'] + joined);
        assert forall|j: int| 0 <= j < row.len() implies !has_char(#[trigger] row[j], '\n') by {
            assert(!has_char(es[i].1[j], '\n'));
        }
        lemma_join_chars(row, ',', '\n');
        if has_char(ls[i], '\n') {
            let j = choose|j: int| 0 <= j < ls[i].len() && ls[i][j] == '\n';
            if j < k.len() {
                assert(k[j] == '\n');
            } else if j > k.len() {
                assert(joined[j - k.len() - 1] == '\n');
            }
        }
        if row.last().len() > 0 {
            lemma_join_last(row, ',');
            assert(ls[i].last() == joined.last());
        } else if joined.len() > 0 {
            assert(ls[i].last() == joined.last());
            if row.len() == 1 {
                assert(joined == row[0]);
            } else {
                lemma_join_tail(row, ',');
            }
        }
    }
    lemma_lines_terminated(ls);
    lemma_colon_load_lines(es);
}

/// With two or more parts, the joined text ends with the separator and the last part.
proof fn lemma_join_tail(parts: Seq<Seq<char>>, sep: char)
    requires
        parts.len() > 1,
    ensures
        join(parts, sep) == join(parts.drop_last(), sep) + seq![sep] + parts.last(),
    decreases parts.len(),
{
    let rest = parts.drop_first();
    if parts.len() == 2 {
        assert(rest.len() == 1);
        assert(join(rest, sep) == rest[0]);
        assert(rest[0] == parts.last());
        assert(parts.drop_last().len() == 1);
        assert(join(parts.drop_last(), sep) == parts.drop_last()[0]);
        assert(join(parts, sep) == parts[0] + seq![sep] + join(rest, sep));
    } else {
        lemma_join_tail(rest, sep);
        let init = parts.drop_last();
        assert(rest.drop_last() =~= init.drop_first());
        assert(init[0] == parts[0]);
        assert(rest.last() == parts.last());
        assert(join(init, sep) == init[0] + seq![sep] + join(init.drop_first(), sep));
        assert(join(parts, sep) == parts[0] + seq![sep] + join(rest, sep));
        assert(join(parts, sep) =~= join(init, sep) + seq![sep] + parts.last());
    }
}

/// After a value is set, reading the same key and column gives it back,
/// unless the row set is the header row and the value renames the column.
pub proof fn law_colon_read_after_insert_item(
    es: Seq<(Seq<char>, Seq<Seq<char>>)>,
    key: Seq<char>,
    column: Seq<char>,
    value: Seq<char>,
)
    requires
        distinct_keys(es),
        spec_insert_item(es, key, column, value).1 == saved(),
        es.len() == 0 || es[0].0 != key || value == column,
    ensures
        spec_select_item(spec_insert_item(es, key, column, value).0, key, column) == Ok::<Seq<char>, ColonError>(value),
{
    let h = header(es);
    lemma_position_of(h, column);
    let idx = position_of(h, column)->0;
    let row = if has_key(es, key) { row_of(es, key) } else { empty_row(h.len()) };
    let new_row = row.update(idx, value);
    let fs = set_entry(es, key, new_row);
    lemma_set_entry(es, key, new_row);
    assert(header(fs) =~= h) by {
        if es[0].0 == key {
            assert(new_row =~= h);
        }
    }
}

/// After a row is set, each column of the header reads as the row's value,
/// when the row set is not the header row.
pub proof fn law_colon_read_after_insert_row(
    es: Seq<(Seq<char>, Seq<Seq<char>>)>,
    key: Seq<char>,
    row: Seq<Seq<char>>,
    column: Seq<char>,
    idx: int,
)
    requires
        distinct_keys(es),
        spec_insert_row(es, key, row).1 == saved(),
        es.len() > 0,
        es[0].0 != key,
        position_of(header(es), column) == Some(idx),
    ensures
        spec_select_item(spec_insert_row(es, key, row).0, key, column) == Ok::<Seq<char>, ColonError>(row[idx]),
{
    lemma_position_of(header(es), column);
    lemma_set_entry(es, key, row);
}

/// After a row is removed, no value of its key can be read, and every other
/// key keeps its row.
pub proof fn law_colon_delete_row(
    es: Seq<(Seq<char>, Seq<Seq<char>>)>,
    key: Seq<char>,
    column: Seq<char>,
    other: Seq<char>,
)
    requires
        distinct_keys(es),
        other != key,
    ensures
        !has_key(spec_delete_row(es, key).0, key),
        spec_select_item(spec_delete_row(es, key).0, key, column) is Err,
        has_key(spec_delete_row(es, key).0, other) == has_key(es, other),
        has_key(es, other) ==> row_of(spec_delete_row(es, key).0, other) == row_of(es, other),
{
    lemma_swap_remove_distinct(es, key);
    let fs = spec_delete_row(es, key).0;
    if has_key(es, key) {
        let i = key_index(es, key);
        let last = es.len() - 1;
        assert forall|j: int| 0 <= j < fs.len() implies #[trigger] fs[j] == es[if j == i { last } else { j }] by {}
        if has_key(fs, key) {
            let j = choose|j: int| 0 <= j < fs.len() && fs[j].0 == key;
            let jj = if j == i { last } else { j };
            assert(es[jj].0 == key);
        }
        if has_key(fs, other) {
            let j = choose|j: int| 0 <= j < fs.len() && fs[j].0 == other;
            let jj = if j == i { last } else { j };
            assert(es[jj].0 == other);
        }
        if has_key(es, other) {
            let j = key_index(es, other);
            assert(j != i);
            let jj = if j == last { i } else { j };
            assert(fs[jj] == es[j]);
            let a = key_index(fs, other);
            let aa = if a == i { last } else { a };
            assert(fs[a] == es[aa]);
            assert(aa == j);
        }
    }
}

/// After a value is cleared, reading it gives the empty value, when the row
/// cleared is not the header row.
pub proof fn law_colon_read_after_delete_item(
    es: Seq<(Seq<char>, Seq<Seq<char>>)>,
    key: Seq<char>,
    column: Seq<char>,
)
    requires
        distinct_keys(es),
        cell_in_bounds(es, key, column),
        spec_delete_item(es, key, column).1 == saved(),
        es[0].0 != key,
    ensures
        spec_select_item(spec_delete_item(es, key, column).0, key, column) == Ok::<Seq<char>, ColonError>(Seq::empty()),
{
    let h = header(es);
    lemma_position_of(h, column);
    let idx = position_of(h, column)->0;
    lemma_set_entry(es, key, row_of(es, key).update(idx, Seq::empty()));
}

/// The smaller of two integers.
pub open spec fn min_int(a: int, b: int) -> int {
    if a < b {
        a
    } else {
        b
    }
}

/// Whether `column` first appears in the header `h` at position `idx`.
pub open spec fn first_column_at(h: Seq<Seq<char>>, column: Seq<char>, idx: int) -> bool {
    &&& 0 <= idx < h.len()
    &&& h[idx] == column
    &&& forall|j: int| 0 <= j < idx ==> h[j] != column
}

/// A column that first appears at `idx` is found there.
proof fn lemma_first_column_at(h: Seq<Seq<char>>, column: Seq<char>, idx: int)
    requires
        first_column_at(h, column, idx),
    ensures
        position_of(h, column) == Some(idx),
{
    lemma_position_of(h, column);
    match position_of(h, column) {
        Some(i) => {
            if i < idx {
                assert(h[i] != column);
            }
            if idx < i {
                assert(h[idx] != column);
            }
        },
        None => {
            assert(h[idx] != column);
        },
    }
}

/// Taking every header position from a row keeps the row's first values,
/// as many as the header names.
proof fn lemma_project_all(row: Seq<Seq<char>>, m: nat)
    ensures
        project(row, Seq::new(m, |i: int| i)) == row.take(min_int(m as int, row.len() as int)),
    decreases m,
{
    let idxs = Seq::new(m, |i: int| i);
    let f = |i: int| if 0 <= i < row.len() { Some(row[i]) } else { None };
    if m == 0 {
        assert(idxs.filter_map(f) =~= Seq::<Seq<char>>::empty());
        assert(row.take(0) =~= Seq::<Seq<char>>::empty());
    } else {
        let k = (m - 1) as nat;
        lemma_project_all(row, k);
        assert(idxs.drop_last() =~= Seq::new(k, |i: int| i));
        assert(idxs.last() == k as int);
        assert(idxs.filter_map(f) == (match f(idxs.last()) {
            Some(x) => idxs.drop_last().filter_map(f) + seq![x],
            None => idxs.drop_last().filter_map(f),
        }));
        if (k as int) < row.len() {
            assert(row.take(k as int) + seq![row[k as int]] =~= row.take(m as int));
        }
    }
}

/// A selection over the row range `start..end` holds the rows at positions
/// `start` up to `end` or the end of the table, whichever comes first, in
/// order, with their keys; none when the range is empty or starts past the
/// last row. Without a range it holds every row.
pub proof fn law_select_data_rows(
    es: Seq<(Seq<char>, Seq<Seq<char>>)>,
    start: usize,
    end: usize,
    columns: Option<Seq<Seq<char>>>,
)
    ensures
        spec_select_data(es, Some(start..end), columns).len() == (if start < end && start < es.len() {
            min_int(end as int, es.len() as int) - start
        } else {
            0
        }),
        forall|i: int|
            0 <= i < spec_select_data(es, Some(start..end), columns).len() ==> (#[trigger] spec_select_data(
                es,
                Some(start..end),
                columns,
            )[i]).0 == es[start + i].0,
        spec_select_data(es, None, columns).len() == es.len(),
        forall|i: int|
            0 <= i < es.len() ==> (#[trigger] spec_select_data(es, None, columns)[i]).0 == es[i].0,
{
}

/// Selecting without naming columns keeps each selected row as it is, cut
/// to the length of the header.
pub proof fn law_select_data_all_columns(
    es: Seq<(Seq<char>, Seq<Seq<char>>)>,
    range: Option<core::ops::Range<usize>>,
    i: int,
    j: int,
)
    requires
        0 <= i < spec_select_data(es, range, None).len(),
        j == (match range {
            Some(r) => r.start + i,
            None => i,
        }),
    ensures
        spec_select_data(es, range, None)[i].0 == es[j].0,
        spec_select_data(es, range, None)[i].1 == es[j].1.take(min_int(header(es).len() as int, es[j].1.len() as int)),
{
    lemma_project_all(es[j].1, header(es).len());
}

/// Setting a value for a column of the header, when the row (the stored one,
/// or the new one of one empty value per header column) reaches that column,
/// goes through and is saved: the row then holds the value in that column and
/// its other values as before, every other row is unchanged, and reading the
/// key and column gives the value back (unless the row set is the header row
/// and the value renames the column).
pub proof fn law_insert_item_sets_cell(
    es: Seq<(Seq<char>, Seq<Seq<char>>)>,
    key: Seq<char>,
    column: Seq<char>,
    value: Seq<char>,
    idx: int,
)
    requires
        distinct_keys(es),
        first_column_at(header(es), column, idx),
        has_key(es, key) ==> idx < row_of(es, key).len(),
    ensures
        spec_insert_item(es, key, column, value).1 == (Outcome { save: true, problem: None }),
        has_key(spec_insert_item(es, key, column, value).0, key),
        row_of(spec_insert_item(es, key, column, value).0, key).len() == (if has_key(es, key) {
            row_of(es, key).len()
        } else {
            header(es).len()
        }),
        row_of(spec_insert_item(es, key, column, value).0, key)[idx] == value,
        forall|c: int|
            0 <= c < row_of(spec_insert_item(es, key, column, value).0, key).len() && c != idx
                ==> #[trigger] row_of(spec_insert_item(es, key, column, value).0, key)[c] == (if has_key(
                es,
                key,
            ) {
                row_of(es, key)[c]
            } else {
                Seq::<char>::empty()
            }),
        forall|q: Seq<char>|
            q != key ==> #[trigger] has_key(spec_insert_item(es, key, column, value).0, q) == has_key(es, q),
        forall|q: Seq<char>|
            q != key && has_key(es, q) ==> #[trigger] row_of(spec_insert_item(es, key, column, value).0, q)
                == row_of(es, q),
        es[0].0 != key || value == column ==> spec_select_item(spec_insert_item(es, key, column, value).0, key, column)
            == Ok::<Seq<char>, ColonError>(value),
{
    let h = header(es);
    lemma_first_column_at(h, column, idx);
    let row = if has_key(es, key) { row_of(es, key) } else { empty_row(h.len()) };
    let new_row = row.update(idx, value);
    let fs = set_entry(es, key, new_row);
    lemma_set_entry(es, key, new_row);
    assert(spec_insert_item(es, key, column, value).0 == fs);
    if es[0].0 != key || value == column {
        let h2 = header(fs);
        if es[0].0 == key {
            assert(h2 == new_row);
            assert(new_row =~= h.update(idx, value));
        } else {
            assert(h2 == h);
        }
        assert(first_column_at(h2, column, idx));
        lemma_first_column_at(h2, column, idx);
    }
}

/// A value can be set and saved exactly when its column is in the header and
/// the row (the stored one, or a new one as long as the header) reaches it.
pub proof fn law_insert_item_saved_when(
    es: Seq<(Seq<char>, Seq<Seq<char>>)>,
    key: Seq<char>,
    column: Seq<char>,
    value: Seq<char>,
)
    ensures
        (spec_insert_item(es, key, column, value).1 == (Outcome { save: true, problem: None })) == (exists|idx: int|
            #[trigger] first_column_at(header(es), column, idx) && (has_key(es, key) ==> idx < row_of(es, key).len())),
        (forall|idx: int| !#[trigger] first_column_at(header(es), column, idx)) ==> spec_insert_item(es, key, column, value)
            == (es, Outcome { save: false, problem: Some(ColonError::ColumnNotFound) }),
        forall|idx: int|
            #[trigger] first_column_at(header(es), column, idx) && has_key(es, key) && row_of(es, key).len() <= idx
                ==> spec_insert_item(es, key, column, value) == (
                es,
                Outcome { save: true, problem: Some(ColonError::IndexOutOfBounds) },
            ),
{
    let h = header(es);
    lemma_position_of(h, column);
    match position_of(h, column) {
        Some(idx) => {
            assert(first_column_at(h, column, idx));
            assert forall|i: int| #[trigger] first_column_at(h, column, i) implies i == idx by {
                lemma_first_column_at(h, column, i);
            }
        },
        None => {
            assert forall|i: int| !#[trigger] first_column_at(h, column, i) by {
                if first_column_at(h, column, i) {
                    assert(h[i] != column);
                }
            }
        },
    }
}

/// Deleting a column of the header clears, in every row that reaches it, the
/// value at the column's position, and only that value: keys, row lengths,
/// the order of rows and every other value stay as they were; the change is
/// saved.
pub proof fn law_delete_column_clears(es: Seq<(Seq<char>, Seq<Seq<char>>)>, column: Seq<char>, idx: int)
    requires
        first_column_at(header(es), column, idx),
    ensures
        spec_delete_column(es, column).1 == (Outcome { save: true, problem: None }),
        spec_delete_column(es, column).0.len() == es.len(),
        forall|j: int|
            0 <= j < es.len() ==> (#[trigger] spec_delete_column(es, column).0[j]).0 == es[j].0
                && spec_delete_column(es, column).0[j].1.len() == es[j].1.len(),
        forall|j: int, c: int|
            0 <= j < es.len() && 0 <= c < es[j].1.len() ==> #[trigger] spec_delete_column(es, column).0[j].1[c] == (if c
                == idx {
                Seq::<char>::empty()
            } else {
                es[j].1[c]
            }),
{
    lemma_first_column_at(header(es), column, idx);
}

/// Deleting a column that the header does not name changes nothing and is
/// refused.
pub proof fn law_delete_column_missing(es: Seq<(Seq<char>, Seq<Seq<char>>)>, column: Seq<char>)
    requires
        forall|j: int| 0 <= j < header(es).len() ==> header(es)[j] != column,
    ensures
        spec_delete_column(es, column) == (es, Outcome { save: false, problem: Some(ColonError::ColumnNotFound) }),
{
    lemma_position_of(header(es), column);
}

/// The printed table has two lines per row, in the table's order: row `j`
/// gives line `2 * j`, and its separator, a run of `'-'` as long as that
/// line, gives line `2 * j + 1`.
pub proof fn law_print_follows_rows(es: Seq<(Seq<char>, Seq<Seq<char>>)>, j: int)
    requires
        0 <= j < es.len(),
    ensures
        shown_table(es).len() == 2 * es.len(),
        shown_table(es)[2 * j] == shown_row(es[j]),
        shown_table(es)[2 * j + 1] == separator(shown_row(es[j])),
        shown_table(es)[2 * j + 1].len() == byte_len(shown_table(es)[2 * j]),
        forall|c: int| 0 <= c < shown_table(es)[2 * j + 1].len() ==> #[trigger] shown_table(es)[2 * j + 1][c] == '-',
    decreases es.len(),
{
    let init = es.drop_last();
    let n = es.len() - 1;
    if j < n {
        law_print_follows_rows(init, j);
        assert(init[j] == es[j]);
    } else if n > 0 {
        law_print_follows_rows(init, 0);
    } else {
        assert(init.len() == 0);
        assert(shown_table(init) == Seq::<Seq<char>>::empty());
    }
}

/// Filtering with a map that keeps every item is mapping.
proof fn lemma_filter_map_all<A, B>(s: Seq<A>, f: spec_fn(A) -> Option<B>)
    requires
        forall|i: int| 0 <= i < s.len() ==> (#[trigger] f(s[i])) is Some,
    ensures
        s.filter_map(f) == s.map_values(|a: A| f(a)->0),
    decreases s.len(),
{
    if s.len() == 0 {
        assert(s.filter_map(f) =~= Seq::<B>::empty());
        assert(s.map_values(|a: A| f(a)->0) =~= Seq::<B>::empty());
    } else {
        let init = s.drop_last();
        assert forall|i: int| 0 <= i < init.len() implies (#[trigger] f(init[i])) is Some by {
            assert(init[i] == s[i]);
        }
        lemma_filter_map_all(init, f);
        assert(f(s[s.len() - 1]) is Some);
        assert(s.filter_map(f) == (match f(s.last()) {
            Some(x) => init.filter_map(f) + seq![x],
            None => init.filter_map(f),
        }));
        assert(s.map_values(|a: A| f(a)->0) =~= init.map_values(|a: A| f(a)->0) + seq![f(s.last())->0]);
    }
}

/// Selecting named columns, all in the header and all reached by a selected
/// row, gives that row one value per name, in the order named: the row's
/// value at the position where the header names it.
pub proof fn law_select_data_named_columns(
    es: Seq<(Seq<char>, Seq<Seq<char>>)>,
    range: Option<core::ops::Range<usize>>,
    cs: Seq<Seq<char>>,
    i: int,
    j: int,
)
    requires
        0 <= i < spec_select_data(es, range, Some(cs)).len(),
        j == (match range {
            Some(r) => r.start + i,
            None => i,
        }),
        forall|q: int|
            #![trigger cs[q]]
            0 <= q < cs.len() ==> exists|p: int| #[trigger] first_column_at(header(es), cs[q], p) && p < es[j].1.len(),
    ensures
        spec_select_data(es, range, Some(cs))[i].0 == es[j].0,
        spec_select_data(es, range, Some(cs))[i].1.len() == cs.len(),
        forall|q: int, p: int|
            0 <= q < cs.len() && #[trigger] first_column_at(header(es), cs[q], p) ==> spec_select_data(
                es,
                range,
                Some(cs),
            )[i].1[q] == es[j].1[p],
{
    let h = header(es);
    let row = es[j].1;
    let g = |c: Seq<char>| position_of(h, c);
    let f = |p: int| if 0 <= p < row.len() { Some(row[p]) } else { None };
    assert forall|q: int| 0 <= q < cs.len() implies (#[trigger] g(cs[q])) is Some && 0 <= g(cs[q])->0 < row.len() by {
        let p = choose|p: int| #[trigger] first_column_at(h, cs[q], p) && p < row.len();
        lemma_first_column_at(h, cs[q], p);
    }
    lemma_filter_map_all(cs, g);
    let idxs = cs.map_values(|c: Seq<char>| g(c)->0);
    assert(selected_columns(h, Some(cs)) == idxs);
    assert forall|q: int| 0 <= q < idxs.len() implies (#[trigger] f(idxs[q])) is Some by {
        assert(idxs[q] == g(cs[q])->0);
        assert(0 <= g(cs[q])->0 < row.len());
    }
    lemma_filter_map_all(idxs, f);
    assert(project(row, idxs) == idxs.map_values(|p: int| f(p)->0));
    assert forall|q: int, p: int| 0 <= q < cs.len() && #[trigger] first_column_at(h, cs[q], p) implies project(
        row,
        idxs,
    )[q] == row[p] by {
        lemma_first_column_at(h, cs[q], p);
        assert(g(cs[q]) == Some(p));
        assert(idxs[q] == p);
        assert(0 <= p < row.len());
        assert(project(row, idxs)[q] == f(idxs[q])->0);
    }
}

/// Setting a whole row with one value per header column goes through and is
/// saved: the key then holds exactly that row and every other key keeps its
/// row. A row of another length is refused and changes nothing.
pub proof fn law_insert_row_sets_row(
    es: Seq<(Seq<char>, Seq<Seq<char>>)>,
    key: Seq<char>,
    row: Seq<Seq<char>>,
)
    requires
        distinct_keys(es),
    ensures
        row.len() == header(es).len() ==> {
            &&& spec_insert_row(es, key, row).1 == (Outcome { save: true, problem: None })
            &&& has_key(spec_insert_row(es, key, row).0, key)
            &&& row_of(spec_insert_row(es, key, row).0, key) == row
            &&& forall|q: Seq<char>|
                q != key ==> #[trigger] has_key(spec_insert_row(es, key, row).0, q) == has_key(es, q)
            &&& forall|q: Seq<char>|
                q != key && has_key(es, q) ==> #[trigger] row_of(spec_insert_row(es, key, row).0, q) == row_of(es, q)
        },
        row.len() != header(es).len() ==> spec_insert_row(es, key, row).0 == es
            && !spec_insert_row(es, key, row).1.save && spec_insert_row(es, key, row).1.problem is Some,
{
    lemma_set_entry(es, key, row);
}

/// Clearing a value of a stored row, at a column of the header that the row
/// reaches, goes through and is saved: that value becomes empty and every
/// other value and row stays. A missing key is refused and changes nothing.
pub proof fn law_delete_item_clears(
    es: Seq<(Seq<char>, Seq<Seq<char>>)>,
    key: Seq<char>,
    column: Seq<char>,
    idx: int,
)
    requires
        distinct_keys(es),
        first_column_at(header(es), column, idx),
    ensures
        has_key(es, key) && idx < row_of(es, key).len() ==> {
            &&& spec_delete_item(es, key, column).1 == (Outcome { save: true, problem: None })
            &&& has_key(spec_delete_item(es, key, column).0, key)
            &&& row_of(spec_delete_item(es, key, column).0, key).len() == row_of(es, key).len()
            &&& row_of(spec_delete_item(es, key, column).0, key)[idx] == Seq::<char>::empty()
            &&& forall|c: int|
                0 <= c < row_of(es, key).len() && c != idx ==> #[trigger] row_of(
                    spec_delete_item(es, key, column).0,
                    key,
                )[c] == row_of(es, key)[c]
            &&& forall|q: Seq<char>|
                q != key ==> #[trigger] has_key(spec_delete_item(es, key, column).0, q) == has_key(es, q)
            &&& forall|q: Seq<char>|
                q != key && has_key(es, q) ==> #[trigger] row_of(spec_delete_item(es, key, column).0, q) == row_of(
                    es,
                    q,
                )
        },
        !has_key(es, key) ==> spec_delete_item(es, key, column) == (
            es,
            Outcome { save: false, problem: Some(ColonError::KeyNotFound) },
        ),
{
    lemma_first_column_at(header(es), column, idx);
    if has_key(es, key) {
        lemma_set_entry(es, key, row_of(es, key).update(idx, Seq::empty()));
    }
}

/// Removing a stored row is saved; removing a missing one is refused and
/// changes nothing.
pub proof fn law_delete_row_outcome(es: Seq<(Seq<char>, Seq<Seq<char>>)>, key: Seq<char>)
    ensures
        has_key(es, key) ==> spec_delete_row(es, key).1 == (Outcome { save: true, problem: None }),
        !has_key(es, key) ==> spec_delete_row(es, key) == (
            es,
            Outcome { save: false, problem: Some(ColonError::KeyNotFound) },
        ),
{
}

} // verus!
