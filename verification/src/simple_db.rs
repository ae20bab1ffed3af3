//! `SimpleDB`: a key/value store whose file holds one `key:value` line per
//! entry.
//!
//! The store keeps its entries in a vector without repeated keys; what a
//! caller sees is the map from keys to values (`SimpleDB::contents`). A
//! vector is used rather than a `HashMap<String, String>` because vstd's
//! `HashMap` specifications hold only for key types known to obey its key
//! model, which `String` is not, and because saving and loading walk the
//! entries, which vstd's `StringHashMap` cannot do. Reading
//! and writing the file is left to the caller: `find_database` takes the text
//! that the file held, and `file_text` gives the text that the file is to hold.

use vstd::prelude::*;
use crate::keyed::{
    as_map, distinct_keys, has_key, lemma_as_map_at, lemma_as_map_push, lemma_as_map_remove, lemma_as_map_update,
    lemma_key_index, remove_entry, set_entry,
};
use crate::text::{
    append_str, has_char, lemma_lines_terminated, lemma_split_once_joined, lines, pairs_view, push_char, split_once,
    split_once_at, strip_cr, terminated, text_lines, views,
};

verus! {

/// The map that the lines of a store file describe: each line that holds a
/// `':'` maps the text before its first `':'` to the text after it, and a
/// later line for the same key replaces an earlier one. Other lines are
/// skipped.
pub open spec fn simple_load(ls: Seq<Seq<char>>) -> Map<Seq<char>, Seq<char>>
    decreases ls.len(),
{
    if ls.len() == 0 {
        Map::empty()
    } else {
        let m = simple_load(ls.drop_last());
        match split_once(ls.last(), ':') {
            Some((k, v)) => m.insert(k, v),
            None => m,
        }
    }
}

/// The entries that the lines of a store file give, in order: as
/// `simple_load`, with a repeated key keeping the place of its first line.
pub open spec fn simple_load_entries(ls: Seq<Seq<char>>) -> Seq<(Seq<char>, Seq<char>)>
    decreases ls.len(),
{
    if ls.len() == 0 {
        Seq::empty()
    } else {
        let es = simple_load_entries(ls.drop_last());
        match split_once(ls.last(), ':') {
            Some((k, v)) => set_entry(es, k, v),
            None => es,
        }
    }
}

/// The line that stores one entry.
pub open spec fn simple_line(e: (Seq<char>, Seq<char>)) -> Seq<char> {
    e.0 + seq![':'] + e.1
}

/// The text of a store file holding the given entries, one line each.
pub open spec fn simple_text(es: Seq<(Seq<char>, Seq<char>)>) -> Seq<char> {
    terminated(es.map_values(|e: (Seq<char>, Seq<char>)| simple_line(e)))
}

/// A key/value store backed by a text file.
pub struct SimpleDB {
    data: Vec<(String, String)>,
    filename: String,
}

impl SimpleDB {
    /// The entries, in the order in which they are stored.
    pub closed spec fn entries(&self) -> Seq<(Seq<char>, Seq<char>)> {
        pairs_view(self.data@)
    }

    /// The keys and their values.
    pub open spec fn contents(&self) -> Map<Seq<char>, Seq<char>> {
        as_map(self.entries())
    }

    /// The name of the file that backs the store.
    pub closed spec fn file_name_view(&self) -> Seq<char> {
        self.filename@
    }

    /// The store's invariant: no key is stored twice.
    pub open spec fn wf(&self) -> bool {
        distinct_keys(self.entries())
    }

    /// The position of `key` among the entries, if it is there.
    fn position(&self, key: &String) -> (r: Option<usize>)
        requires
            self.wf(),
        ensures
            match r {
                Some(i) => i < self.entries().len() && self.entries()[i as int].0 == key@,
                None => !has_key(self.entries(), key@),
            },
    {
        let n = self.data.len();
        let mut i: usize = 0;
        while i < n
            invariant
                i <= n == self.data@.len(),
                forall|j: int| 0 <= j < i ==> self.entries()[j].0 != key@,
            decreases n - i,
        {
            if self.data[i].0 == *key {
                return Some(i);
            }
            i = i + 1;
        }
        None
    }

    /// Opens the store named `file_name`. `text` is what the file holds, or
    /// `None` when there is no such file (the store is then empty).
    pub fn find_database(file_name: &str, text: Option<&str>) -> (db: SimpleDB)
        ensures
            db.wf(),
            db.file_name_view() == file_name@,
            db.entries() == match text {
                Some(t) => simple_load_entries(lines(t@)),
                None => Seq::empty(),
            },
            db.contents() == match text {
                Some(t) => simple_load(lines(t@)),
                None => Map::empty(),
            },
    {
        let mut db = SimpleDB { data: Vec::new(), filename: file_name.to_owned() };
        assert(db.contents() =~= Map::empty());
        assert(db.entries() =~= Seq::empty());
        match text {
            None => db,
            Some(t) => {
                let ls = text_lines(t);
                let ghost lv = views(ls@);
                let mut i: usize = 0;
                while i < ls.len()
                    invariant
                        i <= ls@.len(),
                        lv == views(ls@),
                        lv == lines(t@),
                        db.wf(),
                        db.file_name_view() == file_name@,
                        db.contents() == simple_load(lv.take(i as int)),
                        db.entries() == simple_load_entries(lv.take(i as int)),
                    decreases ls.len() - i,
                {
                    assert(lv.take(i + 1).drop_last() =~= lv.take(i as int));
                    assert(lv.take(i + 1).last() == ls@[i as int]@);
                    match split_once_at(ls[i].as_str(), ':') {
                        Some((k, v)) => {
                            db.insert_into_db(k, v);
                        },
                        None => {},
                    }
                    i = i + 1;
                }
                assert(lv.take(ls.len() as int) =~= lv);
                db
            },
        }
    }

    /// Sets `key` to `value`.
    pub fn insert_into_db(&mut self, key: String, value: String)
        requires
            old(self).wf(),
        ensures
            final(self).wf(),
            final(self).file_name_view() == old(self).file_name_view(),
            final(self).entries() == set_entry(old(self).entries(), key@, value@),
            final(self).contents() == old(self).contents().insert(key@, value@),
    {
        let ghost old_es = self.entries();
        match self.position(&key) {
            Some(i) => {
                let k = self.data[i].0.clone();
                self.data.set(i, (k, value));
                proof {
                    let es = self.entries();
                    assert(es =~= old_es.update(i as int, (key@, value@)));
                    lemma_as_map_update(old_es, i as int, value@);
                    lemma_key_index(old_es, i as int);
                }
            },
            None => {
                self.data.push((key, value));
                proof {
                    let es = self.entries();
                    assert(es =~= old_es.push((key@, value@)));
                    lemma_as_map_push(old_es, key@, value@);
                }
            },
        }
    }

    /// The value stored for `key`.
    pub fn get_value_from_db(&self, key: &str) -> (r: Option<&String>)
        requires
            self.wf(),
        ensures
            match r {
                Some(v) => self.contents().contains_key(key@) && v@ == self.contents()[key@],
                None => !self.contents().contains_key(key@),
            },
    {
        let k = key.to_owned();
        match self.position(&k) {
            Some(i) => {
                proof {
                    lemma_as_map_at(self.entries(), i as int);
                }
                Some(&self.data[i].1)
            },
            None => None,
        }
    }

    /// Removes `key` and its value, if present.
    pub fn delete_from_db(&mut self, key: &str)
        requires
            old(self).wf(),
        ensures
            final(self).wf(),
            final(self).file_name_view() == old(self).file_name_view(),
            final(self).entries() == remove_entry(old(self).entries(), key@),
            final(self).contents() == old(self).contents().remove(key@),
    {
        let ghost old_es = self.entries();
        let k = key.to_owned();
        match self.position(&k) {
            Some(i) => {
                self.data.remove(i);
                proof {
                    assert(self.entries() =~= old_es.remove(i as int));
                    lemma_as_map_remove(old_es, i as int);
                    lemma_key_index(old_es, i as int);
                }
            },
            None => {
                assert(as_map(old_es) =~= as_map(old_es).remove(key@));
            },
        }
    }

    /// The text that the store's file is to hold: one `key:value` line per
    /// entry, each closed by a `'\n'`.
    pub fn file_text(&self) -> (r: String)
        ensures
            r@ == simple_text(self.entries()),
    {
        let ghost es = self.entries();
        let ghost ls = es.map_values(|e: (Seq<char>, Seq<char>)| simple_line(e));
        let n = self.data.len();
        let mut r = String::new();
        let mut i: usize = n;
        assert(terminated(ls.subrange(n as int, n as int)) =~= Seq::<char>::empty());
        while i > 0
            invariant
                i <= n == self.data@.len(),
                es == self.entries(),
                ls == es.map_values(|e: (Seq<char>, Seq<char>)| simple_line(e)),
                r@ == terminated(ls.subrange(i as int, n as int)),
            decreases i,
        {
            i = i - 1;
            let mut line = self.data[i].0.clone();
            push_char(&mut line, ':');
            append_str(&mut line, self.data[i].1.as_str());
            push_char(&mut line, '\n');
            append_str(&mut line, r.as_str());
            proof {
                let sub = ls.subrange(i as int, n as int);
                assert(sub.drop_first() =~= ls.subrange(i + 1, n as int));
                assert(sub[0] == simple_line(es[i as int]));
                assert(line@ =~= sub[0] + seq!['\n'] + terminated(sub.drop_first()));
            }
            r = line;
        }
        assert(ls.subrange(0, n as int) =~= ls);
        r
    }

    /// A copy of the entries, in the order in which they are stored.
    pub fn entry_pairs(&self) -> (r: Vec<(String, String)>)
        ensures
            pairs_view(r@) == self.entries(),
    {
        let mut r: Vec<(String, String)> = Vec::new();
        let mut i: usize = 0;
        while i < self.data.len()
            invariant
                i <= self.data@.len(),
                pairs_view(r@) == self.entries().take(i as int),
            decreases self.data.len() - i,
        {
            let e = (self.data[i].0.clone(), self.data[i].1.clone());
            let ghost before = r@;
            r.push(e);
            assert(pairs_view(r@) =~= pairs_view(before).push((e.0@, e.1@)));
            assert(self.entries().take(i + 1) =~= self.entries().take(i as int).push(self.entries()[i as int]));
            i = i + 1;
        }
        assert(self.entries().take(self.data.len() as int) =~= self.entries());
        r
    }

    /// The name of the file that backs the store.
    pub fn file_name(&self) -> (r: &String)
        ensures
            r@ == self.file_name_view(),
    {
        &self.filename
    }
}

/// Whether a list of entries can be written to a store file and read back:
/// no key holds a `':'` or a `'\n'`, no value holds a `'\n'` or ends with a
/// `'\r'`.
pub open spec fn simple_storable(es: Seq<(Seq<char>, Seq<char>)>) -> bool {
    forall|i: int|
        0 <= i < es.len() ==> {
            &&& !has_char(#[trigger] es[i].0, ':')
            &&& !has_char(es[i].0, '\n')
            &&& !has_char(es[i].1, '\n')
            &&& (es[i].1.len() == 0 || es[i].1.last() != '\r')
        }
}

/// A store read back from the text that `file_text` gave holds the same
/// entries in the same order, and so the same keys and values, when the
/// entries are storable.
pub proof fn law_simple_file_round_trip(es: Seq<(Seq<char>, Seq<char>)>)
    requires
        distinct_keys(es),
        simple_storable(es),
    ensures
        simple_load_entries(lines(simple_text(es))) == es,
        simple_load(lines(simple_text(es))) == as_map(es),
{
    let ls = es.map_values(|e: (Seq<char>, Seq<char>)| simple_line(e));
    assert forall|i: int| 0 <= i < ls.len() implies !has_char(#[trigger] ls[i], '\n') && strip_cr(ls[i]) == ls[i] by {
        let (k, v) = es[i];
        assert(ls[i] == k + seq![':'] + v);
        if has_char(ls[i], '\n') {
            let j = choose|j: int| 0 <= j < ls[i].len() && ls[i][j] == '\n';
            if j < k.len() {
                assert(k[j] == '\n');
            } else if j > k.len() {
                assert(v[j - k.len() - 1] == '\n');
            }
        }
        if v.len() > 0 {
            assert(ls[i].last() == v.last());
        }
    }
    lemma_lines_terminated(ls);
    lemma_simple_load_lines(es);
}

proof fn lemma_simple_load_lines(es: Seq<(Seq<char>, Seq<char>)>)
    requires
        distinct_keys(es),
        simple_storable(es),
    ensures
        simple_load(es.map_values(|e: (Seq<char>, Seq<char>)| simple_line(e))) == as_map(es),
        simple_load_entries(es.map_values(|e: (Seq<char>, Seq<char>)| simple_line(e))) == es,
    decreases es.len(),
{
    let ls = es.map_values(|e: (Seq<char>, Seq<char>)| simple_line(e));
    if es.len() == 0 {
        assert(as_map(es) =~= Map::empty());
        assert(simple_load_entries(ls) =~= es);
    } else {
        let front = es.drop_last();
        let (k, v) = es.last();
        assert(ls.drop_last() =~= front.map_values(|e: (Seq<char>, Seq<char>)| simple_line(e)));
        assert forall|a: int, b: int| 0 <= a < front.len() && 0 <= b < front.len() && a != b implies front[a].0 != front[b].0 by {
            assert(front[a] == es[a] && front[b] == es[b]);
        }
        assert forall|i: int| 0 <= i < front.len() implies {
            &&& !has_char(#[trigger] front[i].0, ':')
            &&& !has_char(front[i].0, '\n')
            &&& !has_char(front[i].1, '\n')
            &&& (front[i].1.len() == 0 || front[i].1.last() != '\r')
        } by {
            assert(front[i] == es[i]);
        }
        lemma_simple_load_lines(front);
        assert(!has_char(es[es.len() - 1].0, ':'));
        lemma_split_once_joined(k, v, ':');
        assert(ls.last() == k + seq![':'] + v);
        assert(!has_key(front, k)) by {
            if has_key(front, k) {
                let j = choose|j: int| 0 <= j < front.len() && front[j].0 == k;
                assert(es[j].0 == es[es.len() - 1].0);
            }
        }
        lemma_as_map_push(front, k, v);
        assert(front.push((k, v)) =~= es);
    }
}

/// After `key` is set to `value`, reading `key` gives `value`, and every
/// other key reads as before.
pub proof fn law_simple_read_after_insert(
    m: Map<Seq<char>, Seq<char>>,
    key: Seq<char>,
    value: Seq<char>,
    other: Seq<char>,
)
    requires
        other != key,
    ensures
        m.insert(key, value).contains_key(key),
        m.insert(key, value)[key] == value,
        m.insert(key, value).contains_key(other) == m.contains_key(other),
        m.contains_key(other) ==> m.insert(key, value)[other] == m[other],
{
}

/// After `key` is deleted, reading it finds nothing, and every other key
/// reads as before.
pub proof fn law_simple_read_after_delete(
    m: Map<Seq<char>, Seq<char>>,
    key: Seq<char>,
    other: Seq<char>,
)
    requires
        other != key,
    ensures
        !m.remove(key).contains_key(key),
        m.remove(key).contains_key(other) == m.contains_key(other),
        m.contains_key(other) ==> m.remove(key)[other] == m[other],
{
}

} // verus!
