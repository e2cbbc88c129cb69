//! An ordered set of (column, value) pairs, as a statement lists them.
use vstd::prelude::*;
use crate::text::{chars_of, join, seq_join, views};

verus! {

/// The view of a column list: (column, value) pairs in the order they are written.
pub open spec fn keys_distinct(entries: Seq<(Seq<char>, Seq<char>)>) -> bool {
    forall|i: int, j: int|
        0 <= i < entries.len() && 0 <= j < entries.len() && i != j ==> entries[i].0 != entries[j].0
}

/// Columns and their values, each column at most once.
pub struct ColumnValues {
    entries: Vec<(String, String)>,
}

impl View for ColumnValues {
    type V = Seq<(Seq<char>, Seq<char>)>;

    closed spec fn view(&self) -> Seq<(Seq<char>, Seq<char>)> {
        self.entries@.map_values(|p: (String, String)| (p.0@, p.1@))
    }
}

/// The view of a list of (column, value) pairs.
pub open spec fn pairs_view(p: Seq<(String, String)>) -> Seq<(Seq<char>, Seq<char>)> {
    p.map_values(|e: (String, String)| (e.0@, e.1@))
}

/// The columns of a column list, in order.
pub open spec fn column_names(v: Seq<(Seq<char>, Seq<char>)>) -> Seq<Seq<char>> {
    v.map_values(|p: (Seq<char>, Seq<char>)| p.0)
}

/// The values of a column list, in order.
pub open spec fn column_values(v: Seq<(Seq<char>, Seq<char>)>) -> Seq<Seq<char>> {
    v.map_values(|p: (Seq<char>, Seq<char>)| p.1)
}

/// The position of `column` in a column list, if it is there.
pub open spec fn position_of(v: Seq<(Seq<char>, Seq<char>)>, column: Seq<char>) -> Option<int> {
    if exists|i: int| 0 <= i < v.len() && v[i].0 == column {
        Some(choose|i: int| 0 <= i < v.len() && v[i].0 == column)
    } else {
        None
    }
}

/// A column list after setting `column` to `value`: the value is replaced in
/// place where the column is present, and the pair is appended where not.
pub open spec fn with_column(v: Seq<(Seq<char>, Seq<char>)>, column: Seq<char>, value: Seq<char>)
    -> Seq<(Seq<char>, Seq<char>)> {
    match position_of(v, column) {
        Some(i) => v.update(i, (column, value)),
        None => v.push((column, value)),
    }
}

/// A column list without `column`.
pub open spec fn without_column(v: Seq<(Seq<char>, Seq<char>)>, column: Seq<char>) -> Seq<(Seq<char>, Seq<char>)> {
    match position_of(v, column) {
        Some(i) => v.remove(i),
        None => v,
    }
}

impl ColumnValues {
    #[verifier::type_invariant]
    closed spec fn inv(self) -> bool {
        keys_distinct(self@)
    }

    /// An empty column list.
    pub fn new() -> (c: ColumnValues)
        ensures
            c@ == Seq::<(Seq<char>, Seq<char>)>::empty(),
    {
        let c = ColumnValues { entries: Vec::new() };
        assert(c@ =~= Seq::<(Seq<char>, Seq<char>)>::empty());
        c
    }

    /// The column list of `pairs`, in order; no column may occur twice.
    pub fn from_pairs(pairs: Vec<(String, String)>) -> (c: ColumnValues)
        requires
            keys_distinct(pairs_view(pairs@)),
        ensures
            c@ == pairs_view(pairs@),
    {
        let ghost target = pairs_view(pairs@);
        let mut c = ColumnValues::new();
        let mut i: usize = 0;
        while i < pairs.len()
            invariant
                i <= pairs@.len(),
                target == pairs_view(pairs@),
                keys_distinct(target),
                c@ == target.take(i as int),
            decreases pairs.len() - i,
        {
            let ghost before = c@;
            let value = pairs[i].1.clone();
            assert(value@ == target[i as int].1);
            assert forall|k: int| 0 <= k < before.len() implies (#[trigger] before[k]).0 != target[i as int].0 by {
                assert(before[k] == target[k]);
            }
            c.insert(pairs[i].0.as_str(), value);
            proof {
                lemma_with_new_column(before, target[i as int].0, target[i as int].1);
            }
            assert(c@ =~= target.take(i + 1));
            i = i + 1;
        }
        assert(target.take(i as int) =~= target);
        c
    }

    /// The number of columns.
    pub fn len(&self) -> (n: usize)
        ensures
            n == self@.len(),
    {
        self.entries.len()
    }

    /// The column at position `i`.
    pub fn column(&self, i: usize) -> (c: &String)
        requires
            i < self@.len(),
        ensures
            c@ == self@[i as int].0,
    {
        &self.entries[i].0
    }

    /// The value at position `i`.
    pub fn value(&self, i: usize) -> (v: &String)
        requires
            i < self@.len(),
        ensures
            v@ == self@[i as int].1,
    {
        &self.entries[i].1
    }

    /// Where `column` stands, if it is there.
    pub fn find(&self, column: &str) -> (r: Option<usize>)
        ensures
            r is Some <==> position_of(self@, column@) is Some,
            r matches Some(i) ==> i < self@.len() && self@[i as int].0 == column@,
            r matches Some(i) ==> position_of(self@, column@) == Some(i as int),
    {
        proof {
            use_type_invariant(self);
        }
        let mut i: usize = 0;
        while i < self.entries.len()
            invariant
                i <= self@.len(),
                self@.len() == self.entries@.len(),
                forall|j: int| 0 <= j < i ==> self@[j].0 != column@,
                keys_distinct(self@),
            decreases self.entries.len() - i,
        {
            let c: &str = self.entries[i].0.as_str();
            if str_equal(c, column) {
                assert(self@[i as int].0 == column@);
                let ghost k = choose|k: int| 0 <= k < self@.len() && self@[k].0 == column@;
                assert(k == i);
                return Some(i);
            }
            i = i + 1;
        }
        None
    }

    /// The value of `column`, if the column is there.
    pub fn get(&self, column: &str) -> (r: Option<&String>)
        ensures
            r is Some <==> position_of(self@, column@) is Some,
            r matches Some(v) ==> v@ == self@[position_of(self@, column@)->0].1,
    {
        match self.find(column) {
            Some(i) => Some(&self.entries[i].1),
            None => None,
        }
    }

    /// The (column, value) pairs, in order.
    pub fn pairs(&self) -> (pairs: Vec<(String, String)>)
        ensures
            pairs_view(pairs@) == self@,
            keys_distinct(self@),
    {
        proof {
            use_type_invariant(self);
        }
        let mut pairs: Vec<(String, String)> = Vec::new();
        let mut i: usize = 0;
        while i < self.entries.len()
            invariant
                i <= self.entries@.len(),
                self@.len() == self.entries@.len(),
                pairs@.len() == i,
                forall|k: int| 0 <= k < i ==> (#[trigger] pairs@[k]).0@ == self@[k].0 && pairs@[k].1@ == self@[k].1,
            decreases self.entries.len() - i,
        {
            let c = self.entries[i].0.clone();
            let v = self.entries[i].1.clone();
            assert(c@ == self@[i as int].0 && v@ == self@[i as int].1);
            pairs.push((c, v));
            i = i + 1;
        }
        assert(pairs_view(pairs@) =~= self@);
        pairs
    }

    /// The columns, in order.
    pub fn names(&self) -> (names: Vec<String>)
        ensures
            views(names@) == column_names(self@),
            forall|i: int, j: int| 0 <= i < names@.len() && 0 <= j < names@.len() && i != j
                ==> names@[i]@ != names@[j]@,
    {
        proof {
            use_type_invariant(self);
        }
        let mut names: Vec<String> = Vec::new();
        let mut i: usize = 0;
        while i < self.entries.len()
            invariant
                i <= self.entries@.len(),
                self@.len() == self.entries@.len(),
                views(names@) == column_names(self@).take(i as int),
                names@.len() == i,
            decreases self.entries.len() - i,
        {
            let name = self.entries[i].0.clone();
            assert(self@[i as int].0 == name@);
            let ghost prev = names@;
            names.push(name);
            assert(names@ == prev.push(name));
            assert forall|k: int| 0 <= k < i + 1 implies #[trigger] views(names@)[k] == column_names(self@).take(i + 1)[k] by {
                if k < i {
                    assert(views(prev)[k] == column_names(self@).take(i as int)[k]);
                }
            }
            assert(views(names@) =~= column_names(self@).take(i + 1));
            i = i + 1;
        }
        assert(column_names(self@).take(i as int) =~= column_names(self@));
        assert forall|a: int, b: int| 0 <= a < names@.len() && 0 <= b < names@.len() && a != b
            implies names@[a]@ != names@[b]@ by {
            assert(views(names@)[a] == self@[a].0);
            assert(views(names@)[b] == self@[b].0);
        }
        names
    }

    /// The values, in order.
    pub fn values(&self) -> (values: Vec<String>)
        ensures
            views(values@) == column_values(self@),
    {
        let mut values: Vec<String> = Vec::new();
        let mut i: usize = 0;
        while i < self.entries.len()
            invariant
                i <= self.entries@.len(),
                self@.len() == self.entries@.len(),
                views(values@) == column_values(self@).take(i as int),
                values@.len() == i,
            decreases self.entries.len() - i,
        {
            let value = self.entries[i].1.clone();
            assert(self@[i as int].1 == value@);
            let ghost prev = values@;
            values.push(value);
            assert(values@ == prev.push(value));
            assert forall|k: int| 0 <= k < i + 1 implies #[trigger] views(values@)[k] == column_values(self@).take(i + 1)[k] by {
                if k < i {
                    assert(views(prev)[k] == column_values(self@).take(i as int)[k]);
                }
            }
            assert(views(values@) =~= column_values(self@).take(i + 1));
            i = i + 1;
        }
        assert(column_values(self@).take(i as int) =~= column_values(self@));
        values
    }

    /// The columns, `sep` between neighbours.
    pub fn joined_names(&self, sep: &str) -> (s: String)
        ensures
            s@ == seq_join(column_names(self@), sep@),
    {
        join(&self.names(), sep)
    }

    /// The values, `sep` between neighbours.
    pub fn joined_values(&self, sep: &str) -> (s: String)
        ensures
            s@ == seq_join(column_values(self@), sep@),
    {
        join(&self.values(), sep)
    }

    /// Takes `column` out of the list, as `HashMap::remove` does; the other
    /// columns keep their order.
    pub fn remove(&mut self, column: &str)
        ensures
            final(self)@ == without_column(old(self)@, column@),
    {
        proof {
            use_type_invariant(&*self);
        }
        let pos = self.find(column);
        match pos {
            Some(i) => {
                let mut entries: Vec<(String, String)> = Vec::new();
                std::mem::swap(&mut entries, &mut self.entries);
                let ghost before = entries@.map_values(|p: (String, String)| (p.0@, p.1@));
                let _ = entries.remove(i);
                assert(entries@.map_values(|p: (String, String)| (p.0@, p.1@)) =~= before.remove(i as int));
                proof {
                    lemma_remove_distinct(before, i as int);
                }
                self.entries = entries;
            },
            None => {},
        }
    }

    /// Sets `column` to `value`, as `HashMap::insert` does.
    pub fn insert(&mut self, column: &str, value: String)
        ensures
            final(self)@ == with_column(old(self)@, column@, value@),
    {
        proof {
            use_type_invariant(&*self);
        }
        let pos = self.find(column);
        let mut entries: Vec<(String, String)> = Vec::new();
        std::mem::swap(&mut entries, &mut self.entries);
        let ghost before = entries@.map_values(|p: (String, String)| (p.0@, p.1@));
        let ghost target = with_column(before, column@, value@);
        match pos {
            Some(i) => {
                entries.set(i, (column.to_string(), value));
            },
            None => {
                entries.push((column.to_string(), value));
            },
        }
        assert(entries@.map_values(|p: (String, String)| (p.0@, p.1@)) =~= target);
        proof {
            lemma_with_column_distinct(before, column@, value@);
        }
        self.entries = entries;
    }
}

pub proof fn lemma_with_column_distinct(v: Seq<(Seq<char>, Seq<char>)>, column: Seq<char>, value: Seq<char>)
    requires
        keys_distinct(v),
    ensures
        keys_distinct(with_column(v, column, value)),
        with_column(v, column, value).len() == v.len() + (if position_of(v, column) is Some { 0int } else { 1int }),
{
    if position_of(v, column) is Some {
        let i = choose|i: int| 0 <= i < v.len() && v[i].0 == column;
        assert(position_of(v, column) == Some(i));
    }
}

/// Whether two strings are the same text, character by character.
pub(crate) fn str_equal(a: &str, b: &str) -> (r: bool)
    ensures
        r == (a@ == b@),
{
    let x = chars_of(a);
    let y = chars_of(b);
    if x.len() != y.len() {
        return false;
    }
    let mut i: usize = 0;
    while i < x.len()
        invariant
            x@ == a@,
            y@ == b@,
            x@.len() == y@.len(),
            i <= x@.len(),
            forall|k: int| 0 <= k < i ==> x@[k] == y@[k],
        decreases x.len() - i,
    {
        if x[i] != y[i] {
            assert(a@[i as int] != b@[i as int]);
            return false;
        }
        i = i + 1;
    }
    assert(a@ =~= b@);
    true
}


/// Setting a column that is not in the list appends it.
pub proof fn lemma_with_new_column(v: Seq<(Seq<char>, Seq<char>)>, column: Seq<char>, value: Seq<char>)
    requires
        forall|i: int| 0 <= i < v.len() ==> (#[trigger] v[i]).0 != column,
    ensures
        with_column(v, column, value) == v.push((column, value)),
{
}


pub proof fn lemma_remove_distinct(v: Seq<(Seq<char>, Seq<char>)>, i: int)
    requires
        keys_distinct(v),
        0 <= i < v.len(),
    ensures
        keys_distinct(v.remove(i)),
{
    let r = v.remove(i);
    assert forall|a: int, b: int| 0 <= a < r.len() && 0 <= b < r.len() && a != b implies r[a].0 != r[b].0 by {
        let a2 = if a < i { a } else { a + 1 };
        let b2 = if b < i { b } else { b + 1 };
        assert(r[a] == v[a2]);
        assert(r[b] == v[b2]);
    }
}


/// The value of `column` in a column list, if it is there.
pub open spec fn value_of(v: Seq<(Seq<char>, Seq<char>)>, column: Seq<char>) -> Option<Seq<char>> {
    match position_of(v, column) {
        Some(i) => Some(v[i].1),
        None => None,
    }
}

proof fn lemma_position_unique(v: Seq<(Seq<char>, Seq<char>)>, i: int)
    requires
        keys_distinct(v),
        0 <= i < v.len(),
    ensures
        position_of(v, v[i].0) == Some(i),
{
    let k = choose|k: int| 0 <= k < v.len() && v[k].0 == v[i].0;
    assert(k == i);
}

/// Reading a column after setting it gives the value set, and after taking
/// it out gives nothing; every other column keeps its value.
pub proof fn law_read_after_write(v: Seq<(Seq<char>, Seq<char>)>, column: Seq<char>, value: Seq<char>, other: Seq<char>)
    requires
        keys_distinct(v),
    ensures
        value_of(with_column(v, column, value), column) == Some(value),
        value_of(without_column(v, column), column) is None,
        other != column ==> value_of(with_column(v, column, value), other) == value_of(v, other),
        other != column ==> value_of(without_column(v, column), other) == value_of(v, other),
{
    lemma_with_column_distinct(v, column, value);
    let w = with_column(v, column, value);
    let r = without_column(v, column);
    match position_of(v, column) {
        Some(i) => {
            assert(v[i].0 == column);
            lemma_position_unique(w, i);
            lemma_remove_distinct(v, i);
            assert forall|j: int| 0 <= j < r.len() implies (#[trigger] r[j]).0 != column by {
                let j2 = if j < i { j } else { j + 1 };
                assert(r[j] == v[j2]);
            }
        },
        None => {
            assert(w[v.len() as int].0 == column);
            lemma_position_unique(w, v.len() as int);
            assert(r == v);
        },
    }
    if other != column {
        match position_of(v, other) {
            Some(j) => {
                assert(v[j].0 == other);
                match position_of(v, column) {
                    Some(i) => {
                        assert(w[j] == v[j]);
                        lemma_position_unique(w, j);
                        let j2 = if j < i { j } else { j - 1 };
                        assert(r[j2] == v[j]);
                        lemma_position_unique(r, j2);
                    },
                    None => {
                        assert(w[j] == v[j]);
                        lemma_position_unique(w, j);
                        lemma_position_unique(r, j);
                    },
                }
            },
            None => {
                assert forall|j: int| 0 <= j < v.len() implies (#[trigger] v[j]).0 != other by {
                    if v[j].0 == other {
                        assert(exists|k: int| 0 <= k < v.len() && v[k].0 == other);
                    }
                }
                assert forall|j: int| 0 <= j < w.len() implies (#[trigger] w[j]).0 != other by {
                    match position_of(v, column) {
                        Some(i) => {
                            if j != i {
                                assert(w[j] == v[j]);
                            }
                        },
                        None => {
                            if j < v.len() {
                                assert(w[j] == v[j]);
                            }
                        },
                    }
                }
                assert forall|j: int| 0 <= j < r.len() implies (#[trigger] r[j]).0 != other by {
                    match position_of(v, column) {
                        Some(i) => {
                            let j2 = if j < i { j } else { j + 1 };
                            assert(r[j] == v[j2]);
                        },
                        None => {
                            assert(r[j] == v[j]);
                        },
                    }
                }
            },
        }
    }
}


/// The characters of the column names that rows are built from, so that
/// rows can be shown to name each column once.
pub proof fn lemma_column_names()
    ensures
        "chunk_num"@ == seq!['c', 'h', 'u', 'n', 'k', '_', 'n', 'u', 'm'],
        "chunk_peer"@ == seq!['c', 'h', 'u', 'n', 'k', '_', 'p', 'e', 'e', 'r'],
        "country"@ == seq!['c', 'o', 'u', 'n', 't', 'r', 'y'],
        "device_name"@ == seq!['d', 'e', 'v', 'i', 'c', 'e', '_', 'n', 'a', 'm', 'e'],
        "disk_available"@ == seq!['d', 'i', 's', 'k', '_', 'a', 'v', 'a', 'i', 'l', 'a', 'b', 'l', 'e'],
        "disk_read"@ == seq!['d', 'i', 's', 'k', '_', 'r', 'e', 'a', 'd'],
        "disk_size"@ == seq!['d', 'i', 's', 'k', '_', 's', 'i', 'z', 'e'],
        "disk_write"@ == seq!['d', 'i', 's', 'k', '_', 'w', 'r', 'i', 't', 'e'],
        "email"@ == seq!['e', 'm', 'a', 'i', 'l'],
        "file_id"@ == seq!['f', 'i', 'l', 'e', '_', 'i', 'd'],
        "file_name"@ == seq!['f', 'i', 'l', 'e', '_', 'n', 'a', 'm', 'e'],
        "file_size"@ == seq!['f', 'i', 'l', 'e', '_', 's', 'i', 'z', 'e'],
        "file_size_compressed"@ == seq!['f', 'i', 'l', 'e', '_', 's', 'i', 'z', 'e', '_', 'c', 'o', 'm', 'p', 'r', 'e', 's', 's', 'e', 'd'],
        "file_status"@ == seq!['f', 'i', 'l', 'e', '_', 's', 't', 'a', 't', 'u', 's'],
        "file_type"@ == seq!['f', 'i', 'l', 'e', '_', 't', 'y', 'p', 'e'],
        "last_liveness"@ == seq!['l', 'a', 's', 't', '_', 'l', 'i', 'v', 'e', 'n', 'e', 's', 's'],
        "last_penalty"@ == seq!['l', 'a', 's', 't', '_', 'p', 'e', 'n', 'a', 'l', 't', 'y'],
        "mount_point"@ == seq!['m', 'o', 'u', 'n', 't', '_', 'p', 'o', 'i', 'n', 't'],
        "name"@ == seq!['n', 'a', 'm', 'e'],
        "owner"@ == seq!['o', 'w', 'n', 'e', 'r'],
        "password"@ == seq!['p', 'a', 's', 's', 'w', 'o', 'r', 'd'],
        "peer_id"@ == seq!['p', 'e', 'e', 'r', '_', 'i', 'd'],
        "penalty"@ == seq!['p', 'e', 'n', 'a', 'l', 't', 'y'],
        "piece_order"@ == seq!['p', 'i', 'e', 'c', 'e', '_', 'o', 'r', 'd', 'e', 'r'],
        "piece_size"@ == seq!['p', 'i', 'e', 'c', 'e', '_', 's', 'i', 'z', 'e'],
        "pieces"@ == seq!['p', 'i', 'e', 'c', 'e', 's'],
        "ranking"@ == seq!['r', 'a', 'n', 'k', 'i', 'n', 'g'],
        "registration_date"@ == seq!['r', 'e', 'g', 'i', 's', 't', 'r', 'a', 't', 'i', 'o', 'n', '_', 'd', 'a', 't', 'e'],
        "replication_num"@ == seq!['r', 'e', 'p', 'l', 'i', 'c', 'a', 't', 'i', 'o', 'n', '_', 'n', 'u', 'm'],
        "salt"@ == seq!['s', 'a', 'l', 't'],
        "surname"@ == seq!['s', 'u', 'r', 'n', 'a', 'm', 'e'],
        "throughput"@ == seq!['t', 'h', 'r', 'o', 'u', 'g', 'h', 'p', 'u', 't'],
        "upload_date"@ == seq!['u', 'p', 'l', 'o', 'a', 'd', '_', 'd', 'a', 't', 'e'],
        "uptime_end"@ == seq!['u', 'p', 't', 'i', 'm', 'e', '_', 'e', 'n', 'd'],
        "uptime_start"@ == seq!['u', 'p', 't', 'i', 'm', 'e', '_', 's', 't', 'a', 'r', 't'],
        "username"@ == seq!['u', 's', 'e', 'r', 'n', 'a', 'm', 'e'],
        "write"@ == seq!['w', 'r', 'i', 't', 'e'],
{
    reveal_strlit("chunk_num");
    reveal_strlit("chunk_peer");
    reveal_strlit("country");
    reveal_strlit("device_name");
    reveal_strlit("disk_available");
    reveal_strlit("disk_read");
    reveal_strlit("disk_size");
    reveal_strlit("disk_write");
    reveal_strlit("email");
    reveal_strlit("file_id");
    reveal_strlit("file_name");
    reveal_strlit("file_size");
    reveal_strlit("file_size_compressed");
    reveal_strlit("file_status");
    reveal_strlit("file_type");
    reveal_strlit("last_liveness");
    reveal_strlit("last_penalty");
    reveal_strlit("mount_point");
    reveal_strlit("name");
    reveal_strlit("owner");
    reveal_strlit("password");
    reveal_strlit("peer_id");
    reveal_strlit("penalty");
    reveal_strlit("piece_order");
    reveal_strlit("piece_size");
    reveal_strlit("pieces");
    reveal_strlit("ranking");
    reveal_strlit("registration_date");
    reveal_strlit("replication_num");
    reveal_strlit("salt");
    reveal_strlit("surname");
    reveal_strlit("throughput");
    reveal_strlit("upload_date");
    reveal_strlit("uptime_end");
    reveal_strlit("uptime_start");
    reveal_strlit("username");
    reveal_strlit("write");
}

}
