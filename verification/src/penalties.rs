//! The penalties charged to peers during one read of a file, and the
//! statements that add them to the restriction table.
use vstd::prelude::*;
use crate::columns::{ColumnValues, lemma_column_names, str_equal};
use crate::query::{get_from_table, insert_into_table, insert_text, select_text, update_table, update_text};
use crate::services::{peers_in_clause, peers_in_clause_text};
use crate::text::{decimal, int_to_string, parse_i8, parse_int_spec, push_decimal, views};

verus! {

/// Whether no peer occurs twice.
pub open spec fn peers_distinct(p: Seq<(Seq<char>, i8)>) -> bool {
    forall|i: int, j: int| 0 <= i < p.len() && 0 <= j < p.len() && i != j ==> p[i].0 != p[j].0
}

/// Where `peer` stands, if it is there.
pub open spec fn penalty_index(p: Seq<(Seq<char>, i8)>, peer: Seq<char>) -> Option<int> {
    if exists|i: int| 0 <= i < p.len() && p[i].0 == peer {
        Some(choose|i: int| 0 <= i < p.len() && p[i].0 == peer)
    } else {
        None
    }
}

/// The penalty charged to `peer` so far: none is 0.
pub open spec fn penalty_of(p: Seq<(Seq<char>, i8)>, peer: Seq<char>) -> int {
    match penalty_index(p, peer) {
        Some(i) => p[i].1 as int,
        None => 0,
    }
}

/// The penalties after charging `amount` more to `peer`: added in place
/// where the peer was charged before, a new entry at the end where not.
pub open spec fn with_penalty(p: Seq<(Seq<char>, i8)>, peer: Seq<char>, amount: int) -> Seq<(Seq<char>, i8)> {
    match penalty_index(p, peer) {
        Some(i) => p.update(i, (peer, (p[i].1 + amount) as i8)),
        None => p.push((peer, amount as i8)),
    }
}

/// The penalties without `peer`.
pub open spec fn without_peer(p: Seq<(Seq<char>, i8)>, peer: Seq<char>) -> Seq<(Seq<char>, i8)> {
    match penalty_index(p, peer) {
        Some(i) => p.remove(i),
        None => p,
    }
}

/// The peers charged, in order.
pub open spec fn penalty_peers(p: Seq<(Seq<char>, i8)>) -> Seq<Seq<char>> {
    p.map_values(|e: (Seq<char>, i8)| e.0)
}

/// Penalties charged to peers, each peer at most once.
pub struct Penalties {
    entries: Vec<(String, i8)>,
}

impl View for Penalties {
    type V = Seq<(Seq<char>, i8)>;

    closed spec fn view(&self) -> Seq<(Seq<char>, i8)> {
        self.entries@.map_values(|e: (String, i8)| (e.0@, e.1))
    }
}

proof fn lemma_index_unique(p: Seq<(Seq<char>, i8)>, i: int)
    requires
        peers_distinct(p),
        0 <= i < p.len(),
    ensures
        penalty_index(p, p[i].0) == Some(i),
{
    let k = choose|k: int| 0 <= k < p.len() && p[k].0 == p[i].0;
    assert(k == i);
}

impl Penalties {
    #[verifier::type_invariant]
    closed spec fn inv(self) -> bool {
        peers_distinct(self@)
    }

    /// No penalty yet.
    pub fn new() -> (p: Penalties)
        ensures
            p@ == Seq::<(Seq<char>, i8)>::empty(),
    {
        let p = Penalties { entries: Vec::new() };
        assert(p@ =~= Seq::<(Seq<char>, i8)>::empty());
        p
    }

    /// The number of peers charged.
    pub fn len(&self) -> (n: usize)
        ensures
            n == self@.len(),
    {
        self.entries.len()
    }

    /// The peer at position `i`.
    pub fn peer(&self, i: usize) -> (p: &String)
        requires
            i < self@.len(),
        ensures
            p@ == self@[i as int].0,
    {
        &self.entries[i].0
    }

    /// The penalty at position `i`.
    pub fn amount(&self, i: usize) -> (a: i8)
        requires
            i < self@.len(),
        ensures
            a == self@[i as int].1,
    {
        self.entries[i].1
    }

    /// Where `peer` stands, if it is there.
    pub fn find(&self, peer: &str) -> (r: Option<usize>)
        ensures
            r is Some <==> penalty_index(self@, peer@) is Some,
            r matches Some(i) ==> i < self@.len() && penalty_index(self@, peer@) == Some(i as int),
    {
        proof {
            use_type_invariant(self);
        }
        let mut i: usize = 0;
        while i < self.entries.len()
            invariant
                i <= self@.len(),
                self@.len() == self.entries@.len(),
                forall|j: int| 0 <= j < i ==> self@[j].0 != peer@,
                peers_distinct(self@),
            decreases self.entries.len() - i,
        {
            if str_equal(self.entries[i].0.as_str(), peer) {
                assert(self@[i as int].0 == peer@);
                proof {
                    lemma_index_unique(self@, i as int);
                }
                return Some(i);
            }
            i = i + 1;
        }
        None
    }

    /// The penalty charged to `peer` so far.
    pub fn penalty(&self, peer: &str) -> (a: i8)
        ensures
            a as int == penalty_of(self@, peer@),
    {
        match self.find(peer) {
            Some(i) => self.entries[i].1,
            None => 0,
        }
    }

    /// A copy of these penalties.
    pub fn copy(&self) -> (p: Penalties)
        ensures
            p@ == self@,
    {
        proof {
            use_type_invariant(self);
        }
        let mut entries: Vec<(String, i8)> = Vec::new();
        let mut i: usize = 0;
        while i < self.entries.len()
            invariant
                i <= self.entries@.len(),
                self@.len() == self.entries@.len(),
                entries@.len() == i,
                forall|k: int| 0 <= k < i ==> (#[trigger] entries@[k]).0@ == self@[k].0 && entries@[k].1 == self@[k].1,
            decreases self.entries.len() - i,
        {
            let name = self.entries[i].0.clone();
            assert(name@ == self@[i as int].0);
            entries.push((name, self.entries[i].1));
            i = i + 1;
        }
        let p = Penalties { entries };
        assert(p@ =~= self@);
        p
    }

    /// The peers charged, in order.
    pub fn peers(&self) -> (names: Vec<String>)
        ensures
            views(names@) == penalty_peers(self@),
    {
        let mut names: Vec<String> = Vec::new();
        let mut i: usize = 0;
        while i < self.entries.len()
            invariant
                i <= self.entries@.len(),
                self@.len() == self.entries@.len(),
                names@.len() == i,
                views(names@) == penalty_peers(self@).take(i as int),
            decreases self.entries.len() - i,
        {
            let ghost prev = names@;
            names.push(self.entries[i].0.clone());
            assert forall|k: int| 0 <= k < i + 1 implies #[trigger] views(names@)[k]
                == penalty_peers(self@).take(i + 1)[k] by {
                if k < i {
                    assert(views(prev)[k] == penalty_peers(self@).take(i as int)[k]);
                }
            }
            assert(views(names@) =~= penalty_peers(self@).take(i + 1));
            i = i + 1;
        }
        assert(penalty_peers(self@).take(i as int) =~= penalty_peers(self@));
        names
    }

    /// Charges `amount` more to `peer`, as adding to the entry of a `HashMap` does.
    pub fn charge(&mut self, peer: &str, amount: i8)
        requires
            i8::MIN <= penalty_of(old(self)@, peer@) + amount <= i8::MAX,
        ensures
            final(self)@ == with_penalty(old(self)@, peer@, amount as int),
    {
        proof {
            use_type_invariant(&*self);
        }
        let pos = self.find(peer);
        let mut entries: Vec<(String, i8)> = Vec::new();
        std::mem::swap(&mut entries, &mut self.entries);
        let ghost before = entries@.map_values(|e: (String, i8)| (e.0@, e.1));
        match pos {
            Some(i) => {
                let v = entries[i].1 + amount;
                entries.set(i, (peer.to_string(), v));
            },
            None => {
                entries.push((peer.to_string(), amount));
            },
        }
        let ghost after = entries@.map_values(|e: (String, i8)| (e.0@, e.1));
        assert(after =~= with_penalty(before, peer@, amount as int));
        proof {
            assert forall|a: int, b: int| 0 <= a < after.len() && 0 <= b < after.len() && a != b
                implies after[a].0 != after[b].0 by {
                match pos {
                    Some(i) => {
                        if a == i {
                            assert(before[i as int].0 == peer@);
                        } else if b == i {
                            assert(before[i as int].0 == peer@);
                        }
                    },
                    None => {
                        if a == before.len() {
                            assert(before[b].0 != peer@);
                        } else if b == before.len() {
                            assert(before[a].0 != peer@);
                        }
                    },
                }
            }
        }
        self.entries = entries;
    }

    /// Takes `peer` out; the others keep their order.
    pub fn remove(&mut self, peer: &str)
        ensures
            final(self)@ == without_peer(old(self)@, peer@),
    {
        proof {
            use_type_invariant(&*self);
        }
        match self.find(peer) {
            Some(i) => {
                let mut entries: Vec<(String, i8)> = Vec::new();
                std::mem::swap(&mut entries, &mut self.entries);
                let ghost before = entries@.map_values(|e: (String, i8)| (e.0@, e.1));
                let _ = entries.remove(i);
                let ghost after = entries@.map_values(|e: (String, i8)| (e.0@, e.1));
                assert(after =~= before.remove(i as int));
                proof {
                    assert forall|a: int, b: int| 0 <= a < after.len() && 0 <= b < after.len() && a != b
                        implies after[a].0 != after[b].0 by {
                        let a2 = if a < i { a } else { a + 1 };
                        let b2 = if b < i { b } else { b + 1 };
                        assert(after[a] == before[a2]);
                        assert(after[b] == before[b2]);
                    }
                }
                self.entries = entries;
            },
            None => {},
        }
    }
}


/// The statement that reads the restrictions of the peers charged; none where no peer was charged.
pub fn penalty_lookup_query(penalties: &Penalties) -> (q: Option<String>)
    ensures
        q is None <==> penalties@.len() == 0,
        q matches Some(t) ==> t@ == select_text("peer"@, "restriction"@, "*"@, peers_in_clause(penalty_peers(penalties@))),
{
    if penalties.len() == 0 {
        return None;
    }
    let peers = penalties.peers();
    let clause = peers_in_clause_text(&peers);
    Some(get_from_table("peer", "restriction", "*", clause))
}

/// The restriction of a peer, as the restriction table gives it back.
pub struct RestrictionRow {
    pub peer_id: String,
    pub penalty: String,
}

/// `penalty = '<total>'`.
pub open spec fn penalty_set(total: int) -> Seq<char> {
    "penalty = '"@ + decimal(total) + "'"@
}

/// `peer_id = '<peer>'`.
pub open spec fn penalty_peer_clause(peer: Seq<char>) -> Seq<char> {
    "peer_id = '"@ + peer + "'"@
}

/// The statement that sets the penalty of `peer` to `total`.
pub open spec fn penalty_update_text(peer: Seq<char>, total: int) -> Seq<char> {
    update_text("peer"@, "restriction"@, penalty_set(total), penalty_peer_clause(peer))
}

/// The restriction row of a peer charged for the first time, at `now`.
pub open spec fn restriction_row(peer: Seq<char>, penalty: int, now: u64) -> Seq<(Seq<char>, Seq<char>)> {
    seq![("peer_id"@, peer), ("penalty"@, decimal(penalty)), ("last_penalty"@, decimal(now as int))]
}

/// The statement that records the first restriction of a peer.
pub open spec fn restriction_insert_text(e: (Seq<char>, i8), now: u64) -> Seq<char> {
    insert_text("peer"@, "restriction"@, restriction_row(e.0, e.1 as int, now), ""@)
}

/// The penalties of the peers that had a restriction already, added to it
/// row after row, and the penalties left: each row's peer must be among those
/// left, its past penalty must read as an `i8`, and the sum must fit in one.
pub open spec fn penalty_updates(p: Seq<(Seq<char>, i8)>, rows: Seq<RestrictionRow>)
    -> Option<(Seq<Seq<char>>, Seq<(Seq<char>, i8)>)>
    decreases rows.len(),
{
    if rows.len() == 0 {
        Some((Seq::empty(), p))
    } else {
        match penalty_updates(p, rows.drop_last()) {
            None => None,
            Some((qs, rem)) => {
                let r = rows.last();
                match penalty_index(rem, r.peer_id@) {
                    None => None,
                    Some(i) => match parse_int_spec(r.penalty@, i8::MIN as int, i8::MAX as int, true) {
                        None => None,
                        Some(past) => {
                            let total = rem[i].1 + past;
                            if i8::MIN <= total <= i8::MAX {
                                Some((qs.push(penalty_update_text(r.peer_id@, total)), without_peer(rem, r.peer_id@)))
                            } else {
                                None
                            }
                        },
                    },
                }
            },
        }
    }
}

/// The statements that record penalties `p`, given the restrictions `rows`
/// read back: nothing where no peer had a restriction; otherwise the updates
/// of those that had one, then a new restriction at `now` for each peer left.
pub open spec fn penalty_writes_spec(p: Seq<(Seq<char>, i8)>, rows: Seq<RestrictionRow>, now: u64)
    -> Option<Seq<Seq<char>>> {
    if rows.len() == 0 {
        Some(Seq::empty())
    } else {
        match penalty_updates(p, rows) {
            None => None,
            Some((qs, rem)) => Some(qs + rem.map_values(|e: (Seq<char>, i8)| restriction_insert_text(e, now))),
        }
    }
}

proof fn lemma_updates_none(p: Seq<(Seq<char>, i8)>, rows: Seq<RestrictionRow>, k: int)
    requires
        0 <= k <= rows.len(),
        penalty_updates(p, rows.take(k)) is None,
    ensures
        penalty_updates(p, rows) is None,
    decreases rows.len() - k,
{
    if k < rows.len() {
        assert(rows.take(k + 1).drop_last() =~= rows.take(k));
        lemma_updates_none(p, rows, k + 1);
    } else {
        assert(rows.take(k) =~= rows);
    }
}

/// The statement that sets the penalty of `peer` to `total`.
fn penalty_update_query(peer: &str, total: i16) -> (q: String)
    ensures
        q@ == penalty_update_text(peer@, total as int),
{
    let mut set = String::new();
    set.append("penalty = '");
    push_decimal(&mut set, total as i128);
    set.append("'");
    assert(set@ =~= penalty_set(total as int));
    let mut clause = String::new();
    clause.append("peer_id = '");
    clause.append(peer);
    clause.append("'");
    assert(clause@ =~= penalty_peer_clause(peer@));
    update_table("peer", "restriction", set, clause)
}

/// The statement that records the first restriction of `peer`.
fn restriction_insert_query(peer: &str, penalty: i8, now: u64) -> (q: String)
    ensures
        q@ == restriction_insert_text((peer@, penalty), now),
{
    proof {
        lemma_column_names();
    }
    let row = ColumnValues::from_pairs(vec![
        ("peer_id".to_string(), peer.to_string()),
        ("penalty".to_string(), int_to_string(penalty as i128)),
        ("last_penalty".to_string(), int_to_string(now as i128)),
    ]);
    assert(row@ =~= restriction_row(peer@, penalty as int, now));
    insert_into_table("peer", "restriction", row, "")
}

/// The statements that record `penalties`, given the restrictions `rows`
/// that the lookup read back; none where a row names a peer not (or no
/// longer) charged, holds a penalty that does not read as an `i8`, or the sum overflows.
pub fn penalty_writes(penalties: &Penalties, rows: &Vec<RestrictionRow>, now: u64) -> (r: Option<Vec<String>>)
    ensures
        r is None <==> penalty_writes_spec(penalties@, rows@, now) is None,
        r matches Some(v) ==> views(v@) == penalty_writes_spec(penalties@, rows@, now)->0,
{
    if rows.len() == 0 {
        let v: Vec<String> = Vec::new();
        assert(views(v@) =~= Seq::<Seq<char>>::empty());
        return Some(v);
    }
    let ghost p0 = penalties@;
    let mut rem = penalties.copy();
    let mut qs: Vec<String> = Vec::new();
    let mut i: usize = 0;
    assert(rows@.take(0) =~= Seq::<RestrictionRow>::empty());
    assert(views(qs@) =~= Seq::<Seq<char>>::empty());
    while i < rows.len()
        invariant
            i <= rows@.len(),
            rows@.len() > 0,
            p0 == penalties@,
            penalty_updates(p0, rows@.take(i as int)) == Some((views(qs@), rem@)),
        decreases rows.len() - i,
    {
        let row = &rows[i];
        assert(rows@.take(i + 1).drop_last() =~= rows@.take(i as int));
        assert(rows@.take(i + 1).last() == rows@[i as int]);
        let idx = match rem.find(row.peer_id.as_str()) {
            Some(idx) => idx,
            None => {
                proof {
                    assert(penalty_updates(p0, rows@.take(i + 1)) is None);
                    lemma_updates_none(p0, rows@, i + 1);
                }
                return None;
            },
        };
        let past = match parse_i8(row.penalty.as_str()) {
            Some(v) => v,
            None => {
                proof {
                    assert(penalty_updates(p0, rows@.take(i + 1)) is None);
                    lemma_updates_none(p0, rows@, i + 1);
                }
                return None;
            },
        };
        let total: i16 = rem.amount(idx) as i16 + past as i16;
        if total < -128 || total > 127 {
            proof {
                assert(penalty_updates(p0, rows@.take(i + 1)) is None);
                lemma_updates_none(p0, rows@, i + 1);
            }
            return None;
        }
        let q = penalty_update_query(row.peer_id.as_str(), total);
        let ghost prev = qs@;
        qs.push(q);
        assert(views(qs@) =~= views(prev).push(penalty_update_text(row.peer_id@, total as int)));
        rem.remove(row.peer_id.as_str());
        i = i + 1;
    }
    assert(rows@.take(i as int) =~= rows@);
    let ghost target = rem@.map_values(|e: (Seq<char>, i8)| restriction_insert_text(e, now));
    let ghost updates = views(qs@);
    let mut j: usize = 0;
    while j < rem.len()
        invariant
            j <= rem@.len(),
            qs@.len() == updates.len() + j,
            target == rem@.map_values(|e: (Seq<char>, i8)| restriction_insert_text(e, now)),
            views(qs@) == updates + target.take(j as int),
        decreases rem@.len() - j,
    {
        let q = restriction_insert_query(rem.peer(j).as_str(), rem.amount(j), now);
        assert(q@ == target[j as int]);
        let ghost prev = qs@;
        qs.push(q);
        assert(views(qs@) =~= views(prev).push(q@));
        assert(target.take(j + 1) =~= target.take(j as int).push(target[j as int]));
        assert(views(qs@) =~= updates + target.take(j + 1));
        j = j + 1;
    }
    assert(target.take(j as int) =~= target);
    Some(qs)
}


proof fn lemma_index_of_present(p: Seq<(Seq<char>, i8)>, j: int, peer: Seq<char>)
    requires
        peers_distinct(p),
        0 <= j < p.len(),
        p[j].0 == peer,
    ensures
        penalty_index(p, peer) == Some(j),
{
    lemma_index_unique(p, j);
}

proof fn lemma_index_absent(p: Seq<(Seq<char>, i8)>, peer: Seq<char>)
    requires
        forall|j: int| 0 <= j < p.len() ==> (#[trigger] p[j]).0 != peer,
    ensures
        penalty_index(p, peer) is None,
{
}

/// Charging a peer adds to what it was charged before and leaves every other
/// peer's penalty as it was; no peer comes to occur twice.
pub proof fn law_charge_adds(p: Seq<(Seq<char>, i8)>, peer: Seq<char>, other: Seq<char>, amount: int)
    requires
        peers_distinct(p),
        i8::MIN <= penalty_of(p, peer) + amount <= i8::MAX,
    ensures
        peers_distinct(with_penalty(p, peer, amount)),
        penalty_of(with_penalty(p, peer, amount), peer) == penalty_of(p, peer) + amount,
        other != peer ==> penalty_of(with_penalty(p, peer, amount), other) == penalty_of(p, other),
{
    let q = with_penalty(p, peer, amount);
    match penalty_index(p, peer) {
        Some(i) => {
            assert(p[i].0 == peer);
            assert forall|a: int, b: int| 0 <= a < q.len() && 0 <= b < q.len() && a != b implies q[a].0 != q[b].0 by {
                if a == i {
                    assert(q[b] == p[b]);
                } else if b == i {
                    assert(q[a] == p[a]);
                } else {
                    assert(q[a] == p[a] && q[b] == p[b]);
                }
            }
            lemma_index_of_present(q, i, peer);
            if other != peer {
                match penalty_index(p, other) {
                    Some(j) => {
                        assert(p[j].0 == other);
                        assert(q[j] == p[j]);
                        lemma_index_of_present(q, j, other);
                    },
                    None => {
                        assert forall|j: int| 0 <= j < q.len() implies (#[trigger] q[j]).0 != other by {
                            if j != i {
                                assert(q[j] == p[j]);
                            }
                        }
                        lemma_index_absent(q, other);
                    },
                }
            }
        },
        None => {
            assert forall|j: int| 0 <= j < p.len() implies (#[trigger] p[j]).0 != peer by {
                if p[j].0 == peer {
                    assert(exists|k: int| 0 <= k < p.len() && p[k].0 == peer);
                }
            }
            assert forall|a: int, b: int| 0 <= a < q.len() && 0 <= b < q.len() && a != b implies q[a].0 != q[b].0 by {
                if a == p.len() {
                    assert(q[b] == p[b]);
                } else if b == p.len() {
                    assert(q[a] == p[a]);
                } else {
                    assert(q[a] == p[a] && q[b] == p[b]);
                }
            }
            lemma_index_of_present(q, p.len() as int, peer);
            if other != peer {
                match penalty_index(p, other) {
                    Some(j) => {
                        assert(p[j].0 == other);
                        assert(q[j] == p[j]);
                        lemma_index_of_present(q, j, other);
                    },
                    None => {
                        assert forall|j: int| 0 <= j < q.len() implies (#[trigger] q[j]).0 != other by {
                            if j < p.len() {
                                assert(q[j] == p[j]);
                                if p[j].0 == other {
                                    assert(exists|k: int| 0 <= k < p.len() && p[k].0 == other);
                                }
                            }
                        }
                        lemma_index_absent(q, other);
                    },
                }
            }
        },
    }
}

proof fn lemma_updates_count(p: Seq<(Seq<char>, i8)>, rows: Seq<RestrictionRow>)
    requires
        penalty_updates(p, rows) is Some,
    ensures
        penalty_updates(p, rows).unwrap().0.len() + penalty_updates(p, rows).unwrap().1.len() == p.len(),
    decreases rows.len(),
{
    if rows.len() > 0 {
        lemma_updates_count(p, rows.drop_last());
    }
}

/// Every charged peer gets exactly one statement once the restrictions were
/// read back: an update where it had a restriction, a new one where not.
pub proof fn law_each_penalty_written_once(p: Seq<(Seq<char>, i8)>, rows: Seq<RestrictionRow>, now: u64)
    requires
        rows.len() > 0,
        penalty_writes_spec(p, rows, now) is Some,
    ensures
        penalty_writes_spec(p, rows, now)->0.len() == p.len(),
{
    lemma_updates_count(p, rows);
}


proof fn lemma_without_peer(p: Seq<(Seq<char>, i8)>, x: Seq<char>, y: Seq<char>)
    requires
        peers_distinct(p),
    ensures
        peers_distinct(without_peer(p, x)),
        penalty_index(without_peer(p, x), x) is None,
        y != x ==> penalty_of(without_peer(p, x), y) == penalty_of(p, y),
        y != x ==> (penalty_index(without_peer(p, x), y) is Some <==> penalty_index(p, y) is Some),
{
    let q = without_peer(p, x);
    match penalty_index(p, x) {
        Some(i) => {
            assert(p[i].0 == x);
            assert forall|a: int| 0 <= a < q.len() implies (#[trigger] q[a]) == p[if a < i { a } else { a + 1 }] by {}
            assert forall|a: int, b: int| 0 <= a < q.len() && 0 <= b < q.len() && a != b implies q[a].0 != q[b].0 by {
                assert(q[a] == p[if a < i { a } else { a + 1 }]);
                assert(q[b] == p[if b < i { b } else { b + 1 }]);
            }
            assert forall|j: int| 0 <= j < q.len() implies (#[trigger] q[j]).0 != x by {
                assert(q[j] == p[if j < i { j } else { j + 1 }]);
            }
            lemma_index_absent(q, x);
            if y != x {
                match penalty_index(p, y) {
                    Some(j) => {
                        assert(p[j].0 == y);
                        let j2 = if j < i { j } else { j - 1 };
                        assert(q[j2] == p[j]);
                        lemma_index_of_present(q, j2, y);
                    },
                    None => {
                        assert forall|j: int| 0 <= j < q.len() implies (#[trigger] q[j]).0 != y by {
                            let j2 = if j < i { j } else { j + 1 };
                            assert(q[j] == p[j2]);
                            if p[j2].0 == y {
                                assert(exists|k: int| 0 <= k < p.len() && p[k].0 == y);
                            }
                        }
                        lemma_index_absent(q, y);
                    },
                }
            }
        },
        None => {},
    }
}

proof fn lemma_updates_shape(p: Seq<(Seq<char>, i8)>, rows: Seq<RestrictionRow>, y: Seq<char>)
    requires
        peers_distinct(p),
        penalty_updates(p, rows) is Some,
    ensures
        ({
            let (qs, rem) = penalty_updates(p, rows)->0;
            &&& qs.len() == rows.len()
            &&& peers_distinct(rem)
            &&& forall|k: int| 0 <= k < rows.len() ==> {
                &&& penalty_index(p, (#[trigger] rows[k]).peer_id@) is Some
                &&& parse_int_spec(rows[k].penalty@, i8::MIN as int, i8::MAX as int, true) is Some
                &&& qs[k] == penalty_update_text(rows[k].peer_id@, penalty_of(p, rows[k].peer_id@)
                    + parse_int_spec(rows[k].penalty@, i8::MIN as int, i8::MAX as int, true)->0)
                &&& penalty_index(rem, rows[k].peer_id@) is None
            }
            &&& (forall|k: int| 0 <= k < rows.len() ==> (#[trigger] rows[k]).peer_id@ != y)
                ==> penalty_of(rem, y) == penalty_of(p, y)
                    && (penalty_index(rem, y) is Some <==> penalty_index(p, y) is Some)
        }),
    decreases rows.len(),
{
    if rows.len() > 0 {
        let r = rows.last();
        let x = r.peer_id@;
        lemma_updates_shape(p, rows.drop_last(), y);
        lemma_updates_shape(p, rows.drop_last(), x);
        let (qs0, rem0) = penalty_updates(p, rows.drop_last())->0;
        let i = penalty_index(rem0, x)->0;
        assert(rem0[i].0 == x);
        lemma_index_of_present(rem0, i, x);
        lemma_without_peer(rem0, x, y);
        let n = (rows.len() - 1) as int;
        assert forall|k: int| 0 <= k < n implies (#[trigger] rows.drop_last()[k]) == rows[k] by {}
        // the peer of the last row was not among the earlier ones: it was still charged
        assert forall|k: int| 0 <= k < n implies rows[k].peer_id@ != x by {
            assert(rows.drop_last()[k] == rows[k]);
            if rows[k].peer_id@ == x {
                assert(penalty_index(rem0, rows.drop_last()[k].peer_id@) is None);
            }
        }
        assert(penalty_of(rem0, x) == penalty_of(p, x));
        assert forall|k: int| 0 <= k < rows.len() implies {
            &&& penalty_index(p, (#[trigger] rows[k]).peer_id@) is Some
            &&& parse_int_spec(rows[k].penalty@, i8::MIN as int, i8::MAX as int, true) is Some
            &&& (penalty_updates(p, rows)->0).0[k] == penalty_update_text(rows[k].peer_id@, penalty_of(p, rows[k].peer_id@)
                + parse_int_spec(rows[k].penalty@, i8::MIN as int, i8::MAX as int, true)->0)
            &&& penalty_index((penalty_updates(p, rows)->0).1, rows[k].peer_id@) is None
        } by {
            if k < n {
                assert(rows.drop_last()[k] == rows[k]);
                lemma_without_peer(rem0, x, rows[k].peer_id@);
            } else {
                assert(rows[k] == r);
            }
        }
        if forall|k: int| 0 <= k < rows.len() ==> (#[trigger] rows[k]).peer_id@ != y {
            assert forall|k: int| 0 <= k < n implies (#[trigger] rows.drop_last()[k]).peer_id@ != y by {
                assert(rows.drop_last()[k] == rows[k]);
            }
            assert(rows[n] == r);
        }
    }
}

/// A peer that had a restriction gets its own charge added to it: for the
/// `k`-th restriction read back, the `k`-th statement sets that peer's
/// penalty to the penalty the row held plus what that same peer was charged
/// during the read, whatever the other peers were charged.
pub proof fn law_update_adds_own_charge(p: Seq<(Seq<char>, i8)>, rows: Seq<RestrictionRow>, now: u64, k: int)
    requires
        peers_distinct(p),
        penalty_writes_spec(p, rows, now) is Some,
        0 <= k < rows.len(),
    ensures
        penalty_index(p, rows[k].peer_id@) is Some,
        parse_int_spec(rows[k].penalty@, i8::MIN as int, i8::MAX as int, true) is Some,
        penalty_writes_spec(p, rows, now)->0[k] == penalty_update_text(rows[k].peer_id@,
            parse_int_spec(rows[k].penalty@, i8::MIN as int, i8::MAX as int, true)->0 + penalty_of(p, rows[k].peer_id@)),
{
    lemma_updates_shape(p, rows, rows[k].peer_id@);
    let (qs, rem) = penalty_updates(p, rows)->0;
    let out = penalty_writes_spec(p, rows, now)->0;
    assert(out[k] == qs[k]);
    let past = parse_int_spec(rows[k].penalty@, i8::MIN as int, i8::MAX as int, true)->0;
    assert(penalty_of(p, rows[k].peer_id@) + past == past + penalty_of(p, rows[k].peer_id@));
}
}
