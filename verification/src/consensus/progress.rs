//! Leader-side replication progress and the quorum-committed watermark.

use super::config::{majority_reaches, majority_value};
use super::state::Stored;
use crate::lists::lemma_take_grows;
use crate::name_map::{increasing, keys_of, NameMap};
use crate::text::texts;
use vstd::prelude::*;

verus! {

/// Flushed on an interval rather than per ack: the cursor moves on every replicated frame, and a
/// disk write there would sit on the write path for a value that is only ever a hint.
pub const PROGRESS_FLUSH_INTERVAL_SECS: u64 = 2;

/// One LSN per replica and collection.
pub type Cursors = NameMap<NameMap<u64>>;

/// The cells of a two-level map, by replica and collection.
pub open spec fn cells(m: Cursors) -> Map<(Seq<char>, Seq<char>), u64> {
    Map::new(
        |k: (Seq<char>, Seq<char>)| m@.dom().contains(k.0) && m@[k.0]@.dom().contains(k.1),
        |k: (Seq<char>, Seq<char>)| m@[k.0]@[k.1],
    )
}

fn cell(m: &Cursors, row: &str, col: &str) -> (r: Option<u64>)
    ensures
        r == (if cells(*m).dom().contains((row@, col@)) { Some(cells(*m)[(row@, col@)]) } else { None }),
{
    match m.get(row) {
        Some(inner) => match inner.get(col) {
            Some(v) => Some(*v),
            None => None,
        },
        None => None,
    }
}

fn put_cell(m: &mut Cursors, row: &str, col: &str, v: u64)
    ensures
        cells(*final(m)) == cells(*old(m)).insert((row@, col@), v),
{
    let mut inner = match m.remove(row) {
        Some(inner) => inner,
        None => NameMap::new(),
    };
    inner.insert(col.to_owned(), v);
    m.insert(row.to_owned(), inner);
    assert(cells(*m) =~= cells(*old(m)).insert((row@, col@), v));
}

/// A copy of a map of numbers.
pub fn copy_numbers(m: &NameMap<u64>) -> (r: NameMap<u64>)
    ensures
        r@ == m@,
{
    let n = m.len();
    let mut out: NameMap<u64> = NameMap::new();
    let mut i: usize = 0;
    while i < n
        invariant
            n == m.keys().len(),
            m.keyed(),
            i <= n,
            forall|k: Seq<char>| out@.dom().contains(k) <==> m.keys().take(i as int).contains(k),
            forall|k: Seq<char>| out@.dom().contains(k) ==> m@.dom().contains(k) && out@[k] == m@[k],
        decreases n - i,
    {
        let ghost ks = m.keys();
        proof {
            lemma_take_grows(ks, i as int);
        }
        out.insert(m.key_at(i).clone(), *m.value_at(i));
        i += 1;
    }
    proof {
        assert(m.keys().take(n as int) =~= m.keys());
        assert forall|k: Seq<char>| m@.dom().contains(k) implies out@.dom().contains(k) by {
            assert(m.keys().to_set().contains(k));
        }
        assert(out@ =~= m@);
    }
    out
}

/// A copy of a two-level map.
pub fn copy_cursors(m: &Cursors) -> (r: Cursors)
    ensures
        cells(r) == cells(*m),
        r@.dom() == m@.dom(),
{
    let n = m.len();
    let mut out: Cursors = NameMap::new();
    let mut i: usize = 0;
    while i < n
        invariant
            n == m.keys().len(),
            m.keyed(),
            i <= n,
            forall|k: Seq<char>| out@.dom().contains(k) <==> m.keys().take(i as int).contains(k),
            forall|k: Seq<char>| out@.dom().contains(k) ==> m@.dom().contains(k) && out@[k]@ == m@[k]@,
        decreases n - i,
    {
        let ghost ks = m.keys();
        proof {
            lemma_take_grows(ks, i as int);
        }
        let inner = copy_numbers(m.value_at(i));
        out.insert(m.key_at(i).clone(), inner);
        i += 1;
    }
    proof {
        assert(m.keys().take(n as int) =~= m.keys());
        assert forall|k: Seq<char>| m@.dom().contains(k) implies out@.dom().contains(k) by {
            assert(m.keys().to_set().contains(k));
        }
        assert(out@.dom() =~= m@.dom());
        assert(cells(out) =~= cells(*m));
    }
    out
}

/// Send cursors carried across a leader restart, purely to avoid re-probing every collection.
/// Never quorum evidence: a stale entry only costs a rejected frame and a rewind, so this is
/// flushed lazily and an absent or unreadable file is not an error.
#[derive(Debug, PartialEq, Eq)]
pub struct ProgressMeta {
    pub sent_through: Cursors,
}

impl ProgressMeta {
    /// What a leader starts from: the record that was read back. Where there is no file, or it cannot
    /// be read or understood, no cursor at all: a hint that is lost costs a probe, so it must not block
    /// startup.
    pub fn load(read: Stored<ProgressMeta>) -> (r: ProgressMeta)
        ensures
            match read {
                Stored::Read(m) => r == m,
                _ => r.sent_through@ == Map::<Seq<char>, NameMap<u64>>::empty(),
            },
    {
        match read {
            Stored::Read(m) => m,
            _ => ProgressMeta { sent_through: NameMap::new() },
        }
    }
}

/// LSNs come from one database-wide counter but replication is per collection: an ack of lsn 7 for
/// "users" says nothing about "orders", and a global watermark over-claims.
///
/// `matched` is quorum evidence and is term-scoped. `sent_through` is only a send cursor: it may be
/// restored from disk, and must never be read as evidence a replica holds anything.
pub struct Progress {
    pub matched: Cursors,
    committed: NameMap<u64>,
    sent_through: Cursors,
}

/// What a leader knows: per replica and collection what is held and what was sent, and per
/// collection what is committed.
pub ghost struct ProgressView {
    pub matched: Map<(Seq<char>, Seq<char>), u64>,
    pub committed: Map<Seq<char>, u64>,
    pub sent: Map<(Seq<char>, Seq<char>), u64>,
}

impl View for Progress {
    type V = ProgressView;

    closed spec fn view(&self) -> ProgressView {
        ProgressView {
            matched: cells(self.matched),
            committed: self.committed@,
            sent: cells(self.sent_through),
        }
    }
}

impl ProgressView {
    /// Knowing nothing.
    pub open spec fn nothing() -> ProgressView {
        ProgressView { matched: Map::empty(), committed: Map::empty(), sent: Map::empty() }
    }

    /// What a replica is known to hold of a collection.
    pub open spec fn holds(self, replica: Seq<char>, collection: Seq<char>) -> u64 {
        if self.matched.dom().contains((replica, collection)) { self.matched[(replica, collection)] } else { 0 }
    }

    /// What is committed of a collection.
    pub open spec fn commit(self, collection: Seq<char>) -> u64 {
        if self.committed.dom().contains(collection) { self.committed[collection] } else { 0 }
    }

    /// What the group holds of a collection: the leader first, then each replica.
    pub open spec fn group_holds(self, collection: Seq<char>, leader: u64, replicas: Seq<Seq<char>>) -> Seq<u64> {
        Seq::new(replicas.len() + 1, |i: int| if i == 0 { leader } else { self.holds(replicas[i - 1], collection) })
    }
}

/// The larger of two.
pub open spec fn larger(a: u64, b: u64) -> u64 {
    if a < b { b } else { a }
}

/// The smaller of two.
pub open spec fn smaller(a: u64, b: u64) -> u64 {
    if a < b { a } else { b }
}

/// What a cell holds, or 0.
pub open spec fn cell_or_zero(m: Map<(Seq<char>, Seq<char>), u64>, replica: Seq<char>, collection: Seq<char>) -> u64 {
    if m.dom().contains((replica, collection)) { m[(replica, collection)] } else { 0 }
}

/// Where a new leader starts sending: at its own tail, or lower where a hint says so.
pub open spec fn first_cursors(
    replicas: Seq<Seq<char>>,
    own_tails: Map<Seq<char>, u64>,
    hints: Map<(Seq<char>, Seq<char>), u64>,
) -> Map<(Seq<char>, Seq<char>), u64> {
    Map::new(
        |k: (Seq<char>, Seq<char>)| replicas.contains(k.0) && own_tails.dom().contains(k.1),
        |k: (Seq<char>, Seq<char>)| if hints.dom().contains(k) {
            smaller(hints[k], own_tails[k.1])
        } else {
            own_tails[k.1]
        },
    )
}

impl Progress {
    pub fn new() -> (r: Self)
        ensures
            r@ == ProgressView::nothing(),
    {
        let r = Self { matched: NameMap::new(), committed: NameMap::new(), sent_through: NameMap::new() };
        assert(cells(r.matched) =~= Map::empty());
        assert(cells(r.sent_through) =~= Map::empty());
        r
    }

    /// Match state from a previous term is stale evidence for a quorum.
    pub fn reset(&mut self)
        ensures
            final(self)@ == ProgressView::nothing(),
    {
        self.matched.clear();
        self.committed.clear();
        self.sent_through.clear();
        assert(cells(self.matched) =~= Map::empty());
        assert(cells(self.sent_through) =~= Map::empty());
    }

    /// Exclusive lower bound for the next send: frames after this LSN are what the replica still
    /// needs. Sparse per-collection LSNs make `+ 1` meaningless.
    pub fn sent_through(&self, replica: &str, collection: &str) -> (r: Option<u64>)
        ensures
            r == (if self@.sent.dom().contains((replica@, collection@)) {
                Some(self@.sent[(replica@, collection@)])
            } else {
                None
            }),
    {
        cell(&self.sent_through, replica, collection)
    }

    pub fn note_sent(&mut self, replica: &str, collection: &str, lsn: u64)
        ensures
            final(self)@ == (ProgressView {
                sent: old(self)@.sent.insert(
                    (replica@, collection@),
                    larger(cell_or_zero(old(self)@.sent, replica@, collection@), lsn),
                ),
                ..old(self)@
            }),
    {
        let slot: u64 = match cell(&self.sent_through, replica, collection) {
            Some(v) => v,
            None => 0,
        };
        put_cell(&mut self.sent_through, replica, collection, if slot < lsn { lsn } else { slot });
    }

    /// Rewinds the cursor after a replica refuses a frame, using the tail it reported.
    /// Unconditional, unlike `note_sent`: backing off is the whole point.
    pub fn rewind_to(&mut self, replica: &str, collection: &str, lsn: u64)
        ensures
            final(self)@ == (ProgressView { sent: old(self)@.sent.insert((replica@, collection@), lsn), ..old(self)@ }),
    {
        put_cell(&mut self.sent_through, replica, collection, lsn);
    }

    /// On winning an election: forget all quorum evidence, and seed each send cursor at our own
    /// tail. A persisted hint may only lower it: raising it would skip frames the replica lacks.
    pub fn reinit_as_leader(&mut self, replicas: &[String], own_tails: &NameMap<u64>, hints: &Cursors)
        ensures
            final(self)@ == (ProgressView {
                sent: first_cursors(texts(replicas@), own_tails@, cells(*hints)),
                ..ProgressView::nothing()
            }),
    {
        self.reset();
        let n = own_tails.len();
        let ghost urls = texts(replicas@);
        let ghost want = first_cursors(urls, own_tails@, cells(*hints));
        let mut i: usize = 0;
        while i < replicas.len()
            invariant
                urls == texts(replicas@),
                n == own_tails.keys().len(),
                own_tails.keyed(),
                want == first_cursors(urls, own_tails@, cells(*hints)),
                i <= replicas@.len(),
                self@.matched == Map::<(Seq<char>, Seq<char>), u64>::empty(),
                self@.committed == Map::<Seq<char>, u64>::empty(),
                forall|k: (Seq<char>, Seq<char>)| #[trigger] self@.sent.dom().contains(k)
                    <==> urls.take(i as int).contains(k.0) && own_tails@.dom().contains(k.1),
                forall|k: (Seq<char>, Seq<char>)| #[trigger] self@.sent.dom().contains(k) ==> self@.sent[k] == want[k],
            decreases replicas@.len() - i,
        {
            let replica = replicas[i].as_str();
            let ghost done = urls.take(i as int);
            let ghost ks = own_tails.keys();
            proof {
                assert(urls[i as int] == replica@);
            }
            let mut j: usize = 0;
            while j < n
                invariant
                    urls == texts(replicas@),
                    i < replicas@.len(),
                    replica@ == urls[i as int],
                    done == urls.take(i as int),
                    ks == own_tails.keys(),
                    n == ks.len(),
                    own_tails.keyed(),
                    want == first_cursors(urls, own_tails@, cells(*hints)),
                    j <= n,
                    self@.matched == Map::<(Seq<char>, Seq<char>), u64>::empty(),
                    self@.committed == Map::<Seq<char>, u64>::empty(),
                    forall|k: (Seq<char>, Seq<char>)| #[trigger] self@.sent.dom().contains(k)
                        <==> (done.contains(k.0) && own_tails@.dom().contains(k.1))
                            || (k.0 == replica@ && ks.take(j as int).contains(k.1)),
                    forall|k: (Seq<char>, Seq<char>)| #[trigger] self@.sent.dom().contains(k) ==> self@.sent[k] == want[k],
                decreases n - j,
            {
                let name = own_tails.key_at(j).as_str();
                let tail: u64 = *own_tails.value_at(j);
                let first: u64 = match cell(hints, replica, name) {
                    Some(h) => if h < tail { h } else { tail },
                    None => tail,
                };
                let ghost before = self@.sent;
                put_cell(&mut self.sent_through, replica, name, first);
                proof {
                    assert(urls.contains(replica@));
                    assert(want.dom().contains((replica@, name@)));
                    assert(want[(replica@, name@)] == first);
                    lemma_take_grows(ks, j as int);
                    assert(self@.sent == before.insert((replica@, name@), first));
                    assert forall|k: (Seq<char>, Seq<char>)| #[trigger] self@.sent.dom().contains(k)
                        <==> (done.contains(k.0) && own_tails@.dom().contains(k.1))
                            || (k.0 == replica@ && ks.take(j + 1).contains(k.1)) by {
                        assert(self@.sent.dom().contains(k) <==> before.dom().contains(k) || k == (replica@, name@));
                        assert(k == (replica@, name@) <==> k.0 == replica@ && k.1 == name@);
                        if k.0 == replica@ {
                            assert(ks.take(j + 1).contains(k.1) <==> ks.take(j as int).contains(k.1) || k.1 == name@);
                        }
                    }
                }
                j += 1;
            }
            proof {
                assert(ks.take(n as int) =~= ks);
                assert forall|q: Seq<char>| ks.contains(q) <==> own_tails@.dom().contains(q) by {
                    assert(ks.to_set().contains(q) <==> ks.contains(q));
                }
                lemma_take_grows(urls, i as int);
            }
            i += 1;
        }
        proof {
            assert(urls.take(urls.len() as int) =~= urls);
            assert(self@.sent =~= want);
        }
    }

    pub fn cursor_snapshot(&self) -> (r: Cursors)
        ensures
            cells(r) == self@.sent,
    {
        copy_cursors(&self.sent_through)
    }

    pub fn observe_ack(&mut self, replica: &str, collection: &str, lsn: u64)
        ensures
            final(self)@ == (ProgressView {
                matched: old(self)@.matched.insert(
                    (replica@, collection@),
                    larger(old(self)@.holds(replica@, collection@), lsn),
                ),
                ..old(self)@
            }),
    {
        let slot: u64 = self.matched(replica, collection);
        put_cell(&mut self.matched, replica, collection, if slot < lsn { lsn } else { slot });
    }

    pub fn matched(&self, replica: &str, collection: &str) -> (r: u64)
        ensures
            r == self@.holds(replica@, collection@),
    {
        match cell(&self.matched, replica, collection) {
            Some(v) => v,
            None => 0,
        }
    }

    pub fn committed(&self, collection: &str) -> (r: u64)
        ensures
            r == self@.commit(collection@),
    {
        match self.committed.get(collection) {
            Some(v) => *v,
            None => 0,
        }
    }

    /// Every collection with its watermark, in name order.
    pub fn all_committed(&self) -> (r: Vec<(String, u64)>)
        ensures
            increasing(keys_of(r@)),
            keys_of(r@).to_set() == self@.committed.dom(),
            forall|i: int| 0 <= i < r@.len() ==> (#[trigger] r@[i]).1 == self@.committed[r@[i].0@],
    {
        let n = self.committed.len();
        let mut out: Vec<(String, u64)> = Vec::new();
        let mut i: usize = 0;
        while i < n
            invariant
                n == self.committed.keys().len(),
                i <= n,
                out@.len() == i,
                forall|j: int| 0 <= j < i ==> (#[trigger] out@[j]).0@ == self.committed.keys()[j]
                    && out@[j].1 == self.committed@[self.committed.keys()[j]],
            decreases n - i,
        {
            out.push((self.committed.key_at(i).clone(), *self.committed.value_at(i)));
            i += 1;
        }
        assert(keys_of(out@) =~= self.committed.keys());
        out
    }

    pub fn max_committed(&self) -> (r: u64)
        ensures
            forall|c: Seq<char>| #[trigger] self@.committed.dom().contains(c) ==> self@.committed[c] <= r,
            r == 0 || exists|c: Seq<char>| #[trigger] self@.committed.dom().contains(c) && self@.committed[c] == r,
    {
        let n = self.committed.len();
        let ghost ks = self.committed.keys();
        let mut best: u64 = 0;
        let mut i: usize = 0;
        while i < n
            invariant
                ks == self.committed.keys(),
                n == ks.len(),
                i <= n,
                forall|j: int| 0 <= j < i ==> self.committed@[#[trigger] ks[j]] <= best,
                best == 0 || exists|c: Seq<char>| #[trigger] self@.committed.dom().contains(c) && self@.committed[c] == best,
            decreases n - i,
        {
            let v: u64 = *self.committed.value_at(i);
            if v > best {
                best = v;
                assert(self@.committed.dom().contains(ks[i as int]));
            }
            i += 1;
        }
        proof {
            assert forall|c: Seq<char>| #[trigger] self@.committed.dom().contains(c) implies self@.committed[c] <= best by {
                assert(ks.to_set().contains(c));
                let j = choose|j: int| 0 <= j < ks.len() && ks[j] == c;
                assert(self.committed@[ks[j]] <= best);
            }
        }
        best
    }

    /// Highest LSN a majority holds, counting the leader. Never moves backwards: a resynced replica
    /// can report a lower match than before.
    pub fn advance(&mut self, collection: &str, leader_durable: u64, replicas: &[String]) -> (r: u64)
        requires
            replicas@.len() < usize::MAX,
        ensures
            advanced(old(self)@, final(self)@, collection@, leader_durable, texts(replicas@), r),
    {
        let ghost before = self@;
        let mut held: Vec<u64> = Vec::new();
        held.push(leader_durable);
        let mut i: usize = 0;
        while i < replicas.len()
            invariant
                self@ == before,
                i <= replicas@.len(),
                held@.len() == i + 1,
                held@[0] == leader_durable,
                forall|j: int| 0 < j <= i ==> #[trigger] held@[j] == before.holds(texts(replicas@)[j - 1], collection@),
            decreases replicas@.len() - i,
        {
            held.push(self.matched(replicas[i].as_str(), collection));
            i += 1;
        }
        assert(held@ =~= before.group_holds(collection@, leader_durable, texts(replicas@)));
        let quorum = majority_value(&held);
        let slot = self.committed(collection);
        let next = if slot < quorum { quorum } else { slot };
        self.committed.insert(collection.to_owned(), next);
        next
    }
}

/// The watermark of a collection has been moved up to what a majority holds, or kept where that is
/// lower.
pub open spec fn advanced(
    before: ProgressView,
    after: ProgressView,
    collection: Seq<char>,
    leader: u64,
    replicas: Seq<Seq<char>>,
    r: u64,
) -> bool {
    &&& after == (ProgressView { committed: before.committed.insert(collection, r), ..before })
    &&& exists|q: u64| #[trigger] majority_reaches(before.group_holds(collection, leader, replicas), q)
        && r == larger(before.commit(collection), q)
}

/// The watermark never moves backwards, and moves for one collection alone.
pub proof fn law_the_watermark_never_moves_backwards(
    before: ProgressView,
    after: ProgressView,
    collection: Seq<char>,
    leader: u64,
    replicas: Seq<Seq<char>>,
    r: u64,
)
    requires
        advanced(before, after, collection, leader, replicas, r),
    ensures
        after.commit(collection) == r,
        before.commit(collection) <= r,
        forall|other: Seq<char>| other != collection ==> after.commit(other) == before.commit(other),
{
}

/// A watermark that moves is held by a majority of the group, the leader counted.
pub proof fn law_what_commits_is_held_by_a_majority(
    before: ProgressView,
    after: ProgressView,
    collection: Seq<char>,
    leader: u64,
    replicas: Seq<Seq<char>>,
    r: u64,
)
    requires
        advanced(before, after, collection, leader, replicas, r),
        r > before.commit(collection),
    ensures
        super::config::reached_by(before.group_holds(collection, leader, replicas), r)
            >= super::config::majority_of(replicas.len() + 1),
{
}

/// A send cursor is no evidence: whatever was sent, what counts as held is unchanged, so a fresh
/// leader commits only what it or a replica that acked holds.
pub proof fn law_a_cursor_is_no_evidence(a: ProgressView, b: ProgressView, collection: Seq<char>, leader: u64, replicas: Seq<Seq<char>>)
    requires
        a.matched == b.matched,
    ensures
        a.group_holds(collection, leader, replicas) == b.group_holds(collection, leader, replicas),
{
    assert(a.group_holds(collection, leader, replicas) =~= b.group_holds(collection, leader, replicas));
}

/// A restored hint only ever lowers where a fresh leader starts sending.
pub proof fn law_a_hint_only_lowers_the_cursor(
    replicas: Seq<Seq<char>>,
    own_tails: Map<Seq<char>, u64>,
    hints: Map<(Seq<char>, Seq<char>), u64>,
    k: (Seq<char>, Seq<char>),
)
    requires
        first_cursors(replicas, own_tails, hints).dom().contains(k),
    ensures
        first_cursors(replicas, own_tails, hints)[k] <= own_tails[k.1],
        hints.dom().contains(k) ==> first_cursors(replicas, own_tails, hints)[k] <= hints[k],
{
}

/// A group holds what its leader and each of its replicas hold, each once.
pub proof fn law_every_replica_counts_once(p: ProgressView, collection: Seq<char>, leader: u64, replicas: Seq<Seq<char>>, i: int)
    requires
        0 <= i < replicas.len(),
    ensures
        p.group_holds(collection, leader, replicas).len() == replicas.len() + 1,
        p.group_holds(collection, leader, replicas)[0] == leader,
        p.group_holds(collection, leader, replicas)[i + 1] == p.holds(replicas[i], collection),
{
}

} // verus!
