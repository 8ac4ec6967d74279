//! Persistent polar cache: an in-memory map of polars keyed by
//! `"<foil hash>|<reynolds>|<mach>"`, with lazy persistence.
//!
//! The store decides; the host performs the file work.  A path-backed
//! store journals every fresh insert at once (one record appended to
//! `<path>.journal`) and asks for a whole-file rewrite (a compaction) every
//! [`FULL_SAVE_EVERY`] journaled inserts.  Loading replays the file's
//! entries and then the journal's records in order, so a journal record
//! wins over the file's copy of a key.
//!
//! The stored polar type is a parameter: the store never looks inside it.
use vstd::prelude::*;
use vstd::hash_map::StringHashMap;

verus! {

broadcast use vstd::hash_map::group_hash_map_axioms;

/// How many journaled inserts accumulate before the whole cache file is
/// rewritten (a compaction: full document to a temp file, rename, journal
/// dropped).
pub const FULL_SAVE_EVERY: usize = 200;

/// The views of a list of keyed records.
pub open spec fn record_views<P>(rs: Seq<(String, P)>) -> Seq<(Seq<char>, P)> {
    rs.map_values(|r: (String, P)| (r.0@, r.1))
}

/// The views of a list of keys.
pub open spec fn key_views(ks: Seq<String>) -> Seq<Seq<char>> {
    ks.map_values(|k: String| k@)
}

/// Apply keyed records to a map in order: each record sets its key, so the
/// last record of a key wins.
pub open spec fn replay<P>(m: Map<Seq<char>, P>, rs: Seq<(Seq<char>, P)>) -> Map<Seq<char>, P>
    decreases rs.len(),
{
    if rs.len() == 0 {
        m
    } else {
        replay(m, rs.drop_last()).insert(rs.last().0, rs.last().1)
    }
}

/// Index of the last record of `k` in `rs`, or -1 when there is none.
pub open spec fn last_record_of<P>(rs: Seq<(Seq<char>, P)>, k: Seq<char>) -> int
    decreases rs.len(),
{
    if rs.len() == 0 {
        -1
    } else if rs.last().0 == k {
        rs.len() - 1
    } else {
        last_record_of(rs.drop_last(), k)
    }
}

/// The keys of `s`, each once, in order of first occurrence.
pub open spec fn distinct_in_order(s: Seq<Seq<char>>) -> Seq<Seq<char>>
    decreases s.len(),
{
    if s.len() == 0 {
        s
    } else {
        let d = distinct_in_order(s.drop_last());
        if d.contains(s.last()) {
            d
        } else {
            d.push(s.last())
        }
    }
}

proof fn lemma_last_record_of<P>(rs: Seq<(Seq<char>, P)>, k: Seq<char>)
    ensures
        -1 <= last_record_of(rs, k) < rs.len(),
        last_record_of(rs, k) >= 0 ==> rs[last_record_of(rs, k)].0 == k,
        forall|j: int| last_record_of(rs, k) < j < rs.len() ==> rs[j].0 != k,
    decreases rs.len(),
{
    if rs.len() > 0 {
        lemma_last_record_of(rs.drop_last(), k);
        assert forall|j: int| last_record_of(rs, k) < j < rs.len() implies rs[j].0 != k by {
            if j < rs.len() - 1 {
                assert(rs[j] == rs.drop_last()[j]);
            }
        }
    }
}

proof fn lemma_replay_at<P>(m: Map<Seq<char>, P>, rs: Seq<(Seq<char>, P)>, k: Seq<char>)
    ensures
        replay(m, rs).contains_key(k) <==> (m.contains_key(k) || last_record_of(rs, k) >= 0),
        last_record_of(rs, k) >= 0 ==> replay(m, rs)[k] == rs[last_record_of(rs, k)].1,
        last_record_of(rs, k) < 0 && m.contains_key(k) ==> replay(m, rs)[k] == m[k],
    decreases rs.len(),
{
    if rs.len() > 0 {
        lemma_replay_at(m, rs.drop_last(), k);
        lemma_last_record_of(rs.drop_last(), k);
    }
}

/// Journal records win: after replaying `rs` over `m`, a key that has a
/// record holds the value of its last record, and every other key keeps
/// its value in `m`.
pub proof fn replay_last_record_wins<P>(m: Map<Seq<char>, P>, rs: Seq<(Seq<char>, P)>, k: Seq<char>)
    ensures
        last_record_of(rs, k) >= 0 ==> replay(m, rs).contains_key(k) && replay(m, rs)[k]
            == rs[last_record_of(rs, k)].1,
        last_record_of(rs, k) < 0 ==> (replay(m, rs).contains_key(k) == m.contains_key(k)),
        last_record_of(rs, k) < 0 && m.contains_key(k) ==> replay(m, rs)[k] == m[k],
{
    lemma_replay_at(m, rs, k);
}

/// Replaying a journal is idempotent: applying the same records a second
/// time (a compaction that crashed before dropping the journal) changes
/// nothing.
pub proof fn replay_is_idempotent<P>(m: Map<Seq<char>, P>, rs: Seq<(Seq<char>, P)>)
    ensures
        replay(replay(m, rs), rs) == replay(m, rs),
{
    let once = replay(m, rs);
    let twice = replay(once, rs);
    assert forall|k: Seq<char>| #[trigger] twice.contains_key(k) <==> once.contains_key(k) by {
        lemma_replay_at(m, rs, k);
        lemma_replay_at(once, rs, k);
    }
    assert forall|k: Seq<char>| twice.contains_key(k) implies #[trigger] twice[k] == once[k] by {
        lemma_replay_at(m, rs, k);
        lemma_replay_at(once, rs, k);
    }
    assert(twice =~= once);
}

/// Every insert is a journal record: inserting `r` into the cache replayed
/// from `rs` gives the cache replayed from `rs` followed by `r`, so a
/// reload of the file and the journal sees every insert.
pub proof fn insert_is_a_journal_record<P>(
    m: Map<Seq<char>, P>,
    rs: Seq<(Seq<char>, P)>,
    r: (Seq<char>, P),
)
    ensures
        replay(m, rs.push(r)) == replay(m, rs).insert(r.0, r.1),
{
    assert(rs.push(r).drop_last() =~= rs);
}

/// A call that bears on what the next drain of new entries reports.
pub enum StoreCall {
    /// [`PolarStore::insert`] of a key.
    Insert(Seq<char>),
    /// [`PolarStore::hydrate`] of a key.
    Hydrate(Seq<char>),
    /// [`PolarStore::take_new_entries`].
    Drain,
}

/// The keys waiting for the next drain after `c`: an insert adds its key,
/// a hydrate adds nothing, a drain empties the list.
pub open spec fn pending_after(pending: Seq<Seq<char>>, c: StoreCall) -> Seq<Seq<char>> {
    match c {
        StoreCall::Insert(k) => pending.push(k),
        StoreCall::Hydrate(_) => pending,
        StoreCall::Drain => Seq::empty(),
    }
}

/// The keys waiting after the calls `cs`, from `pending`.
pub open spec fn pending_after_calls(pending: Seq<Seq<char>>, cs: Seq<StoreCall>) -> Seq<Seq<char>>
    decreases cs.len(),
{
    if cs.len() == 0 {
        pending
    } else {
        pending_after(pending_after_calls(pending, cs.drop_last()), cs.last())
    }
}

/// The keys of the inserts among `cs` after the last drain, in order.
pub open spec fn inserted_since_drain(cs: Seq<StoreCall>) -> Seq<Seq<char>>
    decreases cs.len(),
{
    if cs.len() == 0 {
        Seq::empty()
    } else {
        match cs.last() {
            StoreCall::Insert(k) => inserted_since_drain(cs.drop_last()).push(k),
            StoreCall::Hydrate(_) => inserted_since_drain(cs.drop_last()),
            StoreCall::Drain => Seq::empty(),
        }
    }
}

/// What a drain reports: starting from a fresh or just-drained store
/// (nothing waiting), after any inserts, hydrates and drains the next
/// drain reports exactly the keys inserted since the last drain, each once,
/// in order of first insertion (hydrated keys never); a drain right after
/// a drain reports nothing.  [`PolarStore::take_new_entries`] pairs each
/// with a copy of its stored polar.
pub proof fn drain_reports_the_keys_inserted_since_the_last_drain(cs: Seq<StoreCall>)
    ensures
        pending_after_calls(Seq::empty(), cs) == inserted_since_drain(cs),
        distinct_in_order(inserted_since_drain(cs)).no_duplicates(),
        forall|k: Seq<char>|
            #[trigger] distinct_in_order(inserted_since_drain(cs)).contains(k)
                <==> inserted_since_drain(cs).contains(k),
        distinct_in_order(pending_after_calls(Seq::empty(), cs.push(StoreCall::Drain))).len() == 0,
    decreases cs.len(),
{
    if cs.len() > 0 {
        drain_reports_the_keys_inserted_since_the_last_drain(cs.drop_last());
    }
    lemma_distinct_in_order(inserted_since_drain(cs));
    assert(cs.push(StoreCall::Drain).drop_last() =~= cs);
}

/// The whole cache document as the host writes it on a compaction: every
/// key of `order`, in that order, with its polar in `m`.
pub open spec fn document_entries<P>(m: Map<Seq<char>, P>, order: Seq<Seq<char>>) -> Seq<
    (Seq<char>, P),
> {
    order.map_values(|k: Seq<char>| (k, m[k]))
}

/// A compaction loses nothing: loading the document written from a
/// store's keys (see [`PolarStore::keys`]) and their polars gives back the
/// same cache.
pub proof fn compaction_reloads_the_cache<P>(m: Map<Seq<char>, P>, order: Seq<Seq<char>>)
    requires
        forall|k: Seq<char>| #[trigger] m.contains_key(k) <==> order.contains(k),
    ensures
        replay(Map::<Seq<char>, P>::empty(), document_entries(m, order)) == m,
{
    let rs = document_entries(m, order);
    let e = Map::<Seq<char>, P>::empty();
    let back = replay(e, rs);
    assert forall|k: Seq<char>| #[trigger] back.contains_key(k) <==> m.contains_key(k) by {
        lemma_replay_at(e, rs, k);
        lemma_last_record_of(rs, k);
        if order.contains(k) {
            let i = choose|i: int| 0 <= i < order.len() && order[i] == k;
            assert(rs[i].0 == k);
        }
        if last_record_of(rs, k) >= 0 {
            assert(order[last_record_of(rs, k)] == k);
        }
    }
    assert forall|k: Seq<char>| back.contains_key(k) implies #[trigger] back[k] == m[k] by {
        lemma_replay_at(e, rs, k);
        lemma_last_record_of(rs, k);
        if last_record_of(rs, k) < 0 {
            let i = choose|i: int| 0 <= i < order.len() && order[i] == k;
            assert(rs[i].0 == k);
        }
    }
    assert(back =~= m);
}

proof fn lemma_distinct_in_order(s: Seq<Seq<char>>)
    ensures
        distinct_in_order(s).no_duplicates(),
        forall|k: Seq<char>| distinct_in_order(s).contains(k) <==> s.contains(k),
    decreases s.len(),
{
    if s.len() > 0 {
        let p = s.drop_last();
        lemma_distinct_in_order(p);
        assert forall|k: Seq<char>| s.contains(k) <==> (p.contains(k) || k == s.last()) by {
            if s.contains(k) {
                let i = choose|i: int| 0 <= i < s.len() && s[i] == k;
                if i < s.len() - 1 {
                    assert(p[i] == k);
                }
            }
            if p.contains(k) {
                let i = choose|i: int| 0 <= i < p.len() && p[i] == k;
                assert(s[i] == k);
            }
            if k == s.last() {
                assert(s[s.len() - 1] == k);
            }
        }
        let d = distinct_in_order(p);
        if !d.contains(s.last()) {
            let e = d.push(s.last());
            assert forall|k: Seq<char>| e.contains(k) <==> (d.contains(k) || k == s.last()) by {
                if e.contains(k) {
                    let i = choose|i: int| 0 <= i < e.len() && e[i] == k;
                    if i < d.len() {
                        assert(d[i] == k);
                    }
                }
                if d.contains(k) {
                    let i = choose|i: int| 0 <= i < d.len() && d[i] == k;
                    assert(e[i] == k);
                }
                if k == s.last() {
                    assert(e[e.len() - 1] == k);
                }
            }
        }
    }
}

/// What the host must do after an insert.
pub struct InsertOutcome {
    /// Append the inserted record to the journal now.
    pub journal: bool,
    /// Rewrite the whole cache file now (then report it with
    /// [`PolarStore::save`]).
    pub compact: bool,
}

/// An in-memory map of cached polars with lazy persistence.
#[verifier::reject_recursive_types(P)]
pub struct PolarStore<P> {
    path: String,
    foils: StringHashMap<P>,
    /// Every key once, in order of first insertion.
    order: Vec<String>,
    dirty: bool,
    /// Keys inserted since the last [`PolarStore::take_new_entries`].
    new_keys: Vec<String>,
    /// Journaled inserts since the last whole-file rewrite.
    pending: usize,
}

impl<P> PolarStore<P> {
    /// The cached polars.
    pub closed spec fn contents(&self) -> Map<Seq<char>, P> {
        self.foils@
    }

    /// The cached keys in order of first insertion.
    pub closed spec fn key_order(&self) -> Seq<Seq<char>> {
        key_views(self.order@)
    }

    /// Keys inserted since the last drain, one per insert.
    pub closed spec fn new_key_list(&self) -> Seq<Seq<char>> {
        key_views(self.new_keys@)
    }

    /// The cache file location (empty: the store never persists).
    pub closed spec fn path_view(&self) -> Seq<char> {
        self.path@
    }

    /// Whether the store changed since the last whole-file rewrite.
    pub closed spec fn is_dirty(&self) -> bool {
        self.dirty
    }

    /// Journaled inserts since the last whole-file rewrite.
    pub closed spec fn pending_count(&self) -> nat {
        self.pending as nat
    }

    /// Well-formedness: the key order lists every cached key exactly once,
    /// and every newly inserted key is cached.
    pub closed spec fn wf(&self) -> bool {
        &&& self.key_order().no_duplicates()
        &&& forall|k: Seq<char>| #[trigger]
            self.foils@.contains_key(k) <==> self.key_order().contains(k)
        &&& forall|i: int|
            0 <= i < self.new_keys@.len() ==> #[trigger] self.foils@.contains_key(
                self.new_keys@[i]@,
            )
    }

    /// An empty store that never persists anywhere.
    pub fn in_memory() -> (s: Self)
        ensures
            s.wf(),
            s.contents() == Map::<Seq<char>, P>::empty(),
            s.key_order() == Seq::<Seq<char>>::empty(),
            s.new_key_list() == Seq::<Seq<char>>::empty(),
            s.path_view() == Seq::<char>::empty(),
            !s.is_dirty(),
            s.pending_count() == 0,
    {
        let s = PolarStore {
            path: String::new(),
            foils: StringHashMap::new(),
            order: Vec::new(),
            dirty: false,
            new_keys: Vec::new(),
            pending: 0,
        };
        assert(s.key_order() =~= Seq::<Seq<char>>::empty());
        assert(s.new_key_list() =~= Seq::<Seq<char>>::empty());
        s
    }

    /// Set `key` in the map, recording it in the key order when it is new.
    fn put(&mut self, key: String, polar: P)
        requires
            old(self).wf(),
        ensures
            final(self).wf(),
            final(self).contents() == old(self).contents().insert(key@, polar),
            final(self).key_order() == (if old(self).contents().contains_key(key@) {
                old(self).key_order()
            } else {
                old(self).key_order().push(key@)
            }),
            final(self).path == old(self).path,
            final(self).new_keys == old(self).new_keys,
            final(self).dirty == old(self).dirty,
            final(self).pending == old(self).pending,
    {
        let ghost old_order = self.key_order();
        if !self.foils.contains_key(key.as_str()) {
            let k2 = key.clone();
            self.order.push(k2);
            assert(self.key_order() =~= old_order.push(key@));
            assert forall|k: Seq<char>| #[trigger]
                self.key_order().contains(k) <==> (old_order.contains(k) || k == key@) by {
                if self.key_order().contains(k) {
                    let i = choose|i: int|
                        0 <= i < self.key_order().len() && self.key_order()[i] == k;
                    if i < old_order.len() {
                        assert(old_order[i] == k);
                    }
                }
                if old_order.contains(k) {
                    let i = choose|i: int| 0 <= i < old_order.len() && old_order[i] == k;
                    assert(self.key_order()[i] == k);
                }
                if k == key@ {
                    assert(self.key_order()[old_order.len() as int] == k);
                }
            }
        }
        self.foils.insert(key, polar);
    }

    /// A store loaded from `path`: the whole file's entries first, then
    /// every journal record appended since its last rewrite (a journal
    /// record wins over the file's copy of a key).  The host reads and
    /// parses both; an unreadable file or a torn journal line contributes
    /// nothing.
    pub fn load(path: &str, file: Vec<(String, P)>, journal: Vec<(String, P)>) -> (s: Self)
        ensures
            s.wf(),
            s.contents() == replay(
                replay(Map::<Seq<char>, P>::empty(), record_views(file@)),
                record_views(journal@),
            ),
            s.new_key_list() == Seq::<Seq<char>>::empty(),
            s.path_view() == path@,
            !s.is_dirty(),
            s.pending_count() == 0,
    {
        let mut s = Self::in_memory();
        s.path = String::from_str(path);
        let mut file = file;
        let mut journal = journal;
        s.replay_records(&mut file);
        s.replay_records(&mut journal);
        s
    }

    /// Hydrate from a parsed cache document: the store keeps no path, so
    /// it never persists, and nothing it holds counts as freshly inserted.
    pub fn from_entries(entries: Vec<(String, P)>) -> (s: Self)
        ensures
            s.wf(),
            s.contents() == replay(Map::<Seq<char>, P>::empty(), record_views(entries@)),
            s.new_key_list() == Seq::<Seq<char>>::empty(),
            s.path_view() == Seq::<char>::empty(),
            !s.is_dirty(),
            s.pending_count() == 0,
    {
        let mut s = Self::in_memory();
        let mut entries = entries;
        s.replay_records(&mut entries);
        s
    }

    /// Apply `records` in order (draining them).
    fn replay_records(&mut self, records: &mut Vec<(String, P)>)
        requires
            old(self).wf(),
        ensures
            final(self).wf(),
            final(self).contents() == replay(old(self).contents(), record_views(old(records)@)),
            final(self).path == old(self).path,
            final(self).new_keys == old(self).new_keys,
            final(self).dirty == old(self).dirty,
            final(self).pending == old(self).pending,
    {
        let ghost rs = record_views(old(records)@);
        let ghost m0 = self.contents();
        let ghost n = rs.len();
        while records.len() > 0
            invariant
                self.wf(),
                n == rs.len(),
                rs == record_views(old(records)@),
                records@.len() <= n,
                records@ == old(records)@.skip(n - records@.len()),
                self.contents() == replay(m0, rs.take(n - records@.len())),
                self.path == old(self).path,
                self.new_keys == old(self).new_keys,
                self.dirty == old(self).dirty,
                self.pending == old(self).pending,
            decreases records@.len(),
        {
            let ghost done = n - records@.len();
            let r = records.remove(0);
            assert(records@ =~= old(records)@.skip(done + 1));
            let (k, v) = r;
            assert(rs.take(done + 1).drop_last() =~= rs.take(done));
            assert(rs[done] == (k@, v));
            self.put(k, v);
        }
        assert(rs.take(n as int) =~= rs);
    }

    pub fn get(&self, key: &str) -> (r: Option<&P>)
        ensures
            match r {
                Some(p) => self.contents().contains_key(key@) && *p == self.contents()[key@],
                None => !self.contents().contains_key(key@),
            },
    {
        self.foils.get(key)
    }

    /// Insert a freshly simulated polar.  A path-backed store journals the
    /// record at once and asks for a whole-file rewrite every
    /// [`FULL_SAVE_EVERY`] journaled inserts; a store without a path never
    /// persists.
    pub fn insert(&mut self, key: String, polar: P) -> (out: InsertOutcome)
        requires
            old(self).wf(),
            old(self).pending_count() < usize::MAX,
        ensures
            final(self).wf(),
            final(self).contents() == old(self).contents().insert(key@, polar),
            final(self).key_order() == (if old(self).contents().contains_key(key@) {
                old(self).key_order()
            } else {
                old(self).key_order().push(key@)
            }),
            final(self).new_key_list() == old(self).new_key_list().push(key@),
            final(self).new_key_list() == pending_after(old(self).new_key_list(), StoreCall::Insert(key@)),
            final(self).path_view() == old(self).path_view(),
            final(self).is_dirty(),
            out.journal == (old(self).path_view().len() > 0),
            final(self).pending_count() == old(self).pending_count() + (if out.journal {
                1nat
            } else {
                0nat
            }),
            out.compact == (out.journal && final(self).pending_count() >= FULL_SAVE_EVERY),
    {
        let journal = !self.path.as_str().is_empty();
        if journal {
            self.pending = self.pending + 1;
        }
        let k2 = key.clone();
        self.put(key, polar);
        let ghost old_new = self.new_key_list();
        self.new_keys.push(k2);
        assert(self.new_key_list() =~= old_new.push(k2@));
        self.dirty = true;
        InsertOutcome { journal, compact: journal && self.pending >= FULL_SAVE_EVERY }
    }

    /// Insert pre-existing data (a warm-up load, not a new simulation): the
    /// entry is available for lookups but is not marked for persistence.
    pub fn hydrate(&mut self, key: String, polar: P)
        requires
            old(self).wf(),
        ensures
            final(self).wf(),
            final(self).contents() == old(self).contents().insert(key@, polar),
            final(self).new_key_list() == old(self).new_key_list(),
            final(self).new_key_list() == pending_after(old(self).new_key_list(), StoreCall::Hydrate(key@)),
            final(self).path_view() == old(self).path_view(),
            final(self).is_dirty() == old(self).is_dirty(),
            final(self).pending_count() == old(self).pending_count(),
    {
        self.put(key, polar);
    }

    /// Whether a whole-file rewrite is due: the store changed since the
    /// last one and it has a file to write.
    pub fn needs_save(&self) -> (r: bool)
        ensures
            r == (self.is_dirty() && self.path_view().len() > 0),
    {
        self.dirty && !self.path.as_str().is_empty()
    }

    /// Record a compaction attempt: when one was due and the host's
    /// rewrite succeeded (`rewritten`), nothing is dirty or pending any
    /// more; otherwise the store is unchanged.
    pub fn save(&mut self, rewritten: bool)
        requires
            old(self).wf(),
        ensures
            final(self).wf(),
            final(self).contents() == old(self).contents(),
            final(self).key_order() == old(self).key_order(),
            final(self).new_key_list() == old(self).new_key_list(),
            final(self).path_view() == old(self).path_view(),
            (old(self).is_dirty() && old(self).path_view().len() > 0 && rewritten) ==> (
            !final(self).is_dirty() && final(self).pending_count() == 0),
            !(old(self).is_dirty() && old(self).path_view().len() > 0 && rewritten) ==> (
            final(self).is_dirty() == old(self).is_dirty() && final(self).pending_count()
                == old(self).pending_count()),
    {
        if self.needs_save() && rewritten {
            self.dirty = false;
            self.pending = 0;
        }
    }

    proof fn lemma_len(&self)
        requires
            self.wf(),
        ensures
            self.contents().dom() == self.key_order().to_set(),
            self.contents().dom().finite(),
            self.contents().len() == self.key_order().len(),
    {
        assert(self.contents().dom() =~= self.key_order().to_set());
        self.key_order().unique_seq_to_set();
    }

    /// Number of stored polars.
    pub fn len(&self) -> (r: usize)
        requires
            self.wf(),
        ensures
            r == self.contents().len(),
            r == self.key_order().len(),
    {
        proof {
            self.lemma_len();
        }
        self.order.len()
    }

    pub fn is_empty(&self) -> (r: bool)
        requires
            self.wf(),
        ensures
            r == (self.contents().len() == 0),
    {
        proof {
            self.lemma_len();
        }
        self.order.len() == 0
    }

    /// The cache file location.
    pub fn path(&self) -> (r: &str)
        ensures
            r@ == self.path_view(),
    {
        self.path.as_str()
    }

    /// The cached keys in order of first insertion (what the host walks to
    /// write the whole cache document).
    pub fn keys(&self) -> (r: &Vec<String>)
        requires
            self.wf(),
        ensures
            key_views(r@) == self.key_order(),
            forall|k: Seq<char>| #[trigger] self.contents().contains_key(k) <==> key_views(r@).contains(k),
            key_views(r@).no_duplicates(),
    {
        &self.order
    }
}

impl<P: Clone> PolarStore<P> {
    /// The polars inserted since the last call, each key once in order of
    /// its first insert, with a copy of its current value.  The store keeps
    /// every entry; only the new-entry tracking is drained.
    pub fn take_new_entries(&mut self) -> (out: Vec<(String, P)>)
        requires
            old(self).wf(),
        ensures
            final(self).wf(),
            final(self).contents() == old(self).contents(),
            final(self).key_order() == old(self).key_order(),
            final(self).new_key_list() == Seq::<Seq<char>>::empty(),
            final(self).new_key_list() == pending_after(old(self).new_key_list(), StoreCall::Drain),
            final(self).path_view() == old(self).path_view(),
            final(self).is_dirty() == old(self).is_dirty(),
            final(self).pending_count() == old(self).pending_count(),
            out@.len() == distinct_in_order(old(self).new_key_list()).len(),
            forall|i: int|
                0 <= i < out@.len() ==> (#[trigger] out@[i]).0@ == distinct_in_order(
                    old(self).new_key_list(),
                )[i] && old(self).contents().contains_key(out@[i].0@) && cloned(
                    old(self).contents()[out@[i].0@],
                    out@[i].1,
                ),
    {
        let mut keys: Vec<String> = Vec::new();
        std::mem::swap(&mut keys, &mut self.new_keys);
        let ghost ks = key_views(keys@);
        assert(self.new_key_list() =~= Seq::<Seq<char>>::empty());
        let mut out: Vec<(String, P)> = Vec::new();
        let mut i: usize = 0;
        while i < keys.len()
            invariant
                self.wf(),
                ks == key_views(keys@),
                ks == old(self).new_key_list(),
                forall|j: int| 0 <= j < keys@.len() ==> #[trigger] self.foils@.contains_key(keys@[j]@),
                self.foils == old(self).foils,
                self.order == old(self).order,
                self.new_keys@.len() == 0,
                self.path == old(self).path,
                self.dirty == old(self).dirty,
                self.pending == old(self).pending,
                i <= keys@.len(),
                out@.len() == distinct_in_order(ks.take(i as int)).len(),
                forall|j: int|
                    0 <= j < out@.len() ==> (#[trigger] out@[j]).0@ == distinct_in_order(
                        ks.take(i as int),
                    )[j] && self.foils@.contains_key(out@[j].0@) && cloned(
                        self.foils@[out@[j].0@],
                        out@[j].1,
                    ),
            decreases keys@.len() - i,
        {
            let ghost before = distinct_in_order(ks.take(i as int));
            assert(ks.take(i + 1).drop_last() =~= ks.take(i as int));
            assert(ks.take(i + 1).last() == keys@[i as int]@);
            let seen = Self::listed(&out, &keys[i]);
            if !seen {
                assert(!before.contains(keys@[i as int]@)) by {
                    if before.contains(keys@[i as int]@) {
                        let j = choose|j: int|
                            0 <= j < before.len() && before[j] == keys@[i as int]@;
                        assert(out@[j].0@ == keys@[i as int]@);
                    }
                }
                assert(self.foils@.contains_key(keys@[i as int]@));
                let p = self.foils.get(keys[i].as_str()).unwrap();
                let c = p.clone();
                out.push((keys[i].clone(), c));
                assert(distinct_in_order(ks.take(i + 1)) =~= before.push(keys@[i as int]@));
            } else {
                assert(before.contains(keys@[i as int]@)) by {
                    let j = choose|j: int| 0 <= j < out@.len() && out@[j].0@ == keys@[i as int]@;
                    assert(before[j] == keys@[i as int]@);
                }
            }
            i = i + 1;
        }
        assert(ks.take(keys@.len() as int) =~= ks);
        out
    }

    /// Whether `out` already lists `key`.
    fn listed(out: &Vec<(String, P)>, key: &String) -> (r: bool)
        ensures
            r == (exists|j: int| 0 <= j < out@.len() && (#[trigger] out@[j]).0@ == key@),
    {
        let mut j: usize = 0;
        while j < out.len()
            invariant
                j <= out@.len(),
                forall|t: int| 0 <= t < j ==> (#[trigger] out@[t]).0@ != key@,
            decreases out@.len() - j,
        {
            if out[j].0 == *key {
                return true;
            }
            j = j + 1;
        }
        false
    }
}

/// The cache key of a polar: `"<foil hash>|<reynolds>|<mach>"`, from the
/// foil's hash and the decimal texts of the Reynolds and Mach numbers.
pub fn cache_key(hash: &str, reynolds: &str, mach: &str) -> (r: String)
    ensures
        r@ == hash@ + "|"@ + reynolds@ + "|"@ + mach@,
{
    String::from_str(hash).concat("|").concat(reynolds).concat("|").concat(mach)
}

/// The append-only journal's path: the cache path with `.journal` appended.
pub fn journal_path(cache_path: &str) -> (r: String)
    ensures
        r@ == cache_path@ + ".journal"@,
{
    String::from_str(cache_path).concat(".journal")
}

/// Default cache file name.
pub fn default_cache_path() -> (r: String)
    ensures
        r@ == "foil_cache.json"@,
{
    String::from_str("foil_cache.json")
}

} // verus!
