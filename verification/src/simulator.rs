//! The bookkeeping around simulated polar buckets: which cached sweep is
//! usable, when a bucket is simulated or falls back to the flat-plate
//! model, the keys whose sweep is in flight (each key is swept by one
//! caller while the others wait), and the session's set of keys proven
//! degenerate, which is persisted beside the polar cache so later runs skip
//! those sweeps.
use vstd::prelude::*;
use crate::cache::key_views;

verus! {

/// A sweep needs more converged points than this to be fitted.
pub const MIN_FIT_POINTS: usize = 20;

/// A sweep with fewer converged points than this is a failure: it is
/// retried once with a fresh solver, and if it fails again the bucket is
/// cached as a degenerate marker.
pub const MIN_SWEEP_POINTS: usize = 5;

/// What the polar store holds for a bucket key.
#[derive(PartialEq, Eq, Structural, Clone, Copy, Debug)]
pub enum CachedPolar {
    /// Nothing stored.
    Missing,
    /// A stored sweep that can be fitted.
    Usable,
    /// A stored sweep that cannot (too few points, unphysical drag, or a
    /// failure marker).
    Degenerate,
}

/// Where a bucket's polar fits come from.
#[derive(PartialEq, Eq, Structural, Clone, Copy, Debug)]
pub enum BucketSource {
    /// Fit the stored sweep.
    Fit,
    /// Use the flat-plate model; `mark_bad` asks to remember the key as
    /// degenerate for the session.
    FlatPlate { mark_bad: bool },
    /// Run the sweep now (then decide with [`after_simulation`]).
    Simulate,
}

/// Whether a stored sweep can be fitted: more than [`MIN_FIT_POINTS`]
/// points and physical drag.
pub fn polar_usable(n_points: usize, physical: bool) -> (r: bool)
    ensures
        r == (n_points > MIN_FIT_POINTS && physical),
{
    n_points > MIN_FIT_POINTS && physical
}

/// The source of a bucket's fits once its key is claimed: a key already
/// proven degenerate, or a stored degenerate sweep, takes the flat plate
/// (the sweep would fail again the same way); a usable sweep is fitted;
/// otherwise the bucket is simulated.
pub fn bucket_source(known_bad: bool, cached: CachedPolar) -> (r: BucketSource)
    ensures
        known_bad ==> r == (BucketSource::FlatPlate { mark_bad: false }),
        !known_bad && cached == CachedPolar::Usable ==> r == BucketSource::Fit,
        !known_bad && cached == CachedPolar::Degenerate ==> r == (BucketSource::FlatPlate {
            mark_bad: true,
        }),
        !known_bad && cached == CachedPolar::Missing ==> r == BucketSource::Simulate,
{
    if known_bad {
        BucketSource::FlatPlate { mark_bad: false }
    } else {
        match cached {
            CachedPolar::Usable => BucketSource::Fit,
            CachedPolar::Degenerate => BucketSource::FlatPlate { mark_bad: true },
            CachedPolar::Missing => BucketSource::Simulate,
        }
    }
}

/// The source after a fresh sweep was stored: fit it when usable, else
/// take the flat plate and remember the key as degenerate.
pub fn after_simulation(cached: CachedPolar) -> (r: BucketSource)
    ensures
        cached == CachedPolar::Usable ==> r == BucketSource::Fit,
        cached != CachedPolar::Usable ==> r == (BucketSource::FlatPlate { mark_bad: true }),
{
    match cached {
        CachedPolar::Usable => BucketSource::Fit,
        _ => BucketSource::FlatPlate { mark_bad: true },
    }
}

/// Whether a sweep failed (too few converged points to fit).
pub fn sweep_failed(converged_points: usize) -> (r: bool)
    ensures
        r == (converged_points < MIN_SWEEP_POINTS),
{
    converged_points < MIN_SWEEP_POINTS
}

/// The cache key of one simulated bucket: buckets simulated at low
/// Reynolds numbers (with the lowered transition criterion) carry a
/// version suffix, so entries cached under the old criterion are never
/// found again.
pub fn bucket_cache_key(key: String, low_reynolds: bool) -> (r: String)
    ensures
        low_reynolds ==> r@ == key@ + "|n5"@,
        !low_reynolds ==> r@ == key@,
{
    if low_reynolds {
        key.concat("|n5")
    } else {
        key
    }
}

/// The sidecar path of a polar cache: `foil_cache.bad.json` beside
/// `foil_cache.json`.  A path ending in `.json` has that ending replaced
/// by `.bad.json`; any other path has `.bad.json` appended.
pub open spec fn sidecar_path(cache_path: Seq<char>) -> Seq<char> {
    let n = cache_path.len() as int;
    if n >= 5 && cache_path.skip(n - 5) == ".json"@ {
        cache_path.take(n - 5) + ".bad.json"@
    } else {
        cache_path + ".bad.json"@
    }
}

/// The sidecar file that carries the degenerate-key markers across runs
/// (see [`sidecar_path`]).
pub fn bad_keys_sidecar(cache_path: &str) -> (r: String)
    ensures
        r@ == sidecar_path(cache_path@),
{
    let n: usize = cache_path.unicode_len();
    if n >= 5 {
        let tail = cache_path.substring_char(n - 5, n);
        assert(tail@ =~= cache_path@.skip(n - 5));
        if crate::text::str_eq(tail, ".json") {
            let head = cache_path.substring_char(0, n - 5);
            assert(head@ =~= cache_path@.take(n - 5));
            return String::from_str(head).concat(".bad.json");
        }
    }
    String::from_str(cache_path).concat(".bad.json")
}

/// The string list a JSON document holds (`serde_json`'s reading of a
/// `Vec<String>`), if it is one.
pub uninterp spec fn json_string_list(text: Seq<char>) -> Option<Seq<Seq<char>>>;

/// The JSON document `serde_json` writes for a list of strings.
pub uninterp spec fn json_of_strings(keys: Seq<Seq<char>>) -> Seq<char>;

/// `serde_json::from_str::<Vec<String>>`: the list, or `None` when the
/// text is not a JSON array of strings.  Its result is named
/// [`json_string_list`]; the JSON grammar itself is not restated here.
#[verifier::external_body]
fn parse_key_list(text: &str) -> (r: Option<Vec<String>>)
    ensures
        match r {
            Some(v) => json_string_list(text@) == Some(key_views(v@)),
            None => json_string_list(text@) is None,
        },
{
    serde_json::from_str::<Vec<String>>(text).ok()
}

/// `serde_json::to_string` of a `Vec<String>`: the document named
/// [`json_of_strings`], which reads back as the same list.  Serializing
/// fails only through a failing `Serialize` impl or a map with non-string
/// keys, so a list of strings always serializes.
#[verifier::external_body]
fn encode_key_list(keys: &Vec<String>) -> (r: Option<String>)
    ensures
        r is Some,
        r matches Some(s) ==> s@ == json_of_strings(key_views(keys@)) && json_string_list(s@)
            == Some(key_views(keys@)),
{
    serde_json::to_string(keys).ok()
}

/// Strict lexicographic order on character strings (the order of `String`
/// comparison: UTF-8 preserves the order of code points).
pub open spec fn lex_lt(a: Seq<char>, b: Seq<char>) -> bool
    decreases a.len(),
{
    if a.len() == 0 {
        b.len() > 0
    } else if b.len() == 0 {
        false
    } else if a[0] != b[0] {
        a[0] < b[0]
    } else {
        lex_lt(a.drop_first(), b.drop_first())
    }
}

proof fn lemma_lex_irreflexive(a: Seq<char>)
    ensures
        !lex_lt(a, a),
    decreases a.len(),
{
    if a.len() > 0 {
        lemma_lex_irreflexive(a.drop_first());
    }
}

proof fn lemma_lex_total(a: Seq<char>, b: Seq<char>)
    ensures
        lex_lt(a, b) || a == b || lex_lt(b, a),
        !(lex_lt(a, b) && lex_lt(b, a)),
        !lex_lt(a, a),
    decreases a.len(),
{
    lemma_lex_irreflexive(a);
    if a.len() > 0 && b.len() > 0 {
        lemma_lex_total(a.drop_first(), b.drop_first());
        if a[0] == b[0] && a.drop_first() == b.drop_first() {
            assert forall|i: int| 0 <= i < a.len() implies a[i] == b[i] by {
                if i > 0 {
                    assert(a[i] == a.drop_first()[i - 1]);
                    assert(b[i] == b.drop_first()[i - 1]);
                }
            }
            assert(a =~= b);
        }
    } else if a.len() == 0 && b.len() == 0 {
        assert(a =~= b);
    }
}

/// `lex_lt(a, b)` computed.
fn lex_less(a: &Vec<char>, b: &Vec<char>) -> (r: bool)
    ensures
        r == lex_lt(a@, b@),
{
    let mut i: usize = 0;
    assert(a@.skip(0) =~= a@);
    assert(b@.skip(0) =~= b@);
    assert(a@.take(0) =~= b@.take(0));
    while i < a.len() && i < b.len() && a[i] == b[i]
        invariant
            i <= a@.len(),
            i <= b@.len(),
            a@.take(i as int) == b@.take(i as int),
            lex_lt(a@, b@) == lex_lt(a@.skip(i as int), b@.skip(i as int)),
        decreases a@.len() - i,
    {
        proof {
            let sa = a@.skip(i as int);
            let sb = b@.skip(i as int);
            assert(sa[0] == sb[0]);
            assert(sa.drop_first() =~= a@.skip(i + 1));
            assert(sb.drop_first() =~= b@.skip(i + 1));
        }
        i = i + 1;
        assert(a@.take(i as int) =~= b@.take(i as int)) by {
            assert forall|j: int| 0 <= j < i implies a@.take(i as int)[j] == b@.take(i as int)[j] by {
                if j < i - 1 {
                    assert(a@.take(i - 1)[j] == b@.take(i - 1)[j]);
                }
            }
        }
    }
    let ghost sa = a@.skip(i as int);
    let ghost sb = b@.skip(i as int);
    if i == a.len() {
        i < b.len()
    } else if i == b.len() {
        false
    } else {
        assert(sa[0] == a@[i as int]);
        assert(sb[0] == b@[i as int]);
        a[i] < b[i]
    }
}

/// Strictly ascending in lexicographic order.
pub open spec fn strictly_ascending(s: Seq<Seq<char>>) -> bool {
    forall|i: int| 0 <= i < s.len() - 1 ==> lex_lt(#[trigger] s[i], s[i + 1])
}

/// A set of polar-cache keys, each held once: the session's keys proven
/// degenerate ([`bad_keys`]), or the keys whose sweep is in flight
/// ([`sim_keys`]).
pub struct KeySet {
    keys: Vec<String>,
}

impl KeySet {
    /// The keys, as a set.
    pub closed spec fn key_set(&self) -> Set<Seq<char>> {
        key_views(self.keys@).to_set()
    }

    pub closed spec fn wf(&self) -> bool {
        key_views(self.keys@).no_duplicates()
    }

    /// The empty set.
    pub fn new() -> (s: Self)
        ensures
            s.wf(),
            s.key_set() == Set::<Seq<char>>::empty(),
    {
        let s = KeySet { keys: Vec::new() };
        assert(s.key_set() =~= Set::<Seq<char>>::empty());
        s
    }

    fn position(&self, key: &str) -> (r: Option<usize>)
        ensures
            match r {
                Some(i) => i < self.keys@.len() && self.keys@[i as int]@ == key@,
                None => !key_views(self.keys@).contains(key@),
            },
    {
        let mut i: usize = 0;
        while i < self.keys.len()
            invariant
                i <= self.keys@.len(),
                forall|j: int| 0 <= j < i ==> (#[trigger] self.keys@[j])@ != key@,
            decreases self.keys@.len() - i,
        {
            if crate::text::str_eq(self.keys[i].as_str(), key) {
                return Some(i);
            }
            i = i + 1;
        }
        assert(!key_views(self.keys@).contains(key@)) by {
            if key_views(self.keys@).contains(key@) {
                let j = choose|j: int| 0 <= j < key_views(self.keys@).len() && key_views(self.keys@)[j] == key@;
                assert(self.keys@[j]@ == key@);
            }
        }
        None
    }

    pub fn contains(&self, key: &str) -> (r: bool)
        ensures
            r == self.key_set().contains(key@),
    {
        match self.position(key) {
            Some(i) => {
                assert(key_views(self.keys@)[i as int] == key@);
                true
            },
            None => false,
        }
    }

    /// Add `key`.
    pub fn insert(&mut self, key: String)
        requires
            old(self).wf(),
        ensures
            final(self).wf(),
            final(self).key_set() == old(self).key_set().insert(key@),
    {
        let found = self.position(key.as_str());
        if found.is_none() {
            let ghost before = key_views(self.keys@);
            self.keys.push(key);
            assert(key_views(self.keys@) =~= before.push(key@));
            assert(self.key_set() =~= old(self).key_set().insert(key@)) by {
                assert forall|k: Seq<char>| #[trigger] key_views(self.keys@).contains(k) <==> (
                before.contains(k) || k == key@) by {
                    if key_views(self.keys@).contains(k) {
                        let j = choose|j: int| 0 <= j < key_views(self.keys@).len() && key_views(self.keys@)[j] == k;
                        if j < before.len() {
                            assert(before[j] == k);
                        }
                    }
                    if before.contains(k) {
                        let j = choose|j: int| 0 <= j < before.len() && before[j] == k;
                        assert(key_views(self.keys@)[j] == k);
                    }
                    if k == key@ {
                        assert(key_views(self.keys@)[before.len() as int] == k);
                    }
                }
            }
        } else {
            let i = found.unwrap();
            assert(key_views(self.keys@)[i as int] == key@);
            assert(self.key_set().contains(key@));
            assert(self.key_set() =~= old(self).key_set().insert(key@));
        }
    }

    /// Claim `key` for a sweep: `true` when it was free and is now held by
    /// the caller, `false` when another sweep holds it (the caller waits
    /// for its release and asks again).  Either way the key is held after.
    pub fn try_claim(&mut self, key: String) -> (r: bool)
        requires
            old(self).wf(),
        ensures
            final(self).wf(),
            r == !old(self).key_set().contains(key@),
            final(self).key_set() == old(self).key_set().insert(key@),
    {
        if self.contains(key.as_str()) {
            assert(self.key_set().insert(key@) =~= self.key_set());
            false
        } else {
            self.insert(key);
            true
        }
    }

    /// Forget `key` (a finished sweep releases its claim this way).
    pub fn remove(&mut self, key: &str)
        requires
            old(self).wf(),
        ensures
            final(self).wf(),
            final(self).key_set() == old(self).key_set().remove(key@),
    {
        match self.position(key) {
            None => {
                assert(self.key_set() =~= old(self).key_set().remove(key@));
            },
            Some(i) => {
                let ghost before = key_views(self.keys@);
                let _ = self.keys.remove(i);
                let ghost after = key_views(self.keys@);
                assert(after =~= before.remove(i as int));
                assert(before[i as int] == key@);
                assert forall|k: Seq<char>| #[trigger] after.contains(k) <==> (before.contains(k)
                    && k != key@) by {
                    if after.contains(k) {
                        let j = choose|j: int| 0 <= j < after.len() && after[j] == k;
                        if j < i {
                            assert(before[j] == k);
                            assert(before[j] != before[i as int]);
                        } else {
                            assert(before[j + 1] == k);
                            assert(before[j + 1] != before[i as int]);
                        }
                    }
                    if before.contains(k) && k != key@ {
                        let j = choose|j: int| 0 <= j < before.len() && before[j] == k;
                        if j < i {
                            assert(after[j] == k);
                        } else {
                            assert(j != i);
                            assert(after[j - 1] == k);
                        }
                    }
                }
                assert(self.key_set() =~= old(self).key_set().remove(key@));
            },
        }
    }

    /// Merge the markers of a sidecar document into the session set.  A
    /// document that is not a JSON list of strings adds nothing (the
    /// markers only suppress re-sweeping keys already proven degenerate).
    pub fn load_persisted(&mut self, text: &str)
        requires
            old(self).wf(),
        ensures
            final(self).wf(),
            match json_string_list(text@) {
                Some(ks) => final(self).key_set() == old(self).key_set().union(ks.to_set()),
                None => final(self).key_set() == old(self).key_set(),
            },
    {
        match parse_key_list(text) {
            None => {},
            Some(list) => {
                let ghost ks = key_views(list@);
                let mut list = list;
                let ghost start = self.key_set();
                let ghost n = list@.len();
                while list.len() > 0
                    invariant
                        self.wf(),
                        n == ks.len(),
                        list@.len() <= n,
                        forall|j: int| 0 <= j < list@.len() ==> (#[trigger] list@[j])@ == ks[j],
                        self.key_set() == start.union(ks.skip(list@.len() as int).to_set()),
                    decreases list@.len(),
                {
                    let ghost m = list@.len();
                    let k = list.pop().unwrap();
                    assert(k@ == ks[m - 1]);
                    self.insert(k);
                    let ghost a = ks.skip(m - 1);
                    let ghost b = ks.skip(m as int);
                    assert(a.to_set() =~= b.to_set().insert(ks[m - 1])) by {
                        assert forall|x: Seq<char>| a.contains(x) <==> (b.contains(x) || x == ks[m - 1]) by {
                            if a.contains(x) {
                                let j = choose|j: int| 0 <= j < a.len() && a[j] == x;
                                if j > 0 {
                                    assert(b[j - 1] == x);
                                }
                            }
                            if b.contains(x) {
                                let j = choose|j: int| 0 <= j < b.len() && b[j] == x;
                                assert(a[j + 1] == x);
                            }
                            if x == ks[m - 1] {
                                assert(a[0] == x);
                            }
                        }
                    }
                    assert(self.key_set() =~= start.union(ks.skip(m - 1).to_set()));
                }
                assert(ks.skip(0) =~= ks);
            },
        }
    }

    /// The keys in ascending order, each once.
    pub fn sorted_keys(&self) -> (r: Vec<String>)
        requires
            self.wf(),
        ensures
            key_views(r@).no_duplicates(),
            key_views(r@).to_set() == self.key_set(),
            strictly_ascending(key_views(r@)),
    {
        let mut out: Vec<String> = Vec::new();
        let mut outc: Vec<Vec<char>> = Vec::new();
        let mut i: usize = 0;
        while i < self.keys.len()
            invariant
                self.wf(),
                i <= self.keys@.len(),
                outc@.len() == out@.len(),
                forall|j: int| 0 <= j < out@.len() ==> (#[trigger] outc@[j])@ == out@[j]@,
                key_views(out@).no_duplicates(),
                key_views(out@).to_set() == key_views(self.keys@.take(i as int)).to_set(),
                strictly_ascending(key_views(out@)),
            decreases self.keys@.len() - i,
        {
            let k = self.keys[i].clone();
            let kc = crate::text::chars_of(k.as_str());
            let ghost o = key_views(out@);
            // The first position whose key sorts after `k`.
            let mut p: usize = 0;
            while p < outc.len() && !lex_less(&kc, &outc[p])
                invariant
                    p <= outc@.len(),
                    outc@.len() == out@.len(),
                    forall|j: int| 0 <= j < out@.len() ==> (#[trigger] outc@[j])@ == out@[j]@,
                    forall|j: int| 0 <= j < p ==> !lex_lt(kc@, #[trigger] o[j]),
                    o == key_views(out@),
                decreases outc@.len() - p,
            {
                p = p + 1;
            }
            proof {
                // `k` is not yet listed: the keys are distinct.
                assert(!o.contains(k@)) by {
                    if o.contains(k@) {
                        assert(key_views(self.keys@.take(i as int)).to_set().contains(k@));
                        let j = choose|j: int| 0 <= j < i && key_views(self.keys@.take(i as int))[j] == k@;
                        assert(key_views(self.keys@)[j] == key_views(self.keys@)[i as int]);
                    }
                }
                if p > 0 {
                    lemma_lex_total(kc@, o[p - 1]);
                    assert(o[p - 1] != k@) by {
                        assert(o[p - 1] == o[p - 1]);
                    }
                }
            }
            out.insert(p, k);
            outc.insert(p, kc);
            let ghost n2 = key_views(out@);
            proof {
                assert(n2 =~= o.insert(p as int, kc@));
                assert forall|a: int| 0 <= a < n2.len() - 1 implies lex_lt(#[trigger] n2[a], n2[a + 1]) by {
                    if a < p as int - 1 {
                        assert(lex_lt(o[a], o[a + 1]));
                    } else if a == p as int - 1 {
                    } else if a == p as int {
                    } else {
                        assert(lex_lt(o[a - 1], o[a]));
                    }
                }
                let t = key_views(self.keys@.take(i as int));
                assert(key_views(self.keys@.take(i + 1)) =~= t.push(k@));
                assert forall|x: Seq<char>| #[trigger] n2.to_set().contains(x) == t.push(k@).to_set().contains(x) by {
                    let in_o = o.contains(x);
                    let in_t = t.contains(x);
                    assert(o.to_set().contains(x) == t.to_set().contains(x));
                    if n2.contains(x) {
                        let j = choose|j: int| 0 <= j < n2.len() && n2[j] == x;
                        if j < p {
                            assert(o[j] == x);
                        } else if j > p {
                            assert(o[j - 1] == x);
                        }
                        assert(in_o || x == k@);
                    }
                    if in_o {
                        let j = choose|j: int| 0 <= j < o.len() && o[j] == x;
                        if j < p {
                            assert(n2[j] == x);
                        } else {
                            assert(n2[j + 1] == x);
                        }
                    }
                    if x == k@ {
                        assert(n2[p as int] == x);
                    }
                    if t.push(k@).contains(x) {
                        let j = choose|j: int| 0 <= j < t.push(k@).len() && t.push(k@)[j] == x;
                        if j < t.len() {
                            assert(t[j] == x);
                        }
                        assert(in_t || x == k@);
                    }
                    if in_t {
                        let j = choose|j: int| 0 <= j < t.len() && t[j] == x;
                        assert(t.push(k@)[j] == x);
                    }
                    if x == k@ {
                        assert(t.push(k@)[t.len() as int] == x);
                    }
                }
                assert(n2.to_set() =~= key_views(self.keys@.take(i + 1)).to_set());
                assert forall|a: int, b: int| 0 <= a < n2.len() && 0 <= b < n2.len() && a != b implies n2[a] != n2[b] by {
                    let a0 = if a < p { a } else if a > p { a - 1 } else { -1 };
                    let b0 = if b < p { b } else if b > p { b - 1 } else { -1 };
                    if a0 >= 0 && b0 >= 0 {
                        assert(o[a0] != o[b0]);
                    } else if a0 >= 0 {
                        assert(o.contains(o[a0]));
                    } else if b0 >= 0 {
                        assert(o.contains(o[b0]));
                    }
                }
            }
            i = i + 1;
        }
        assert(self.keys@.take(self.keys@.len() as int) =~= self.keys@);
        out
    }

    /// What persisting the set does to the sidecar: an empty set removes
    /// any stale sidecar, otherwise the sorted key list is written.
    pub fn persisted(&self) -> (r: SidecarAction)
        requires
            self.wf(),
        ensures
            self.key_set().len() == 0 ==> r == SidecarAction::Remove,
            self.key_set().len() > 0 ==> match r {
                SidecarAction::Write(text) => exists|ks: Seq<Seq<char>>|
                    #![trigger json_of_strings(ks)]
                    {
                    &&& ks.no_duplicates()
                    &&& ks.to_set() == self.key_set()
                    &&& strictly_ascending(ks)
                    &&& text@ == json_of_strings(ks)
                    &&& json_string_list(text@) == Some(ks)
                },
                SidecarAction::Remove => false,
            },
    {
        let keys = self.sorted_keys();
        proof {
            key_views(keys@).unique_seq_to_set();
        }
        if keys.len() == 0 {
            return SidecarAction::Remove;
        }
        let text = encode_key_list(&keys).unwrap();
        assert(key_views(keys@).no_duplicates());
        assert(text@ == json_of_strings(key_views(keys@)));
        SidecarAction::Write(text)
    }
}

/// The session's set of keys proven degenerate, as a session starts: empty
/// until a sweep proves a key degenerate or a sidecar is loaded.
pub fn bad_keys() -> (s: KeySet)
    ensures
        s.wf(),
        s.key_set() == Set::<Seq<char>>::empty(),
{
    KeySet::new()
}

/// The keys whose sweep is in flight, as a session starts: none.  A caller
/// claims a key before sweeping it and releases it after, so each key is
/// swept once while the others wait.
pub fn sim_keys() -> (s: KeySet)
    ensures
        s.wf(),
        s.key_set() == Set::<Seq<char>>::empty(),
{
    KeySet::new()
}

/// The sidecar carries the set across runs: a document written for a set
/// of keys (what [`KeySet::persisted`] writes: a list of exactly those keys
/// that reads back as that list), loaded by [`KeySet::load_persisted`] into
/// a fresh session's empty set, gives back exactly that set.
pub proof fn sidecar_carries_the_set(keys: Set<Seq<char>>, ks: Seq<Seq<char>>, text: Seq<char>)
    requires
        ks.to_set() == keys,
        json_string_list(text) == Some(ks),
    ensures
        match json_string_list(text) {
            Some(l) => Set::<Seq<char>>::empty().union(l.to_set()) == keys,
            None => false,
        },
{
    assert(Set::<Seq<char>>::empty().union(keys) =~= keys);
}

/// What the host does to the degenerate-key sidecar file.
pub enum SidecarAction {
    /// Delete the sidecar (nothing to persist).
    Remove,
    /// Write this document to the sidecar.
    Write(String),
}

} // verus!
