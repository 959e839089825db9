//! The TTL-evicting in-memory model cache: a keyed store of shared model
//! handles, refreshed on lookup and swept periodically by its caller.

use vstd::prelude::*;
use std::sync::Arc;
use crate::model::Model;
use crate::log_parse::str_eq;

verus! {

/// Default idle time before a cached model becomes eligible for
/// eviction, in seconds.
pub const DEFAULT_TTL_SECS: u64 = 20;

/// How often the eviction sweep is meant to run, in seconds; strictly
/// smaller than the TTL so staleness stays bounded.
pub const SWEEP_PERIOD_SECS: u64 = 3;

/// Default directory persisted models are kept under.
pub const DATA_DIR: &'static str = "./data";

/// The sweep period leaves an expired entry in place for less than one
/// extra TTL.
pub proof fn lemma_sweep_period_lt_ttl()
    ensures
        SWEEP_PERIOD_SECS < DEFAULT_TTL_SECS,
{
}

/// One model kept in memory, with the time it was last handed out.
pub struct CachedChain {
    nick: String,
    last_used: u64,
    chain: Arc<Model>,
}

impl CachedChain {
    /// The identity this entry is keyed by.
    pub closed spec fn spec_nick(&self) -> Seq<char> {
        self.nick@
    }

    /// When this entry was last loaded or handed out.
    pub closed spec fn spec_last_used(&self) -> u64 {
        self.last_used
    }

    /// The model the entry shares out.
    pub closed spec fn spec_model(&self) -> Model {
        *self.chain
    }

    /// The entry's key matches its model, and the model is well formed.
    pub open spec fn inv(&self) -> bool {
        self.spec_model().spec_nick() == self.spec_nick() && self.spec_model().wf()
    }
}

/// Whether position `i` of `s` holds the entry for `nick`.
pub open spec fn seq_has_at(s: Seq<CachedChain>, nick: Seq<char>, i: int) -> bool {
    0 <= i < s.len() && s[i].spec_nick() == nick
}

/// Whether some entry of `s` is keyed by `nick`.
pub open spec fn seq_contains_nick(s: Seq<CachedChain>, nick: Seq<char>) -> bool {
    exists|i: int| seq_has_at(s, nick, i)
}

/// The position of the entry for `nick` (meaningful only when present
/// and keys are unique).
pub open spec fn seq_idx(s: Seq<CachedChain>, nick: Seq<char>) -> int {
    choose|i: int| seq_has_at(s, nick, i)
}

/// The `last_used` stamp of the entry for `nick`.
pub open spec fn seq_last_of(s: Seq<CachedChain>, nick: Seq<char>) -> u64 {
    s[seq_idx(s, nick)].spec_last_used()
}

/// The model of the entry for `nick`.
pub open spec fn seq_model_of(s: Seq<CachedChain>, nick: Seq<char>) -> Model {
    s[seq_idx(s, nick)].spec_model()
}

/// Keys are pairwise distinct and every entry satisfies its invariant.
pub open spec fn wf_seq(s: Seq<CachedChain>) -> bool {
    (forall|i: int, j: int|
        0 <= i < j < s.len() ==> s[i].spec_nick() != s[j].spec_nick()) && (forall|i: int|
        0 <= i < s.len() ==> (#[trigger] s[i]).inv())
}

/// Whether an entry last touched at `last` survives a sweep at `now`.
pub open spec fn spec_keep(last: u64, ttl: u64, now: u64) -> bool {
    now <= last || now - last <= ttl
}

/// Cache TTL law, over the predicate the sweep applies: an entry last
/// touched at `t` and not touched since is removed by a sweep at any
/// `now` with `now - t > ttl`, and survives any sweep at `now` with
/// `now - t <= ttl`. `cleanup` keeps exactly the entries whose stamp
/// satisfies `spec_keep`, so this pins the fate of every entry.
pub proof fn lemma_ttl_law(t: u64, ttl: u64, now: u64)
    requires
        t <= now,
    ensures
        now - t > ttl ==> !spec_keep(t, ttl, now),
        now - t <= ttl ==> spec_keep(t, ttl, now),
{
}

/// With unique keys, an entry's position determines the lookup index.
pub proof fn lemma_idx_unique(s: Seq<CachedChain>, nick: Seq<char>, i: int)
    requires
        wf_seq(s),
        seq_has_at(s, nick, i),
    ensures
        seq_contains_nick(s, nick),
        seq_idx(s, nick) == i,
{
    assert(seq_contains_nick(s, nick));
    let j = seq_idx(s, nick);
    assert(seq_has_at(s, nick, j));
    if i < j {
        assert(s[i].spec_nick() != s[j].spec_nick());
    } else if j < i {
        assert(s[j].spec_nick() != s[i].spec_nick());
    }
}

/// At most one cache entry exists per identity: two positions holding
/// the same identity are the same position.
pub proof fn lemma_at_most_one_entry(s: Seq<CachedChain>, nick: Seq<char>, i: int, j: int)
    requires
        wf_seq(s),
        seq_has_at(s, nick, i),
        seq_has_at(s, nick, j),
    ensures
        i == j,
{
    lemma_idx_unique(s, nick, i);
    lemma_idx_unique(s, nick, j);
}

/// What pushing a fresh entry does to every keyed view of the sequence.
pub proof fn lemma_push_keyed(s: Seq<CachedChain>, e: CachedChain)
    requires
        wf_seq(s),
        !seq_contains_nick(s, e.spec_nick()),
        e.inv(),
    ensures
        wf_seq(s.push(e)),
        forall|n2: Seq<char>|
            #[trigger] seq_contains_nick(s.push(e), n2) == (seq_contains_nick(s, n2) || n2
                == e.spec_nick()),
        seq_last_of(s.push(e), e.spec_nick()) == e.spec_last_used(),
        seq_model_of(s.push(e), e.spec_nick()) == e.spec_model(),
        forall|n2: Seq<char>|
            seq_contains_nick(s, n2) ==> #[trigger] seq_last_of(s.push(e), n2) == seq_last_of(
                s,
                n2,
            ) && seq_model_of(s.push(e), n2) == seq_model_of(s, n2),
{
    let t = s.push(e);
    assert(t.len() == s.len() + 1);
    assert(forall|i: int| 0 <= i < s.len() ==> t[i] == s[i]);
    assert(t[s.len() as int] == e);
    assert forall|i: int, j: int| 0 <= i < j < t.len() implies t[i].spec_nick()
        != t[j].spec_nick() by {
        if j < s.len() {
        } else {
            assert(t[j] == e);
            if seq_has_at(s, e.spec_nick(), i) {
                assert(seq_contains_nick(s, e.spec_nick()));
            }
        }
    }
    assert forall|n2: Seq<char>| #[trigger]
        seq_contains_nick(t, n2) == (seq_contains_nick(s, n2) || n2 == e.spec_nick()) by {
        if seq_contains_nick(t, n2) {
            let i = choose|i: int| seq_has_at(t, n2, i);
            if i < s.len() {
                assert(seq_has_at(s, n2, i));
            } else {
                assert(n2 == e.spec_nick());
            }
        }
        if seq_contains_nick(s, n2) {
            let i = choose|i: int| seq_has_at(s, n2, i);
            assert(seq_has_at(t, n2, i));
        }
        if n2 == e.spec_nick() {
            assert(seq_has_at(t, n2, s.len() as int));
        }
    }
    assert(seq_has_at(t, e.spec_nick(), s.len() as int));
    lemma_idx_unique(t, e.spec_nick(), s.len() as int);
    assert forall|n2: Seq<char>|
        seq_contains_nick(s, n2) implies #[trigger] seq_last_of(t, n2) == seq_last_of(s, n2)
        && seq_model_of(t, n2) == seq_model_of(s, n2) by {
        let i = choose|i: int| seq_has_at(s, n2, i);
        lemma_idx_unique(s, n2, i);
        assert(seq_has_at(t, n2, i));
        lemma_idx_unique(t, n2, i);
    }
}

/// What replacing the entry at `i` by one with the same key does to
/// every keyed view of the sequence.
pub proof fn lemma_update_keyed(s: Seq<CachedChain>, i: int, e2: CachedChain)
    requires
        wf_seq(s),
        0 <= i < s.len(),
        e2.spec_nick() == s[i].spec_nick(),
        e2.inv(),
    ensures
        wf_seq(s.update(i, e2)),
        forall|n2: Seq<char>| #[trigger]
            seq_contains_nick(s.update(i, e2), n2) == seq_contains_nick(s, n2),
        seq_last_of(s.update(i, e2), e2.spec_nick()) == e2.spec_last_used(),
        seq_model_of(s.update(i, e2), e2.spec_nick()) == e2.spec_model(),
        forall|n2: Seq<char>|
            seq_contains_nick(s, n2) && n2 != e2.spec_nick() ==> #[trigger] seq_last_of(
                s.update(i, e2),
                n2,
            ) == seq_last_of(s, n2) && seq_model_of(s.update(i, e2), n2) == seq_model_of(s, n2),
{
    let t = s.update(i, e2);
    assert(t.len() == s.len());
    assert(forall|j: int| 0 <= j < s.len() && j != i ==> t[j] == s[j]);
    assert(t[i] == e2);
    assert forall|p: int, q: int| 0 <= p < q < t.len() implies t[p].spec_nick()
        != t[q].spec_nick() by {
        assert(s[p].spec_nick() != s[q].spec_nick());
        assert(t[p].spec_nick() == s[p].spec_nick());
        assert(t[q].spec_nick() == s[q].spec_nick());
    }
    assert forall|n2: Seq<char>| #[trigger]
        seq_contains_nick(t, n2) == seq_contains_nick(s, n2) by {
        if seq_contains_nick(t, n2) {
            let j = choose|j: int| seq_has_at(t, n2, j);
            assert(seq_has_at(s, n2, j));
        }
        if seq_contains_nick(s, n2) {
            let j = choose|j: int| seq_has_at(s, n2, j);
            assert(seq_has_at(t, n2, j));
        }
    }
    lemma_idx_unique(t, e2.spec_nick(), i);
    assert forall|n2: Seq<char>|
        seq_contains_nick(s, n2) && n2 != e2.spec_nick() implies #[trigger] seq_last_of(t, n2)
        == seq_last_of(s, n2) && seq_model_of(t, n2) == seq_model_of(s, n2) by {
        let j = choose|j: int| seq_has_at(s, n2, j);
        lemma_idx_unique(s, n2, j);
        assert(j != i);
        assert(seq_has_at(t, n2, j));
        lemma_idx_unique(t, n2, j);
    }
}

/// Relies on `Arc::clone`: a second shared handle to the same model.
#[verifier::external_body]
fn arc_clone(a: &Arc<Model>) -> (r: Arc<Model>)
    ensures
        r == *a,
{
    a.clone()
}

/// The in-memory store of per-identity models, keyed by normalized
/// identity, with a TTL that bounds how long an untouched entry stays.
pub struct Chains {
    data_dir: String,
    ttl: u64,
    cached: Vec<CachedChain>,
}

impl Chains {
    /// The directory persisted models are loaded from.
    pub closed spec fn spec_dir(&self) -> Seq<char> {
        self.data_dir@
    }

    /// The idle time before an entry becomes eligible for eviction.
    pub closed spec fn spec_ttl(&self) -> u64 {
        self.ttl
    }

    /// The cache's entries.
    pub closed spec fn entries(&self) -> Seq<CachedChain> {
        self.cached@
    }

    pub open spec fn wf(&self) -> bool {
        wf_seq(self.entries())
    }

    pub open spec fn spec_contains(&self, nick: Seq<char>) -> bool {
        seq_contains_nick(self.entries(), nick)
    }

    /// An empty cache over the given data directory, with the default
    /// TTL.
    pub fn with_path(p: &str) -> (r: Chains)
        ensures
            r.wf(),
            r.spec_dir() == p@,
            r.spec_ttl() == DEFAULT_TTL_SECS,
            r.entries() == Seq::<CachedChain>::empty(),
    {
        Chains { data_dir: p.to_owned(), ttl: DEFAULT_TTL_SECS, cached: Vec::new() }
    }

    /// An empty cache over the default data directory.
    pub fn new() -> (r: Chains)
        ensures
            r.wf(),
            r.spec_dir() == DATA_DIR@,
            r.spec_ttl() == DEFAULT_TTL_SECS,
            r.entries() == Seq::<CachedChain>::empty(),
    {
        Chains::with_path(DATA_DIR)
    }

    /// The directory persisted models are loaded from.
    pub fn dir(&self) -> (r: &String)
        ensures
            r@ == self.spec_dir(),
    {
        &self.data_dir
    }

    /// Whether an entry for this identity is cached right now.
    pub fn contains(&self, nick: &str) -> (r: bool)
        requires
            self.wf(),
        ensures
            r == self.spec_contains(nick@),
    {
        let n = self.cached.len();
        let mut i: usize = 0;
        while i < n
            invariant
                self.wf(),
                i <= n,
                n == self.cached.len(),
                forall|j: int| 0 <= j < i ==> self.entries()[j].spec_nick() != nick@,
            decreases n - i,
        {
            if str_eq(self.cached[i].nick.as_str(), nick) {
                proof {
                    assert(seq_has_at(self.entries(), nick@, i as int));
                }
                return true;
            }
            i = i + 1;
        }
        proof {
            if seq_contains_nick(self.entries(), nick@) {
                let j = choose|j: int| seq_has_at(self.entries(), nick@, j);
                assert(self.entries()[j].spec_nick() != nick@);
            }
        }
        false
    }

    /// Look up the cached model for an identity: on a hit, refresh its
    /// `last_used` stamp to `now` and hand out a shared handle; on a
    /// miss, change nothing and return nothing. A miss is an absence,
    /// not an error: the caller may load the model from disk and
    /// `insert` it.
    pub fn find_nick(&mut self, nick: &str, now: u64) -> (r: Option<Arc<Model>>)
        requires
            old(self).wf(),
        ensures
            final(self).wf(),
            final(self).spec_dir() == old(self).spec_dir(),
            final(self).spec_ttl() == old(self).spec_ttl(),
            match r {
                Option::None => {
                    &&& !old(self).spec_contains(nick@)
                    &&& final(self).entries() == old(self).entries()
                },
                Option::Some(m) => {
                    &&& old(self).spec_contains(nick@)
                    &&& (*m) == seq_model_of(old(self).entries(), nick@)
                    &&& (*m).spec_nick() == nick@
                    &&& (*m).wf()
                    &&& forall|n2: Seq<char>| #[trigger]
                        final(self).spec_contains(n2) == old(self).spec_contains(n2)
                    &&& seq_last_of(final(self).entries(), nick@) == now
                    &&& seq_model_of(final(self).entries(), nick@) == (*m)
                    &&& forall|n2: Seq<char>|
                        old(self).spec_contains(n2) && n2 != nick@ ==> #[trigger] seq_last_of(
                            final(self).entries(),
                            n2,
                        ) == seq_last_of(old(self).entries(), n2) && seq_model_of(
                            final(self).entries(),
                            n2,
                        ) == seq_model_of(old(self).entries(), n2)
                },
            },
    {
        let n = self.cached.len();
        let mut i: usize = 0;
        while i < n
            invariant
                self.wf(),
                i <= n,
                n == self.cached.len(),
                self == old(self),
                forall|j: int| 0 <= j < i ==> self.entries()[j].spec_nick() != nick@,
            decreases n - i,
        {
            if str_eq(self.cached[i].nick.as_str(), nick) {
                let ghost s0 = self.cached@;
                proof {
                    assert(seq_has_at(s0, nick@, i as int));
                    lemma_idx_unique(s0, nick@, i as int);
                }
                let e = self.cached.remove(i);
                let handle = arc_clone(&e.chain);
                let e2 = CachedChain { nick: e.nick, last_used: now, chain: e.chain };
                self.cached.insert(i, e2);
                proof {
                    assert(self.cached@ =~= s0.update(i as int, e2));
                    assert(s0[i as int].inv());
                    lemma_update_keyed(s0, i as int, e2);
                }
                return Option::Some(handle);
            }
            i = i + 1;
        }
        proof {
            if seq_contains_nick(self.entries(), nick@) {
                let j = choose|j: int| seq_has_at(self.entries(), nick@, j);
                assert(self.entries()[j].spec_nick() != nick@);
            }
        }
        Option::None
    }

    /// Insert a freshly loaded model for an identity not currently
    /// cached, stamped with `now`, and hand out a shared handle to it.
    pub fn insert_model(&mut self, model: Model, now: u64) -> (r: Arc<Model>)
        requires
            old(self).wf(),
            model.wf(),
            !old(self).spec_contains(model.spec_nick()),
        ensures
            final(self).wf(),
            final(self).spec_dir() == old(self).spec_dir(),
            final(self).spec_ttl() == old(self).spec_ttl(),
            (*r) == model,
            final(self).spec_contains(model.spec_nick()),
            seq_last_of(final(self).entries(), model.spec_nick()) == now,
            seq_model_of(final(self).entries(), model.spec_nick()) == model,
            forall|n2: Seq<char>| #[trigger]
                final(self).spec_contains(n2) == (old(self).spec_contains(n2) || n2
                    == model.spec_nick()),
            forall|n2: Seq<char>|
                old(self).spec_contains(n2) ==> #[trigger] seq_last_of(final(self).entries(), n2)
                    == seq_last_of(old(self).entries(), n2) && seq_model_of(
                    final(self).entries(),
                    n2,
                ) == seq_model_of(old(self).entries(), n2),
    {
        let ghost s0 = self.cached@;
        let nick = model.nick_str().clone();
        let arc = Arc::new(model);
        let handle = arc_clone(&arc);
        let e = CachedChain { nick, last_used: now, chain: arc };
        proof {
            assert(e.inv());
            lemma_push_keyed(s0, e);
        }
        self.cached.push(e);
        handle
    }

    /// Remove every entry whose last use lies further than the TTL
    /// behind `now`; every other entry survives untouched.
    pub fn cleanup(&mut self, now: u64)
        requires
            old(self).wf(),
        ensures
            final(self).wf(),
            final(self).spec_dir() == old(self).spec_dir(),
            final(self).spec_ttl() == old(self).spec_ttl(),
            forall|n2: Seq<char>| #[trigger]
                final(self).spec_contains(n2) == (old(self).spec_contains(n2) && spec_keep(
                    seq_last_of(old(self).entries(), n2),
                    old(self).spec_ttl(),
                    now,
                )),
            forall|n2: Seq<char>|
                final(self).spec_contains(n2) ==> #[trigger] seq_last_of(
                    final(self).entries(),
                    n2,
                ) == seq_last_of(old(self).entries(), n2) && seq_model_of(
                    final(self).entries(),
                    n2,
                ) == seq_model_of(old(self).entries(), n2),
    {
        let n = self.cached.len();
        let ttl = self.ttl;
        let mut kept: Vec<CachedChain> = Vec::new();
        let mut i: usize = 0;
        while i < n
            invariant
                self.wf(),
                i <= n,
                n == self.cached.len(),
                self == old(self),
                ttl == old(self).spec_ttl(),
                wf_seq(kept@),
                forall|n2: Seq<char>| #[trigger]
                    seq_contains_nick(kept@, n2) == ((exists|j: int|
                        0 <= j < i && seq_has_at(self.entries(), n2, j)) && spec_keep(
                        seq_last_of(self.entries(), n2),
                        ttl,
                        now,
                    )),
                forall|n2: Seq<char>|
                    #[trigger] seq_contains_nick(kept@, n2) ==> seq_last_of(kept@, n2)
                        == seq_last_of(self.entries(), n2) && seq_model_of(kept@, n2)
                        == seq_model_of(self.entries(), n2),
            decreases n - i,
        {
            let e = &self.cached[i];
            let keep = now <= e.last_used || now - e.last_used <= ttl;
            let ghost k0 = kept@;
            if keep {
                let e2 = CachedChain {
                    nick: e.nick.clone(),
                    last_used: e.last_used,
                    chain: arc_clone(&e.chain),
                };
                proof {
                    assert(seq_has_at(self.entries(), e2.spec_nick(), i as int));
                    lemma_idx_unique(self.entries(), e2.spec_nick(), i as int);
                    if seq_contains_nick(k0, e2.spec_nick()) {
                        let j = choose|j: int| 0 <= j < i && seq_has_at(
                            self.entries(),
                            e2.spec_nick(),
                            j,
                        );
                        assert(false);
                    }
                    assert(e2.spec_model() == self.entries()[i as int].spec_model());
                    assert(self.entries()[i as int].inv());
                    lemma_push_keyed(k0, e2);
                }
                kept.push(e2);
                proof {
                    assert forall|n2: Seq<char>|
                        seq_contains_nick(kept@, n2) implies #[trigger] seq_last_of(kept@, n2)
                        == seq_last_of(self.entries(), n2) && seq_model_of(kept@, n2)
                        == seq_model_of(self.entries(), n2) by {
                        if n2 != e2.spec_nick() {
                            assert(seq_contains_nick(k0, n2));
                        }
                    }
                    assert forall|n2: Seq<char>| #[trigger]
                        seq_contains_nick(kept@, n2) == ((exists|j: int|
                            0 <= j < i + 1 && seq_has_at(self.entries(), n2, j)) && spec_keep(
                            seq_last_of(self.entries(), n2),
                            ttl,
                            now,
                        )) by {
                        if seq_contains_nick(kept@, n2) {
                            if n2 == e2.spec_nick() {
                                assert(seq_has_at(self.entries(), n2, i as int));
                            }
                        }
                        if (exists|j: int| 0 <= j < i + 1 && seq_has_at(self.entries(), n2, j))
                            && spec_keep(seq_last_of(self.entries(), n2), ttl, now) {
                            let j = choose|j: int|
                                0 <= j < i + 1 && seq_has_at(self.entries(), n2, j);
                            if j < i {
                                assert(seq_contains_nick(k0, n2));
                            } else {
                                assert(n2 == e2.spec_nick());
                            }
                        }
                    }
                }
            } else {
                proof {
                    assert(seq_has_at(self.entries(), self.entries()[i as int].spec_nick(), i as int));
                    lemma_idx_unique(self.entries(), self.entries()[i as int].spec_nick(), i as int);
                    assert forall|n2: Seq<char>| #[trigger]
                        seq_contains_nick(kept@, n2) == ((exists|j: int|
                            0 <= j < i + 1 && seq_has_at(self.entries(), n2, j)) && spec_keep(
                            seq_last_of(self.entries(), n2),
                            ttl,
                            now,
                        )) by {
                        if (exists|j: int| 0 <= j < i + 1 && seq_has_at(self.entries(), n2, j))
                            && spec_keep(seq_last_of(self.entries(), n2), ttl, now) {
                            let j = choose|j: int|
                                0 <= j < i + 1 && seq_has_at(self.entries(), n2, j);
                            if j < i {
                                assert(seq_contains_nick(k0, n2));
                            } else {
                                assert(n2 == self.entries()[i as int].spec_nick());
                                assert(seq_idx(self.entries(), n2) == i);
                                assert(!spec_keep(seq_last_of(self.entries(), n2), ttl, now));
                            }
                        }
                        if seq_contains_nick(kept@, n2) {
                            let j = choose|j: int| 0 <= j < i && seq_has_at(self.entries(), n2, j);
                        }
                    }
                }
            }
            i = i + 1;
        }
        self.cached = kept;
        proof {
            assert forall|n2: Seq<char>| #[trigger]
                seq_contains_nick(self.cached@, n2) == (seq_contains_nick(old(self).entries(), n2)
                    && spec_keep(seq_last_of(old(self).entries(), n2), ttl, now)) by {
                if seq_contains_nick(old(self).entries(), n2) {
                    let j = choose|j: int| seq_has_at(old(self).entries(), n2, j);
                    assert(0 <= j < n && seq_has_at(old(self).entries(), n2, j));
                }
                if exists|j: int| 0 <= j < n && seq_has_at(old(self).entries(), n2, j) {
                    let j = choose|j: int| 0 <= j < n && seq_has_at(old(self).entries(), n2, j);
                    assert(seq_has_at(old(self).entries(), n2, j));
                }
            }
        }
    }
}

} // verus!
