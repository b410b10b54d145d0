//! The Result Cache and the search system that ties index, engine and
//! cache together.
//!
//! A cache entry keys the scope path and the space-joined query; a hit
//! within the freshness window returns the stored list unchanged and runs
//! no scoring pass, which the `engine_runs` counter makes observable.

use vstd::prelude::*;

use crate::engine::{in_result_set, path_listed, result_score, search_files, ScoredResult,
    MAX_RESULTS};
use crate::ignore::IgnorePolicy;
use crate::index::{
    crawl_provides, find_key, is_token_of, key_index, keys_unique, lemma_key_index, meta_has,
    names_has, IndexEntry, IndexStore,
};
use crate::text::lower_of;

verus! {

/// How long a cached result list stays fresh.
pub const CACHE_FRESH_FOR: u64 = 60;

/// What one cache entry stores.
pub struct CachedValue {
    /// The result list as the engine produced it.
    pub results: Vec<ScoredResult>,
    /// When it was computed.
    pub created_at: u64,
}

/// The Result Cache: one stored result list per (scope, query) key.
pub struct SearchCache {
    /// The entries, keyed by the combined scope-and-query string.
    pub entries: Vec<(String, CachedValue)>,
}

impl SearchCache {
    /// Unique keys.
    pub open spec fn wf(self) -> bool {
        keys_unique(self.entries@)
    }

    /// The stored value under `k`, if any.
    pub open spec fn lookup(self, k: Seq<char>) -> Option<CachedValue> {
        let i = key_index(self.entries@, k);
        if i >= 0 {
            Some(self.entries@[i].1)
        } else {
            None
        }
    }

    /// A stored value under `k` is fresh at `now`.
    pub open spec fn fresh_hit(self, k: Seq<char>, now: u64) -> bool {
        match self.lookup(k) {
            Option::Some(v) => v.created_at <= now && now - v.created_at < CACHE_FRESH_FOR,
            Option::None => false,
        }
    }

    /// An empty cache.
    pub fn new() -> (r: SearchCache)
        ensures
            r.wf(),
            r.entries@.len() == 0,
    {
        SearchCache { entries: Vec::new() }
    }

    /// Returns the stored list for `k` when it is still fresh at `now`.
    pub fn get_fresh(&self, k: &String, now: u64) -> (r: Option<Vec<ScoredResult>>)
        ensures
            r is Some <==> self.fresh_hit(k@, now),
            r is Some ==> r.unwrap()@ == self.lookup(k@).unwrap().results@,
    {
        proof {
            lemma_key_index(self.entries@, k@);
        }
        match find_key(&self.entries, k) {
            Some(i) => {
                let v = &self.entries[i].1;
                if v.created_at <= now && now - v.created_at < CACHE_FRESH_FOR {
                    Some(clone_results(&v.results))
                } else {
                    None
                }
            },
            None => None,
        }
    }

    /// Stores `results` under `k` with timestamp `now`, overwriting any
    /// older entry for the same key.
    pub fn put(&mut self, k: &String, results: Vec<ScoredResult>, now: u64)
        requires
            old(self).wf(),
        ensures
            final(self).wf(),
            final(self).lookup(k@) is Some,
            final(self).lookup(k@).unwrap().results@ == results@,
            final(self).lookup(k@).unwrap().created_at == now,
            forall|k2: Seq<char>|
                k2 != k@ ==> final(self).lookup(k2) == old(self).lookup(k2),
    {
        let ghost orig = self.entries@;
        proof {
            lemma_key_index(orig, k@);
        }
        let v = CachedValue { results, created_at: now };
        match find_key(&self.entries, k) {
            Some(i) => {
                self.entries.set(i, (k.clone(), v));
                proof {
                    let cur = self.entries@;
                    assert(cur =~= orig.update(i as int, cur[i as int]));
                    lemma_key_index(cur, k@);
                    assert forall|k2: Seq<char>| k2 != k@ implies final(self).lookup(k2) == old(
                        self,
                    ).lookup(k2) by {
                        lemma_key_index_update_other(orig, i as int, cur[i as int], k2);
                    }
                    let ki = key_index(cur, k@);
                    if ki != i {
                        assert(cur[ki].0@ == k@);
                        assert(orig[ki].0@ == k@);
                        assert(orig[i as int].0@ == k@);
                        assert(false);
                    }
                }
            },
            None => {
                self.entries.push((k.clone(), v));
                proof {
                    let cur = self.entries@;
                    assert(cur =~= orig.push(cur.last()));
                    assert forall|a: int, b: int| 0 <= a < b < cur.len() implies (
                    #[trigger] cur[a]).0@ != (#[trigger] cur[b]).0@ by {
                        if b == cur.len() - 1 {
                            assert(cur[a] == orig[a]);
                            assert(orig[a].0@ != k@);
                        }
                    }
                    lemma_key_index(cur, k@);
                    let ki = key_index(cur, k@);
                    assert(cur[orig.len() as int].0@ == k@);
                    if ki != orig.len() {
                        assert(cur[ki].0@ == k@);
                        assert(orig[ki] == cur[ki]);
                        assert(false);
                    }
                    assert forall|k2: Seq<char>| k2 != k@ implies final(self).lookup(k2) == old(
                        self,
                    ).lookup(k2) by {
                        lemma_key_index_push_other(orig, cur.last(), k2);
                    }
                }
            },
        }
    }
}

/// Updating one slot leaves lookups of other keys alone, as long as the
/// keys stay unique and the slot keeps its key.
proof fn lemma_key_index_update_other<V>(s: Seq<(String, V)>, i: int, nv: (String, V), k2: Seq<
    char,
>)
    requires
        0 <= i < s.len(),
        nv.0@ == s[i].0@,
        k2 != s[i].0@,
    ensures
        key_index(s.update(i, nv), k2) == key_index(s, k2),
        key_index(s, k2) >= 0 ==> s.update(i, nv)[key_index(s, k2)] == s[key_index(s, k2)],
    decreases s.len(),
{
    let su = s.update(i, nv);
    assert(su.len() == s.len());
    lemma_key_index(s, k2);
    lemma_key_index(su, k2);
    lemma_key_index(s.skip(1), k2);
    if s[0].0@ == k2 {
        assert(i != 0);
        assert(su[0] == s[0]);
        assert(key_index(s, k2) == 0);
        assert(key_index(su, k2) == 0);
    } else {
        assert(su[0].0@ == s[0].0@);
        if i == 0 {
            assert(su.skip(1) =~= s.skip(1));
        } else {
            assert(su[0] == s[0]);
            assert(su.skip(1) =~= s.skip(1).update(i - 1, nv));
            lemma_key_index_update_other(s.skip(1), i - 1, nv, k2);
        }
        let r = key_index(s.skip(1), k2);
        if r >= 0 {
            assert(key_index(s, k2) == r + 1);
            assert(key_index(su, k2) == r + 1);
            assert(su[r + 1] == su.skip(1)[r]);
            assert(s[r + 1] == s.skip(1)[r]);
            if i == 0 {
                assert(su.skip(1)[r] == s.skip(1)[r]);
            } else {
                assert(su.skip(1)[r] == s.skip(1).update(i - 1, nv)[r]);
                assert(s.skip(1).update(i - 1, nv)[key_index(s.skip(1), k2)] == s.skip(1)[
                    key_index(s.skip(1), k2)
                ]);
            }
        } else {
            assert(key_index(s, k2) == -1);
            assert(key_index(su, k2) == -1);
        }
    }
}

/// Pushing a pair with another key leaves lookups of `k2` alone.
proof fn lemma_key_index_push_other<V>(s: Seq<(String, V)>, nv: (String, V), k2: Seq<char>)
    requires
        nv.0@ != k2,
    ensures
        key_index(s.push(nv), k2) == key_index(s, k2),
        key_index(s, k2) >= 0 ==> s.push(nv)[key_index(s, k2)] == s[key_index(s, k2)],
    decreases s.len(),
{
    let sp = s.push(nv);
    lemma_key_index(s, k2);
    lemma_key_index(sp, k2);
    if s.len() > 0 {
        lemma_key_index(s.skip(1), k2);
    }
    if s.len() == 0 {
        assert(sp.len() == 1);
        assert(sp[0].0@ != k2);
        assert(sp.skip(1) =~= Seq::<(String, V)>::empty());
        assert(key_index(sp, k2) == -1);
    } else {
        assert(sp[0] == s[0]);
        if s[0].0@ == k2 {
            assert(key_index(s, k2) == 0);
            assert(key_index(sp, k2) == 0);
        } else {
            assert(sp.skip(1) =~= s.skip(1).push(nv));
            lemma_key_index_push_other(s.skip(1), nv, k2);
            let r = key_index(s.skip(1), k2);
            if r >= 0 {
                assert(key_index(s, k2) == r + 1);
                assert(key_index(sp, k2) == r + 1);
                assert(sp[r + 1] == sp.skip(1)[r]);
                assert(s[r + 1] == s.skip(1)[r]);
                assert(sp.skip(1)[r] == s.skip(1).push(nv)[r]);
                assert(s.skip(1).push(nv)[key_index(s.skip(1), k2)] == s.skip(1)[key_index(
                    s.skip(1),
                    k2,
                )]);
            } else {
                assert(key_index(s, k2) == -1);
                assert(key_index(sp, k2) == -1);
            }
        }
    }
}

/// Copies a result list element by element.
pub fn clone_results(v: &Vec<ScoredResult>) -> (r: Vec<ScoredResult>)
    ensures
        r@ == v@,
{
    let mut r: Vec<ScoredResult> = Vec::new();
    let mut i: usize = 0;
    while i < v.len()
        invariant
            i <= v@.len(),
            r@ == v@.subrange(0, i as int),
        decreases v@.len() - i,
    {
        r.push(ScoredResult { path: v[i].path.clone(), score: v[i].score });
        proof {
            assert(r@[i as int] == v@[i as int]);
            assert(r@ =~= v@.subrange(0, i + 1));
        }
        i += 1;
    }
    proof {
        assert(r@ =~= v@);
    }
    r
}

/// The space-joined query terms.
pub open spec fn joined(terms: Seq<String>) -> Seq<char>
    decreases terms.len(),
{
    if terms.len() == 0 {
        Seq::empty()
    } else if terms.len() == 1 {
        terms[0]@
    } else {
        joined(terms.drop_last()) + " "@ + terms.last()@
    }
}

/// The cache key of a scope and a query: the scope path, an underscore,
/// and the space-joined terms.
pub open spec fn cache_key(scope: Seq<char>, terms: Seq<String>) -> Seq<char> {
    scope + "_"@ + joined(terms)
}

/// Builds the cache key.
pub fn make_cache_key(scope: &String, terms: &Vec<String>) -> (r: String)
    ensures
        r@ == cache_key(scope@, terms@),
{
    let mut r = scope.clone();
    r.append("_");
    let mut w: usize = 0;
    while w < terms.len()
        invariant
            w <= terms@.len(),
            r@ == scope@ + "_"@ + joined(terms@.subrange(0, w as int)),
        decreases terms@.len() - w,
    {
        proof {
            assert(terms@.subrange(0, w + 1).drop_last() =~= terms@.subrange(0, w as int));
            assert(terms@.subrange(0, w + 1).last() == terms@[w as int]);
        }
        if w > 0 {
            r.append(" ");
        }
        r.append(terms[w].as_str());
        proof {
            if w == 0 {
                assert(joined(terms@.subrange(0, 1)) == terms@[0]@);
            }
        }
        w += 1;
    }
    proof {
        assert(terms@.subrange(0, terms@.len() as int) =~= terms@);
    }
    r
}

/// The kinds of filesystem change the updater consumes.
pub enum ChangeKind {
    /// A new entry appeared.
    Created,
    /// An existing entry's contents or metadata changed.
    Modified,
    /// The entry is gone.
    Removed,
}

/// Index, cache and the ranking engine behind one handle.
pub struct SearchSystem {
    /// The shared Index Store.
    pub store: IndexStore,
    /// The Result Cache.
    pub cache: SearchCache,
    /// The Ignore Policy applied on rebuilds.
    pub policy: IgnorePolicy,
    /// How many scoring passes have run; a cache hit leaves it unchanged.
    pub engine_runs: u64,
}

impl SearchSystem {
    /// Both halves well-formed.
    pub open spec fn wf(self) -> bool {
        self.store.wf() && self.cache.wf()
    }

    /// A fresh system around a policy: empty index, empty cache, no
    /// scoring pass run yet, and exactly the given policy.
    pub fn new(policy: IgnorePolicy) -> (r: SearchSystem)
        ensures
            r.wf(),
            r.policy == policy,
            r.engine_runs == 0,
            r.store.tokens@.len() == 0,
            r.store.names@.len() == 0,
            r.store.meta@.len() == 0,
            r.store.last_rebuild is None,
            r.cache.entries@.len() == 0,
    {
        SearchSystem {
            store: IndexStore::new(),
            cache: SearchCache::new(),
            policy,
            engine_runs: 0,
        }
    }

    /// Applies one filesystem change event to the index: create and modify
    /// upsert the entry, remove deletes its path everywhere.  The clauses
    /// restate what `IndexStore::upsert` and `IndexStore::remove` promise,
    /// so an event's full effect on the index is pinned here.
    pub fn notify_change(&mut self, e: &IndexEntry, kind: &ChangeKind)
        requires
            old(self).wf(),
        ensures
            final(self).wf(),
            final(self).cache == old(self).cache,
            final(self).engine_runs == old(self).engine_runs,
            final(self).policy == old(self).policy,
            final(self).store.last_rebuild == old(self).store.last_rebuild,
            kind is Removed ==> {
                &&& (forall|t: Seq<char>| !final(self).store.token_has_path(t, e.path@))
                &&& (forall|t: Seq<char>, q: Seq<char>|
                    q != e.path@ ==> final(self).store.token_has_path(t, q) == old(
                        self,
                    ).store.token_has_path(t, q))
                &&& (forall|n: Seq<char>, v: Seq<char>|
                    names_has(final(self).store.names@, n, v) == (names_has(
                        old(self).store.names@,
                        n,
                        v,
                    ) && v != e.path@))
                &&& (forall|q: Seq<char>, m: u64|
                    meta_has(final(self).store.meta@, q, m) == (meta_has(
                        old(self).store.meta@,
                        q,
                        m,
                    ) && q != e.path@))
                &&& final(self).store.mtime_of(e.path@) is None
                &&& (forall|n: Seq<char>|
                    #[trigger] final(self).store.name_lookup(n) is Some
                        ==> final(self).store.name_lookup(n).unwrap() != e.path@)
            },
            !(kind is Removed) ==> {
                &&& final(self).store.mtime_of(e.path@) == Some(e.modified_at)
                &&& (old(self).store.mtime_of(e.path@) == Some(e.modified_at)
                    ==> final(self).store == old(self).store)
                &&& (old(self).store.mtime_of(e.path@) != Some(e.modified_at) ==> {
                    &&& (forall|t: Seq<char>|
                        final(self).store.token_has_path(t, e.path@) == is_token_of(
                            lower_of(e.name@),
                            t,
                        ))
                    &&& (forall|t: Seq<char>, q: Seq<char>|
                        q != e.path@ ==> final(self).store.token_has_path(t, q) == old(
                            self,
                        ).store.token_has_path(t, q))
                    &&& (forall|n: Seq<char>, v: Seq<char>|
                        names_has(final(self).store.names@, n, v) == (if n == lower_of(
                            e.name@,
                        ) {
                            v == e.path@
                        } else {
                            names_has(old(self).store.names@, n, v) && v != e.path@
                        }))
                    &&& (forall|q: Seq<char>, m: u64|
                        q != e.path@ ==> meta_has(final(self).store.meta@, q, m) == meta_has(
                            old(self).store.meta@,
                            q,
                            m,
                        ))
                })
            },
    {
        match kind {
            ChangeKind::Removed => {
                self.store.remove(&e.path);
            },
            ChangeKind::Created => {
                self.store.upsert(e);
            },
            ChangeKind::Modified => {
                self.store.upsert(e);
            },
        }
    }

    /// Serves a query: a fresh cached list is returned unchanged with no
    /// scoring pass; otherwise the index is rebuilt if stale from the given
    /// crawl, the engine runs once, and the cache is repopulated.
    pub fn get_or_compute(
        &mut self,
        scope: &String,
        terms: &Vec<String>,
        crawl: &Vec<IndexEntry>,
        now: u64,
    ) -> (r: Vec<ScoredResult>)
        requires
            old(self).wf(),
            old(self).engine_runs < u64::MAX,
            forall|k1: int, k2: int|
                0 <= k1 < k2 < crawl@.len() ==> (#[trigger] crawl@[k1]).path@ != (
                #[trigger] crawl@[k2]).path@,
        ensures
            final(self).wf(),
            old(self).cache.fresh_hit(cache_key(scope@, terms@), now) ==> {
                &&& r@ == old(self).cache.lookup(cache_key(scope@, terms@)).unwrap().results@
                &&& *final(self) == *old(self)
            },
            !old(self).cache.fresh_hit(cache_key(scope@, terms@), now) ==> {
                &&& final(self).engine_runs == old(self).engine_runs + 1
                &&& r@.len() <= MAX_RESULTS
                &&& (forall|x: int|
                    0 <= x < r@.len() ==> in_result_set(
                        final(self).store,
                        terms@,
                        (#[trigger] r@[x]).path@,
                    ) && (#[trigger] r@[x]).score as int == result_score(terms@, r@[x].path@)
                        && (#[trigger] r@[x]).score <= crate::SCORE_SCALE)
                &&& (forall|x: int, y: int|
                    0 <= x < y < r@.len() ==> (#[trigger] r@[x]).score >= (
                    #[trigger] r@[y]).score)
                &&& (forall|p: Seq<char>|
                    #[trigger] in_result_set(final(self).store, terms@, p) ==> path_listed(
                        r@,
                        p,
                    ) || (r@.len() == MAX_RESULTS && result_score(terms@, p) <= r@[MAX_RESULTS
                        - 1].score))
                &&& final(self).cache.lookup(cache_key(scope@, terms@)) is Some
                &&& final(self).cache.lookup(cache_key(scope@, terms@)).unwrap().results@ == r@
                &&& final(self).cache.lookup(cache_key(scope@, terms@)).unwrap().created_at
                    == now
                &&& (old(self).store.fresh_at(now) ==> final(self).store == old(self).store)
                &&& (!old(self).store.fresh_at(now) ==> final(self).store.last_rebuild == Some(
                    now,
                ) && (forall|t: Seq<char>, p: Seq<char>|
                    #[trigger] final(self).store.token_has_path(t, p) == crawl_provides(
                        old(self).policy,
                        crawl@,
                        t,
                        p,
                    )))
            },
    {
        let key = make_cache_key(scope, terms);
        match self.cache.get_fresh(&key, now) {
            Some(hit) => {
                return hit;
            },
            None => {},
        }
        self.store.rebuild(&self.policy, crawl, now);
        let results = search_files(&self.store, terms);
        self.engine_runs = self.engine_runs + 1;
        let stored = clone_results(&results);
        self.cache.put(&key, stored, now);
        results
    }
}

} // verus!
