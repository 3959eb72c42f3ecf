use vstd::prelude::*;

use lru::LruCache;
use std::num::NonZeroUsize;

verus! {

/// A cache key: the four parts of an LR(1) state as std values.
pub type StateKey = (Vec<usize>, Vec<u8>, Option<usize>, Option<(usize, usize)>);

/// A cache entry: the continuations offered in a state and whether it matches.
pub type Entry = (Vec<usize>, bool);

/// A cache from LR(1) states to what was computed for them.
pub type StateCache = LruCache<StateKey, Entry>;

pub type KeyView = (Seq<usize>, Seq<u8>, Option<usize>, Option<(usize, usize)>);

pub type EntryView = (Seq<usize>, bool);

pub open spec fn key_view(k: StateKey) -> KeyView {
    (k.0@, k.1@, k.2, k.3)
}

#[verifier::external_type_specification]
#[verifier::external_body]
#[verifier::reject_recursive_types(KeyT)]
#[verifier::reject_recursive_types(ValT)]
#[verifier::reject_recursive_types(HashT)]
pub struct ExLruCache<KeyT, ValT, HashT>(LruCache<KeyT, ValT, HashT>);

#[verifier::external_type_specification]
#[verifier::external_body]
pub struct ExLruDefaultHasher(lru::DefaultHasher);

/// What a state cache holds, key by key.
pub uninterp spec fn lru_entries(c: StateCache) -> Map<KeyView, EntryView>;

/// How many entries a state cache holds at most.
pub uninterp spec fn lru_cap(c: StateCache) -> nat;

/// Relies on `lru::LruCache::new`: an empty cache holding at most `cap` entries.
#[verifier::external_body]
pub(crate) fn lru_new(cap: usize) -> (r: StateCache)
    requires
        cap > 0,
    ensures
        lru_entries(r).dom() == Set::<KeyView>::empty(),
        lru_cap(r) == cap,
{
    LruCache::new(NonZeroUsize::new(cap).unwrap())
}

/// Relies on `lru::LruCache::get`: the value stored under a key equal to `k`,
/// if any; only the recency order changes.
#[verifier::external_body]
pub(crate) fn lru_get(c: &mut StateCache, k: &StateKey) -> (r: Option<Entry>)
    ensures
        lru_entries(*final(c)) == lru_entries(*old(c)),
        lru_cap(*final(c)) == lru_cap(*old(c)),
        match r {
            Some(v) => lru_entries(*old(c)).contains_key(key_view(*k)) && lru_entries(*old(c))[key_view(*k)]
                == (v.0@, v.1),
            None => !lru_entries(*old(c)).contains_key(key_view(*k)),
        },
{
    c.get(k).cloned()
}

/// Relies on `lru::LruCache::put`: stores `v` under `k`; every other entry stays
/// as it was, or is evicted when the cache is full.
#[verifier::external_body]
pub(crate) fn lru_put(c: &mut StateCache, k: StateKey, v: Entry)
    ensures
        lru_entries(*final(c)).contains_key(key_view(k)),
        lru_entries(*final(c))[key_view(k)] == (v.0@, v.1),
        lru_cap(*final(c)) == lru_cap(*old(c)),
        forall|x: KeyView|
            #[trigger] lru_entries(*final(c)).contains_key(x) && x != key_view(k) ==> lru_entries(
                *old(c),
            ).contains_key(x) && lru_entries(*final(c))[x] == lru_entries(*old(c))[x],
{
    c.put(k, v);
}

} // verus!
