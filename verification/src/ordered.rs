//! The mathematical model of an ordered key/value collection: a sequence of
//! pairs whose keys are strictly increasing.
use crate::traits::TypeSkipListKey;
use vstd::prelude::*;

verus! {

/// Every key is strictly smaller than the keys after it.
pub open spec fn keys_sorted<K: TypeSkipListKey, W>(s: Seq<(K::V, W)>) -> bool {
    forall|i: int, j: int| 0 <= i < j < s.len() ==> K::key_lt(#[trigger] s[i].0, #[trigger] s[j].0)
}

/// The value bound to `k`, taking the first pair whose key is `k`.
pub open spec fn lookup<KV, W>(s: Seq<(KV, W)>, k: KV) -> Option<W>
    decreases s.len(),
{
    if s.len() == 0 {
        None
    } else if s[0].0 == k {
        Some(s[0].1)
    } else {
        lookup(s.drop_first(), k)
    }
}

/// Binds `k` to `v` in a sorted sequence: the pair with key `k` is replaced, or a new
/// pair is put where its key belongs.
pub open spec fn upsert<K: TypeSkipListKey, W>(s: Seq<(K::V, W)>, k: K::V, v: W) -> Seq<(K::V, W)>
    decreases s.len(),
{
    if s.len() == 0 {
        seq![(k, v)]
    } else if s[0].0 == k {
        s.update(0, (k, v))
    } else if K::key_lt(k, s[0].0) {
        seq![(k, v)] + s
    } else {
        seq![s[0]] + upsert::<K, W>(s.drop_first(), k, v)
    }
}

/// After binding `k` to `v`, `k` reads `v` and every other key reads what it read before.
pub proof fn lemma_lookup_upsert<K: TypeSkipListKey, W>(s: Seq<(K::V, W)>, k: K::V, v: W, k2: K::V)
    ensures
        lookup(upsert::<K, W>(s, k, v), k2) == if k2 == k {
            Some(v)
        } else {
            lookup(s, k2)
        },
    decreases s.len(),
{
    let u = upsert::<K, W>(s, k, v);
    if s.len() == 0 {
        assert(u =~= seq![(k, v)]);
        assert(u.drop_first() =~= s);
        assert(lookup(u, k2) == if k2 == k {
            Some(v)
        } else {
            lookup(u.drop_first(), k2)
        });
    } else if s[0].0 == k {
        assert(u == s.update(0, (k, v)));
        assert(u.drop_first() =~= s.drop_first());
        assert(lookup(u, k2) == if k2 == k {
            Some(v)
        } else {
            lookup(u.drop_first(), k2)
        });
    } else if K::key_lt(k, s[0].0) {
        assert(u == seq![(k, v)] + s);
        assert(u.drop_first() =~= s);
        assert(lookup(u, k2) == if k2 == k {
            Some(v)
        } else {
            lookup(u.drop_first(), k2)
        });
    } else {
        let r = upsert::<K, W>(s.drop_first(), k, v);
        lemma_lookup_upsert::<K, W>(s.drop_first(), k, v, k2);
        assert(u == seq![s[0]] + r);
        assert(u.drop_first() =~= r);
        assert(lookup(u, k2) == if k2 == s[0].0 {
            Some(s[0].1)
        } else {
            lookup(r, k2)
        });
    }
}

/// A sorted sequence reads the value stored at the position of a key.
pub proof fn lemma_lookup_at<K: TypeSkipListKey, W>(s: Seq<(K::V, W)>, i: int)
    requires
        keys_sorted::<K, W>(s),
        0 <= i < s.len(),
    ensures
        lookup(s, s[i].0) == Some(s[i].1),
    decreases s.len(),
{
    if i > 0 {
        K::lemma_key_order(s[0].0, s[i].0, s[i].0);
        assert(K::key_lt(s[0].0, s[i].0));
        let t = s.drop_first();
        assert(keys_sorted::<K, W>(t)) by {
            assert forall|a: int, b: int| 0 <= a < b < t.len() implies K::key_lt(
                #[trigger] t[a].0,
                #[trigger] t[b].0,
            ) by {
                assert(t[a] == s[a + 1] && t[b] == s[b + 1]);
            }
        }
        lemma_lookup_at::<K, W>(t, i - 1);
    }
}

/// A key that no pair has reads nothing.
pub proof fn lemma_lookup_absent<KV, W>(s: Seq<(KV, W)>, k: KV)
    requires
        forall|i: int| 0 <= i < s.len() ==> (#[trigger] s[i]).0 != k,
    ensures
        lookup(s, k) is None,
    decreases s.len(),
{
    if s.len() > 0 {
        let t = s.drop_first();
        assert forall|i: int| 0 <= i < t.len() implies (#[trigger] t[i]).0 != k by {
            assert(t[i] == s[i + 1]);
        }
        lemma_lookup_absent(t, k);
    }
}

/// A key that reads a value is held by some pair with that value.
pub proof fn lemma_lookup_found<KV, W>(s: Seq<(KV, W)>, k: KV)
    requires
        lookup(s, k) is Some,
    ensures
        exists|i: int| 0 <= i < s.len() && s[i].0 == k && Some(s[i].1) == lookup(s, k),
    decreases s.len(),
{
    if s[0].0 != k {
        lemma_lookup_found(s.drop_first(), k);
        let i = choose|i: int|
            0 <= i < s.drop_first().len() && s.drop_first()[i].0 == k && Some(
                s.drop_first()[i].1,
            ) == lookup(s.drop_first(), k);
        assert(s[i + 1] == s.drop_first()[i]);
    }
}

/// Where `k` belongs in a sorted sequence, `upsert` replaces or inserts at that place.
pub proof fn lemma_upsert_at<K: TypeSkipListKey, W>(s: Seq<(K::V, W)>, k: K::V, v: W, p: int)
    requires
        keys_sorted::<K, W>(s),
        0 <= p <= s.len(),
        forall|i: int| 0 <= i < p ==> K::key_lt((#[trigger] s[i]).0, k),
        p < s.len() ==> !K::key_lt(s[p].0, k),
    ensures
        p < s.len() && s[p].0 == k ==> upsert::<K, W>(s, k, v) == s.update(p, (k, v)),
        !(p < s.len() && s[p].0 == k) ==> upsert::<K, W>(s, k, v) == s.insert(p, (k, v)),
    decreases s.len(),
{
    if s.len() == 0 {
        assert(s.insert(p, (k, v)) =~= seq![(k, v)]);
    } else if p == 0 {
        K::lemma_key_order(k, s[0].0, k);
        if s[0].0 != k {
            assert(K::key_lt(k, s[0].0));
            assert(s.insert(0, (k, v)) =~= seq![(k, v)] + s);
        }
    } else {
        let t = s.drop_first();
        K::lemma_key_order(s[0].0, k, s[0].0);
        K::lemma_key_order(k, s[0].0, k);
        assert(K::key_lt(s[0].0, k));
        assert(s[0].0 != k && !K::key_lt(k, s[0].0));
        assert(upsert::<K, W>(s, k, v) == seq![s[0]] + upsert::<K, W>(t, k, v));
        assert(keys_sorted::<K, W>(t)) by {
            assert forall|a: int, b: int| 0 <= a < b < t.len() implies K::key_lt(
                #[trigger] t[a].0,
                #[trigger] t[b].0,
            ) by {
                assert(t[a] == s[a + 1] && t[b] == s[b + 1]);
            }
        }
        assert forall|i: int| 0 <= i < p - 1 implies K::key_lt((#[trigger] t[i]).0, k) by {
            assert(t[i] == s[i + 1]);
        }
        if p < s.len() {
            assert(t[p - 1] == s[p]);
        }
        lemma_upsert_at::<K, W>(t, k, v, p - 1);
        if p < s.len() && s[p].0 == k {
            assert(seq![s[0]] + t.update(p - 1, (k, v)) =~= s.update(p, (k, v)));
        } else {
            assert(seq![s[0]] + t.insert(p - 1, (k, v)) =~= s.insert(p, (k, v)));
        }
    }
}


/// Putting a pair between smaller and larger keys keeps the sequence sorted.
pub proof fn lemma_insert_sorted<K: TypeSkipListKey, W>(s: Seq<(K::V, W)>, p: int, k: K::V, v: W)
    requires
        keys_sorted::<K, W>(s),
        0 <= p <= s.len(),
        forall|i: int| 0 <= i < p ==> K::key_lt((#[trigger] s[i]).0, k),
        forall|i: int| p <= i < s.len() ==> K::key_lt(k, (#[trigger] s[i]).0),
    ensures
        keys_sorted::<K, W>(s.insert(p, (k, v))),
{
    let t = s.insert(p, (k, v));
    assert forall|i: int, j: int| 0 <= i < j < t.len() implies K::key_lt(
        #[trigger] t[i].0,
        #[trigger] t[j].0,
    ) by {
        if i < p {
            assert(t[i] == s[i]);
            if j > p {
                assert(t[j] == s[j - 1]);
            }
        } else if i == p {
            assert(t[j] == s[j - 1]);
        } else {
            assert(t[i] == s[i - 1] && t[j] == s[j - 1]);
        }
    }
}

/// Replacing the value of a pair keeps the sequence sorted.
pub proof fn lemma_update_value_sorted<K: TypeSkipListKey, W>(s: Seq<(K::V, W)>, p: int, v: W)
    requires
        keys_sorted::<K, W>(s),
        0 <= p < s.len(),
    ensures
        keys_sorted::<K, W>(s.update(p, (s[p].0, v))),
{
    let t = s.update(p, (s[p].0, v));
    assert forall|i: int, j: int| 0 <= i < j < t.len() implies K::key_lt(
        #[trigger] t[i].0,
        #[trigger] t[j].0,
    ) by {
        assert(t[i].0 == s[i].0 && t[j].0 == s[j].0);
    }
}

/// Binding a key adds at most one pair.
pub proof fn lemma_upsert_len<K: TypeSkipListKey, W>(s: Seq<(K::V, W)>, k: K::V, v: W)
    ensures
        upsert::<K, W>(s, k, v).len() <= s.len() + 1,
    decreases s.len(),
{
    if s.len() > 0 && s[0].0 != k && !K::key_lt(k, s[0].0) {
        lemma_upsert_len::<K, W>(s.drop_first(), k, v);
    }
}
} // verus!
