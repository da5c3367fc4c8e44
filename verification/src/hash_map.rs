//! A hash map with separate chaining, keyed by `u64` and hashed with FNV-1a.

use vstd::prelude::*;
use crate::fnv::{hash, hash_u64};
use vstd::string::StringExecFns;

verus! {

/// The number of buckets of a map made by `HashMap::new`.
pub const DEFAULT_CAPACITY: usize = 16;

/// One key-value pair of a bucket's chain.
struct Entry<V> {
    key: u64,
    value: V,
    next: Option<Box<Entry<V>>>,
}

/// The bucket that a key belongs to in a table of `n` buckets.
pub open spec fn bucket_of(key: u64, n: nat) -> int {
    ((hash_u64(key) as usize) as nat % n) as int
}

/// The pairs held by a chain, as a map.
spec fn chain_map<V>(c: Option<Box<Entry<V>>>) -> Map<u64, V>
    decreases c,
{
    match c {
        None => Map::empty(),
        Some(e) => chain_map(e.next).insert(e.key, e.value),
    }
}

/// No key occurs twice in the chain.
spec fn chain_unique<V>(c: Option<Box<Entry<V>>>) -> bool
    decreases c,
{
    match c {
        None => true,
        Some(e) => !chain_map(e.next).dom().contains(e.key) && chain_unique(e.next),
    }
}

/// The pairs of a chain in the order the chain holds them.
spec fn chain_seq<V>(c: Option<Box<Entry<V>>>) -> Seq<(u64, V)>
    decreases c,
{
    match c {
        None => Seq::empty(),
        Some(e) => seq![(e.key, e.value)] + chain_seq(e.next),
    }
}

/// The union of the maps of all chains of a bucket array.
spec fn buckets_map<V>(s: Seq<Option<Box<Entry<V>>>>) -> Map<u64, V>
    decreases s.len(),
{
    if s.len() == 0 {
        Map::empty()
    } else {
        buckets_map(s.drop_last()).union_prefer_right(chain_map(s.last()))
    }
}

/// The pairs of the chains from bucket `i` on, bucket after bucket.
spec fn suffix_seq<V>(s: Seq<Option<Box<Entry<V>>>>, i: int) -> Seq<(u64, V)>
    decreases s.len() - i,
{
    if i < 0 || i >= s.len() {
        Seq::empty()
    } else {
        chain_seq(s[i]) + suffix_seq(s, i + 1)
    }
}

/// The pairs of the chain that starts at `e`.
spec fn entry_seq<V>(e: Entry<V>) -> Seq<(u64, V)> {
    seq![(e.key, e.value)] + chain_seq(e.next)
}

/// A chain's pairs after storing `v` under `k`: over the first pair with key `k`, or as a
/// new last pair.
pub open spec fn slot_insert<V>(c: Seq<(u64, V)>, k: u64, v: V) -> Seq<(u64, V)>
    decreases c.len(),
{
    if c.len() == 0 {
        seq![(k, v)]
    } else if c[0].0 == k {
        c.update(0, (k, v))
    } else {
        seq![c[0]] + slot_insert(c.drop_first(), k, v)
    }
}

/// A chain's pairs after unlinking the first pair with key `k`.
pub open spec fn slot_remove<V>(c: Seq<(u64, V)>, k: u64) -> Seq<(u64, V)>
    decreases c.len(),
{
    if c.len() == 0 {
        c
    } else if c[0].0 == k {
        c.drop_first()
    } else {
        seq![c[0]] + slot_remove(c.drop_first(), k)
    }
}

/// A table (the pair lists of its buckets, in bucket order) after storing `v` under `k`
/// in the bucket of `k`.
pub open spec fn table_insert<V>(t: Seq<Seq<(u64, V)>>, k: u64, v: V) -> Seq<Seq<(u64, V)>> {
    t.update(bucket_of(k, t.len()), slot_insert(t[bucket_of(k, t.len())], k, v))
}

/// A table after unlinking `k` from its bucket.
pub open spec fn table_remove<V>(t: Seq<Seq<(u64, V)>>, k: u64) -> Seq<Seq<(u64, V)>> {
    t.update(bucket_of(k, t.len()), slot_remove(t[bucket_of(k, t.len())], k))
}

/// The pairs of the table's buckets from bucket `i` on, bucket after bucket.
pub open spec fn flat<V>(t: Seq<Seq<(u64, V)>>, i: int) -> Seq<(u64, V)>
    decreases t.len() - i,
{
    if i < 0 || i >= t.len() {
        Seq::empty()
    } else {
        t[i] + flat(t, i + 1)
    }
}

/// The pairs of `q` that belong to bucket `b` of a table of `n` buckets, in their order in `q`.
pub open spec fn bucket_pairs<V>(q: Seq<(u64, V)>, n: nat, b: int) -> Seq<(u64, V)>
    decreases q.len(),
{
    if q.len() == 0 {
        Seq::empty()
    } else if bucket_of(q.last().0, n) == b {
        bucket_pairs(q.drop_last(), n, b).push(q.last())
    } else {
        bucket_pairs(q.drop_last(), n, b)
    }
}

/// The table of `n` buckets that holds the pairs of `q`, each bucket keeping their order in `q`.
pub open spec fn regroup<V>(q: Seq<(u64, V)>, n: nat) -> Seq<Seq<(u64, V)>> {
    Seq::new(n, |b: int| bucket_pairs(q, n, b))
}

/// The bucket count after adding pairs one by one, from `k` pairs to `s`, to a table of
/// `c` buckets that doubles whenever the number of pairs reaches three quarters of it.
pub open spec fn grown_capacity(c: nat, k: nat, s: nat) -> nat
    decreases s - k,
{
    if k >= s {
        c
    } else if 4 * k >= 3 * c {
        grown_capacity(2 * c, k + 1, s)
    } else {
        grown_capacity(c, k + 1, s)
    }
}

/// The pair lists of a bucket array.
spec fn table_of<V>(s: Seq<Option<Box<Entry<V>>>>) -> Seq<Seq<(u64, V)>> {
    Seq::new(s.len(), |i: int| chain_seq(s[i]))
}

/// Every key of the chain at index `i` belongs to bucket `i` of a table of `n` buckets.
spec fn buckets_hashed<V>(s: Seq<Option<Box<Entry<V>>>>, n: nat) -> bool {
    forall|i: int, k: u64|
        0 <= i < s.len() && #[trigger] chain_map(s[i]).dom().contains(k) ==> bucket_of(k, n) == i
}

/// Every chain of the array is free of duplicate keys.
spec fn buckets_unique<V>(s: Seq<Option<Box<Entry<V>>>>) -> bool {
    forall|i: int| 0 <= i < s.len() ==> #[trigger] chain_unique(s[i])
}

proof fn lemma_chain_map_finite<V>(c: Option<Box<Entry<V>>>)
    ensures
        chain_map(c).dom().finite(),
    decreases c,
{
    if let Some(e) = c {
        lemma_chain_map_finite(e.next);
    }
}

proof fn lemma_buckets_map_finite<V>(s: Seq<Option<Box<Entry<V>>>>)
    ensures
        buckets_map(s).dom().finite(),
    decreases s.len(),
{
    if s.len() > 0 {
        lemma_buckets_map_finite(s.drop_last());
        lemma_chain_map_finite(s.last());
        assert(buckets_map(s).dom() =~= buckets_map(s.drop_last()).dom().union(
            chain_map(s.last()).dom(),
        ));
    }
}

/// With every key in the bucket it hashes to, a key is found in the whole array
/// exactly when it is found in the chain of its own bucket.
proof fn lemma_buckets_lookup<V>(s: Seq<Option<Box<Entry<V>>>>, n: nat, k: u64)
    requires
        buckets_hashed(s, n),
    ensures
        buckets_map(s).dom().contains(k) == (0 <= bucket_of(k, n) < s.len()
            && chain_map(s[bucket_of(k, n)]).dom().contains(k)),
        buckets_map(s).dom().contains(k) ==> buckets_map(s)[k] == chain_map(
            s[bucket_of(k, n)],
        )[k],
    decreases s.len(),
{
    if s.len() > 0 {
        let p = s.drop_last();
        assert(buckets_hashed(p, n)) by {
            assert forall|i: int, k2: u64|
                0 <= i < p.len() && #[trigger] chain_map(p[i]).dom().contains(k2) implies bucket_of(
                k2,
                n,
            ) == i by {
                assert(p[i] == s[i]);
            }
        }
        lemma_buckets_lookup(p, n, k);
        let last = s.len() - 1;
        assert(s.last() == s[last]);
        if chain_map(s.last()).dom().contains(k) {
            assert(bucket_of(k, n) == last);
        }
    }
}

/// The value of `key` in the chain: that of the first pair with this key.
fn chain_get<'a, V>(c: &'a Option<Box<Entry<V>>>, key: u64) -> (r: Option<&'a V>)
    ensures
        r == (if chain_map(*c).dom().contains(key) {
            Some(&chain_map(*c)[key])
        } else {
            None
        }),
{
    let mut current = c;
    loop
        invariant
            chain_map(*c).dom().contains(key) == chain_map(*current).dom().contains(key),
            chain_map(*c).dom().contains(key) ==> chain_map(*c)[key] == chain_map(*current)[key],
        decreases *current,
    {
        match current {
            None => {
                return None;
            },
            Some(entry) => {
                if entry.key == key {
                    return Some(&entry.value);
                }
                current = &entry.next;
            },
        }
    }
}

/// Stores `value` under `key` in the chain: over the first pair with this key, or in a
/// new pair at the end of the chain. Returns the value it replaced.
fn chain_insert<V>(node: &mut Option<Box<Entry<V>>>, key: u64, value: V) -> (r: Option<V>)
    ensures
        chain_map(*final(node)) == chain_map(*old(node)).insert(key, value),
        chain_seq(*final(node)) == slot_insert(chain_seq(*old(node)), key, value),
        chain_unique(*old(node)) ==> chain_unique(*final(node)),
        r == (if chain_map(*old(node)).dom().contains(key) {
            Some(chain_map(*old(node))[key])
        } else {
            None
        }),
    decreases *old(node),
{
    match node {
        None => {
            *node = Some(Box::new(Entry { key, value, next: None }));
            proof {
                assert(chain_map(*node) =~= chain_map(*old(node)).insert(key, value));
                assert(chain_seq(*node) =~= slot_insert(chain_seq(*old(node)), key, value));
            }
            None
        },
        Some(entry) => {
            if entry.key == key {
                let mut v = value;
                core::mem::swap(&mut entry.value, &mut v);
                proof {
                    assert(chain_map(*node) =~= chain_map(*old(node)).insert(key, value));
                    assert(chain_seq(*node) =~= slot_insert(chain_seq(*old(node)), key, value));
                }
                Some(v)
            } else {
                let ghost rest = chain_seq(entry.next);
                proof {
                    assert(chain_seq(*old(node)).drop_first() =~= rest);
                }
                let r = chain_insert(&mut entry.next, key, value);
                proof {
                    assert(chain_map(*node) =~= chain_map(*old(node)).insert(key, value));
                    assert(chain_seq(*node) =~= slot_insert(chain_seq(*old(node)), key, value));
                }
                r
            }
        },
    }
}

/// Replacing the chain of bucket `b` by one whose pairs are those of the old chain with
/// `(k, v)` stored: the array then holds the old pairs with `(k, v)` stored.
proof fn lemma_update_bucket_insert<V>(
    s: Seq<Option<Box<Entry<V>>>>,
    b: int,
    c: Option<Box<Entry<V>>>,
    k: u64,
    v: V,
)
    requires
        buckets_hashed(s, s.len()),
        0 <= b < s.len(),
        bucket_of(k, s.len()) == b,
        chain_map(c) == chain_map(s[b]).insert(k, v),
    ensures
        buckets_hashed(s.update(b, c), s.len()),
        buckets_map(s.update(b, c)) == buckets_map(s).insert(k, v),
{
    let s2 = s.update(b, c);
    let n = s.len();
    assert forall|i: int, k2: u64|
        0 <= i < s2.len() && #[trigger] chain_map(s2[i]).dom().contains(k2) implies bucket_of(
        k2,
        n,
    ) == i by {
        if i == b {
            if k2 != k {
                assert(chain_map(s[b]).dom().contains(k2));
            }
        } else {
            assert(s2[i] == s[i]);
        }
    }
    assert forall|k2: u64| #[trigger]
        buckets_map(s2).dom().contains(k2) == buckets_map(s).insert(k, v).dom().contains(k2) by {
        lemma_buckets_lookup(s, n, k2);
        lemma_buckets_lookup(s2, n, k2);
    }
    assert forall|k2: u64| #[trigger] buckets_map(s2).dom().contains(k2) implies buckets_map(
        s2,
    )[k2] == buckets_map(s).insert(k, v)[k2] by {
        lemma_buckets_lookup(s, n, k2);
        lemma_buckets_lookup(s2, n, k2);
    }
    assert(buckets_map(s2) =~= buckets_map(s).insert(k, v));
}

/// Replacing the chain of bucket `b` by one whose pairs are those of the old chain
/// without key `k`: the array then holds the old pairs without `k`.
proof fn lemma_update_bucket_remove<V>(
    s: Seq<Option<Box<Entry<V>>>>,
    b: int,
    c: Option<Box<Entry<V>>>,
    k: u64,
)
    requires
        buckets_hashed(s, s.len()),
        0 <= b < s.len(),
        bucket_of(k, s.len()) == b,
        chain_map(c) == chain_map(s[b]).remove(k),
    ensures
        buckets_hashed(s.update(b, c), s.len()),
        buckets_map(s.update(b, c)) == buckets_map(s).remove(k),
{
    let s2 = s.update(b, c);
    let n = s.len();
    assert forall|i: int, k2: u64|
        0 <= i < s2.len() && #[trigger] chain_map(s2[i]).dom().contains(k2) implies bucket_of(
        k2,
        n,
    ) == i by {
        if i == b {
            assert(chain_map(s[b]).dom().contains(k2));
        } else {
            assert(s2[i] == s[i]);
        }
    }
    assert forall|k2: u64| #[trigger]
        buckets_map(s2).dom().contains(k2) == buckets_map(s).remove(k).dom().contains(k2) by {
        lemma_buckets_lookup(s, n, k2);
        lemma_buckets_lookup(s2, n, k2);
    }
    assert forall|k2: u64| #[trigger] buckets_map(s2).dom().contains(k2) implies buckets_map(
        s2,
    )[k2] == buckets_map(s).remove(k)[k2] by {
        lemma_buckets_lookup(s, n, k2);
        lemma_buckets_lookup(s2, n, k2);
    }
    assert(buckets_map(s2) =~= buckets_map(s).remove(k));
}

/// Taking the chain out of bucket `b` splits the array's pairs into those of the chain
/// and those left in the array.
proof fn lemma_take_bucket<V>(s: Seq<Option<Box<Entry<V>>>>, n: nat, b: int)
    requires
        buckets_hashed(s, n),
        0 <= b < s.len(),
    ensures
        buckets_hashed(s.update(b, None), n),
        buckets_map(s.update(b, None)).dom().disjoint(chain_map(s[b]).dom()),
        buckets_map(s) == buckets_map(s.update(b, None)).union_prefer_right(chain_map(s[b])),
        forall|k: u64| #[trigger] chain_map(s[b]).dom().contains(k) ==> bucket_of(k, n) == b,
{
    let s2 = s.update(b, None);
    assert forall|i: int, k2: u64|
        0 <= i < s2.len() && #[trigger] chain_map(s2[i]).dom().contains(k2) implies bucket_of(
        k2,
        n,
    ) == i by {
        if i != b {
            assert(s2[i] == s[i]);
        }
    }
    assert forall|k2: u64| #[trigger] chain_map(s[b]).dom().contains(k2) implies bucket_of(k2, n)
        == b by {}
    assert forall|k2: u64|
        #[trigger] buckets_map(s2).dom().contains(k2) implies !chain_map(s[b]).dom().contains(
        k2,
    ) by {
        lemma_buckets_lookup(s2, n, k2);
    }
    let u = buckets_map(s2).union_prefer_right(chain_map(s[b]));
    assert forall|k2: u64| #[trigger]
        buckets_map(s).dom().contains(k2) == u.dom().contains(k2) by {
        lemma_buckets_lookup(s, n, k2);
        lemma_buckets_lookup(s2, n, k2);
    }
    assert forall|k2: u64| #[trigger] buckets_map(s).dom().contains(k2) implies buckets_map(s)[k2]
        == u[k2] by {
        lemma_buckets_lookup(s, n, k2);
        lemma_buckets_lookup(s2, n, k2);
    }
    assert(buckets_map(s) =~= u);
}

/// Unlinks the pair with `key` from a chain free of duplicate keys and returns its value.
fn chain_remove<V>(node: &mut Option<Box<Entry<V>>>, key: u64) -> (r: Option<V>)
    requires
        chain_unique(*old(node)),
    ensures
        chain_map(*final(node)) == chain_map(*old(node)).remove(key),
        chain_seq(*final(node)) == slot_remove(chain_seq(*old(node)), key),
        chain_unique(*final(node)),
        r == (if chain_map(*old(node)).dom().contains(key) {
            Some(chain_map(*old(node))[key])
        } else {
            None
        }),
    decreases *old(node),
{
    match node.take() {
        None => {
            proof {
                assert(chain_map(*node) =~= chain_map(*old(node)).remove(key));
                assert(chain_seq(*node) =~= slot_remove(chain_seq(*old(node)), key));
            }
            None
        },
        Some(head) => {
            let mut head = head;
            if head.key == key {
                let Entry { key: _, value, next } = *head;
                *node = next;
                proof {
                    assert(chain_map(*node) =~= chain_map(*old(node)).remove(key));
                    assert(chain_seq(*node) =~= slot_remove(chain_seq(*old(node)), key));
                }
                Some(value)
            } else {
                let r = chain_remove(&mut head.next, key);
                *node = Some(head);
                proof {
                    assert(chain_map(*node) =~= chain_map(*old(node)).remove(key));
                    assert(chain_seq(*old(node)).drop_first() =~= chain_seq(old(node)->0.next));
                    assert(chain_seq(*node) =~= slot_remove(chain_seq(*old(node)), key));
                }
                r
            }
        },
    }
}

/// A mutable borrow of the value of `key` in the chain.
fn chain_get_mut<'a, V>(node: &'a mut Option<Box<Entry<V>>>, key: u64) -> (r: Option<&'a mut V>)
    ensures
        r.is_some() == chain_map(*old(node)).dom().contains(key),
        r.is_some() ==> *r.unwrap() == chain_map(*old(node))[key] && chain_map(*final(node))
            == chain_map(*old(node)).insert(key, *final(r.unwrap())) && chain_seq(*final(node))
            == slot_insert(chain_seq(*old(node)), key, *final(r.unwrap())),
        r.is_none() ==> *final(node) == *old(node),
        chain_unique(*final(node)) == chain_unique(*old(node)),
    decreases *old(node),
{
    match node {
        None => None,
        Some(entry) => {
            proof {
                lemma_slot_insert_cons(chain_seq(entry.next), (entry.key, entry.value), key);
            }
            if entry.key == key {
                Some(&mut entry.value)
            } else {
                chain_get_mut(&mut entry.next, key)
            }
        },
    }
}

/// Storing into a chain that starts with `p`: over `p` when it has the key, else past it.
proof fn lemma_slot_insert_cons<V>(rest: Seq<(u64, V)>, p: (u64, V), k: u64)
    ensures
        p.0 == k ==> forall|v: V| #[trigger] slot_insert(seq![p] + rest, k, v) == seq![(k, v)] + rest,
        p.0 != k ==> forall|v: V| #[trigger] slot_insert(seq![p] + rest, k, v) == seq![p] + slot_insert(rest, k, v),
{
    assert forall|v: V| #[trigger] slot_insert(seq![p] + rest, k, v) == (if p.0 == k {
        seq![(k, v)] + rest
    } else {
        seq![p] + slot_insert(rest, k, v)
    }) by {
        let c = seq![p] + rest;
        assert(c[0] == p);
        assert(c.drop_first() =~= rest);
        if p.0 == k {
            assert(c.update(0, (k, v)) =~= seq![(k, v)] + rest);
        }
    }
}

/// Every way of replacing the chain of bucket `b` by one with the same keys, in which only
/// the value of `k` may differ, keeps the array's invariants and changes only the value of `k`.
proof fn lemma_update_bucket_value<V>(s: Seq<Option<Box<Entry<V>>>>, b: int, k: u64)
    requires
        buckets_hashed(s, s.len()),
        buckets_unique(s),
        0 <= b < s.len(),
        bucket_of(k, s.len()) == b,
        chain_map(s[b]).dom().contains(k),
    ensures
        s.update(b, s[b]) == s,
        forall|c: Option<Box<Entry<V>>>|
            chain_unique(c) && chain_map(c) == chain_map(s[b]).insert(k, chain_map(c)[k]) ==> {
                &&& buckets_hashed(#[trigger] s.update(b, c), s.len())
                &&& buckets_unique(s.update(b, c))
                &&& buckets_map(s.update(b, c)) == buckets_map(s).insert(k, chain_map(c)[k])
                &&& buckets_map(s.update(b, c)).dom() == buckets_map(s).dom()
            },
{
    assert(s.update(b, s[b]) =~= s);
    assert forall|c: Option<Box<Entry<V>>>|
        chain_unique(c) && chain_map(c) == chain_map(s[b]).insert(k, chain_map(c)[k]) implies {
        &&& buckets_hashed(#[trigger] s.update(b, c), s.len())
        &&& buckets_unique(s.update(b, c))
        &&& buckets_map(s.update(b, c)) == buckets_map(s).insert(k, chain_map(c)[k])
        &&& buckets_map(s.update(b, c)).dom() == buckets_map(s).dom()
    } by {
        lemma_update_bucket_insert(s, b, c, k, chain_map(c)[k]);
        assert forall|i: int| 0 <= i < s.len() implies #[trigger] chain_unique(
            s.update(b, c)[i],
        ) by {
            if i != b {
                assert(chain_unique(s[i]));
            }
        }
        lemma_buckets_lookup(s, s.len(), k);
        assert(buckets_map(s.update(b, c)).dom() =~= buckets_map(s).dom());
    }
}

/// The first non-empty bucket at or after `from`, with the first pair of its chain.
fn first_nonempty<'a, V>(buckets: &'a Vec<Option<Box<Entry<V>>>>, from: usize) -> (r: (
    usize,
    Option<&'a Entry<V>>,
))
    requires
        from <= buckets@.len(),
    ensures
        from <= r.0 <= buckets@.len(),
        r.1 is None ==> r.0 == buckets@.len() && suffix_seq(buckets@, from as int) == Seq::<
            (u64, V),
        >::empty(),
        r.1 is Some ==> r.0 < buckets@.len() && buckets@[r.0 as int] == Some(Box::new(
            *r.1.unwrap(),
        )) && suffix_seq(buckets@, from as int) == entry_seq(*r.1.unwrap()) + suffix_seq(
            buckets@,
            r.0 + 1,
        ),
{
    let mut i: usize = from;
    while i < buckets.len()
        invariant
            from <= i <= buckets@.len(),
            suffix_seq(buckets@, from as int) == suffix_seq(buckets@, i as int),
        decreases buckets@.len() - i,
    {
        match &buckets[i] {
            Some(entry) => {
                return (i, Some(&**entry));
            },
            None => {
                proof {
                    assert(suffix_seq(buckets@, i as int) =~= suffix_seq(buckets@, i + 1));
                }
                i = i + 1;
            },
        }
    }
    (i, None)
}

/// An iterator over the pairs of a map, bucket after bucket and, within a bucket, in
/// chain order.
pub struct Iter<'a, V> {
    map: &'a HashMap<V>,
    bucket_index: usize,
    current_entry: Option<&'a Entry<V>>,
}

impl<'a, V> Iter<'a, V> {
    /// The pairs not yet returned, in the order in which `next` returns them.
    pub closed spec fn remaining(&self) -> Seq<(u64, V)> {
        match self.current_entry {
            None => Seq::empty(),
            Some(e) => entry_seq(*e) + suffix_seq(self.map.buckets@, self.bucket_index + 1),
        }
    }

    /// The iterator's internal invariant.
    pub closed spec fn wf(&self) -> bool {
        &&& self.bucket_index <= self.map.buckets@.len()
        &&& self.current_entry is None ==> self.bucket_index == self.map.buckets@.len()
        &&& self.current_entry is Some ==> self.bucket_index < self.map.buckets@.len()
    }

    /// The next pair, or `None` once every pair has been returned.
    pub fn next(&mut self) -> (r: Option<(&'a u64, &'a V)>)
        requires
            old(self).wf(),
        ensures
            final(self).wf(),
            old(self).remaining().len() == 0 ==> r is None && final(self).remaining()
                == old(self).remaining(),
            old(self).remaining().len() > 0 ==> r is Some && (*r.unwrap().0, *r.unwrap().1)
                == old(self).remaining()[0] && final(self).remaining() == old(
                self,
            ).remaining().drop_first(),
    {
        match self.current_entry {
            None => None,
            Some(entry) => {
                let result = (&entry.key, &entry.value);
                match &entry.next {
                    Some(next) => {
                        self.current_entry = Some(&**next);
                        proof {
                            assert(old(self).remaining().drop_first() =~= final(self).remaining());
                        }
                    },
                    None => {
                        let bucket_count: usize = self.map.buckets.len();
                        proof {
                            assert(self.bucket_index + 1 <= bucket_count);
                        }
                        let (i, cur) = first_nonempty(&self.map.buckets, self.bucket_index + 1);
                        self.bucket_index = i;
                        self.current_entry = cur;
                        proof {
                            assert(old(self).remaining().drop_first() =~= final(self).remaining());
                        }
                    },
                }
                Some(result)
            },
        }
    }
}

/// The keys of a sequence of pairs.
spec fn keys_of<V>(q: Seq<(u64, V)>) -> Seq<u64> {
    q.map_values(|p: (u64, V)| p.0)
}

/// A chain free of duplicate keys lists each pair of its map exactly once.
proof fn lemma_chain_seq<V>(c: Option<Box<Entry<V>>>)
    requires
        chain_unique(c),
    ensures
        keys_of(chain_seq(c)).no_duplicates(),
        keys_of(chain_seq(c)).to_set() == chain_map(c).dom(),
        forall|j: int|
            0 <= j < chain_seq(c).len() ==> chain_map(c).dom().contains(
                (#[trigger] chain_seq(c)[j]).0,
            ) && chain_map(c)[chain_seq(c)[j].0] == chain_seq(c)[j].1,
    decreases c,
{
    match c {
        None => {
            assert(keys_of(chain_seq(c)) =~= Seq::<u64>::empty());
            assert(keys_of(chain_seq(c)).to_set() =~= chain_map(c).dom());
        },
        Some(e) => {
            lemma_chain_seq(e.next);
            let rest = chain_seq(e.next);
            let ks = keys_of(chain_seq(c));
            let kr = keys_of(rest);
            assert(ks =~= seq![e.key] + kr);
            assert forall|i: int, j: int| 0 <= i < 1 && 0 <= j < kr.len() implies seq![
                e.key,
            ][i] != kr[j] by {
                assert(kr.to_set().contains(kr[j]));
            }
            vstd::seq_lib::lemma_no_dup_in_concat(seq![e.key], kr);
            vstd::seq_lib::seq_to_set_distributes_over_add(seq![e.key], kr);
            assert forall|a: u64| #[trigger] seq![e.key].to_set().contains(a) == (a == e.key) by {
                if a == e.key {
                    assert(seq![e.key][0] == a);
                }
            }
            assert(seq![e.key].to_set() =~= set![e.key]);
            assert(ks.to_set() =~= chain_map(c).dom());
            assert forall|j: int| 0 <= j < chain_seq(c).len() implies chain_map(c).dom().contains(
                (#[trigger] chain_seq(c)[j]).0,
            ) && chain_map(c)[chain_seq(c)[j].0] == chain_seq(c)[j].1 by {
                if j > 0 {
                    assert(chain_seq(c)[j] == rest[j - 1]);
                    assert(kr[j - 1] == rest[j - 1].0);
                    assert(kr.to_set().contains(kr[j - 1]));
                }
            }
        },
    }
}

/// The keys stored in the chains from bucket `i` on.
spec fn suffix_keys<V>(s: Seq<Option<Box<Entry<V>>>>, i: int) -> Set<u64> {
    Set::new(
        |k: u64|
            i <= bucket_of(k, s.len()) < s.len() && chain_map(s[bucket_of(k, s.len())]).dom().contains(
                k,
            ),
    )
}

/// The chains from bucket `i` on list each of their pairs exactly once.
proof fn lemma_suffix_seq<V>(s: Seq<Option<Box<Entry<V>>>>, i: int)
    requires
        buckets_hashed(s, s.len()),
        buckets_unique(s),
        0 <= i <= s.len(),
    ensures
        keys_of(suffix_seq(s, i)).no_duplicates(),
        keys_of(suffix_seq(s, i)).to_set() == suffix_keys(s, i),
        forall|j: int|
            0 <= j < suffix_seq(s, i).len() ==> {
                let p = #[trigger] suffix_seq(s, i)[j];
                &&& 0 <= bucket_of(p.0, s.len()) < s.len()
                &&& chain_map(s[bucket_of(p.0, s.len())]).dom().contains(p.0)
                &&& chain_map(s[bucket_of(p.0, s.len())])[p.0] == p.1
            },
    decreases s.len() - i,
{
    let n = s.len();
    if i == n {
        assert(keys_of(suffix_seq(s, i)) =~= Seq::<u64>::empty());
        assert(keys_of(suffix_seq(s, i)).to_set() =~= suffix_keys(s, i));
    } else {
        lemma_suffix_seq(s, i + 1);
        lemma_chain_seq(s[i]);
        let cs = chain_seq(s[i]);
        let rs = suffix_seq(s, i + 1);
        let kc = keys_of(cs);
        let kr = keys_of(rs);
        assert(keys_of(suffix_seq(s, i)) =~= kc + kr);
        assert forall|a: int, b: int| 0 <= a < kc.len() && 0 <= b < kr.len() implies kc[a]
            != kr[b] by {
            assert(kc.to_set().contains(kc[a]));
            assert(kr.to_set().contains(kr[b]));
        }
        vstd::seq_lib::lemma_no_dup_in_concat(kc, kr);
        vstd::seq_lib::seq_to_set_distributes_over_add(kc, kr);
        assert forall|k: u64| #[trigger] suffix_keys(s, i).contains(k) == (kc + kr).to_set().contains(
            k,
        ) by {
            if chain_map(s[i]).dom().contains(k) {
                assert(bucket_of(k, n) == i);
            }
        }
        assert(keys_of(suffix_seq(s, i)).to_set() =~= suffix_keys(s, i));
        assert forall|j: int| 0 <= j < suffix_seq(s, i).len() implies {
            let p = #[trigger] suffix_seq(s, i)[j];
            &&& 0 <= bucket_of(p.0, s.len()) < s.len()
            &&& chain_map(s[bucket_of(p.0, s.len())]).dom().contains(p.0)
            &&& chain_map(s[bucket_of(p.0, s.len())])[p.0] == p.1
        } by {
            if j < cs.len() {
                assert(suffix_seq(s, i)[j] == cs[j]);
                assert(bucket_of(cs[j].0, n) == i);
            } else {
                assert(suffix_seq(s, i)[j] == rs[j - cs.len()]);
            }
        }
    }
}

/// The chains from bucket `i` on hold the pairs of the table's lists from `i` on.
proof fn lemma_suffix_flat<V>(s: Seq<Option<Box<Entry<V>>>>, i: int)
    requires
        0 <= i,
    ensures
        suffix_seq(s, i) == flat(table_of(s), i),
    decreases s.len() - i,
{
    if i < s.len() {
        lemma_suffix_flat(s, i + 1);
    }
}

/// Storing a key that a list lacks appends the pair.
proof fn lemma_slot_insert_absent<V>(c: Seq<(u64, V)>, k: u64, v: V)
    requires
        forall|i: int| 0 <= i < c.len() ==> (#[trigger] c[i]).0 != k,
    ensures
        slot_insert(c, k, v) == c.push((k, v)),
    decreases c.len(),
{
    if c.len() > 0 {
        let d = c.drop_first();
        assert forall|i: int| 0 <= i < d.len() implies (#[trigger] d[i]).0 != k by {
            assert(d[i] == c[i + 1]);
        }
        lemma_slot_insert_absent(d, k, v);
        assert(seq![c[0]] + d.push((k, v)) =~= c.push((k, v)));
    }
}

/// The pairs picked for a bucket come from `q`, so they lack every key that `q` lacks.
proof fn lemma_bucket_pairs_lack<V>(q: Seq<(u64, V)>, n: nat, b: int, k: u64)
    requires
        forall|i: int| 0 <= i < q.len() ==> (#[trigger] q[i]).0 != k,
    ensures
        forall|i: int|
            0 <= i < bucket_pairs(q, n, b).len() ==> (#[trigger] bucket_pairs(q, n, b)[i]).0 != k,
    decreases q.len(),
{
    if q.len() > 0 {
        let d = q.drop_last();
        assert forall|i: int| 0 <= i < d.len() implies (#[trigger] d[i]).0 != k by {
            assert(d[i] == q[i]);
        }
        lemma_bucket_pairs_lack(d, n, b, k);
        assert(q.last() == q[q.len() - 1]);
        let bd = bucket_pairs(d, n, b);
        if bucket_of(q.last().0, n) == b {
            assert forall|i: int| 0 <= i < bd.push(q.last()).len() implies (#[trigger] bd.push(
                q.last(),
            )[i]).0 != k by {
                if i < bd.len() {
                    assert(bd.push(q.last())[i] == bd[i]);
                }
            }
        }
    }
}

/// The table of an empty sequence of pairs has only empty buckets.
proof fn lemma_regroup_empty<V>(n: nat)
    ensures
        regroup(Seq::<(u64, V)>::empty(), n) == Seq::new(n, |i: int| Seq::<(u64, V)>::empty()),
{
    assert(regroup(Seq::<(u64, V)>::empty(), n) =~= Seq::new(
        n,
        |i: int| Seq::<(u64, V)>::empty(),
    ));
}

/// Storing a new key in the table of `q` gives the table of `q` with the pair appended.
proof fn lemma_regroup_push<V>(q: Seq<(u64, V)>, n: nat, k: u64, v: V)
    requires
        n > 0,
        forall|i: int| 0 <= i < q.len() ==> (#[trigger] q[i]).0 != k,
    ensures
        table_insert(regroup(q, n), k, v) == regroup(q.push((k, v)), n),
{
    let b = bucket_of(k, n);
    let q2 = q.push((k, v));
    assert(q2.drop_last() =~= q);
    lemma_bucket_pairs_lack(q, n, b, k);
    lemma_slot_insert_absent(bucket_pairs(q, n, b), k, v);
    assert(table_insert(regroup(q, n), k, v) =~= regroup(q2, n));
}

/// Picking a bucket's pairs distributes over concatenation.
proof fn lemma_bucket_pairs_concat<V>(a: Seq<(u64, V)>, c: Seq<(u64, V)>, n: nat, b: int)
    ensures
        bucket_pairs(a + c, n, b) == bucket_pairs(a, n, b) + bucket_pairs(c, n, b),
    decreases c.len(),
{
    if c.len() == 0 {
        assert(a + c =~= a);
        assert(bucket_pairs(a, n, b) + bucket_pairs(c, n, b) =~= bucket_pairs(a, n, b));
    } else {
        assert((a + c).drop_last() =~= a + c.drop_last());
        assert((a + c).last() == c.last());
        lemma_bucket_pairs_concat(a, c.drop_last(), n, b);
        assert(bucket_pairs(a, n, b) + bucket_pairs(c.drop_last(), n, b).push(c.last())
            =~= (bucket_pairs(a, n, b) + bucket_pairs(c.drop_last(), n, b)).push(c.last()));
    }
}

/// A key in bucket `bb` of a table twice as large is in bucket `bb % n` of a table of `n`.
proof fn lemma_bucket_of_double(k: u64, n: nat)
    requires
        n > 0,
    ensures
        bucket_of(k, 2 * n) % (n as int) == bucket_of(k, n),
        0 <= bucket_of(k, 2 * n) < 2 * n,
{
    let h = (hash_u64(k) as usize) as int;
    vstd::arithmetic::div_mod::lemma_mod_mod(h, n as int, 2);
    assert((n as int) * 2 == 2 * n);
}

/// Picking bucket `bb` of a doubled table from the pairs of bucket `j` of a table of `n`:
/// all of them when `j` is `bb % n`, none otherwise.
proof fn lemma_bucket_pairs_compose<V>(q: Seq<(u64, V)>, n: nat, j: int, bb: int)
    requires
        n > 0,
        0 <= bb < 2 * n,
    ensures
        bucket_pairs(bucket_pairs(q, n, j), 2 * n, bb) == (if j == bb % (n as int) {
            bucket_pairs(q, 2 * n, bb)
        } else {
            Seq::<(u64, V)>::empty()
        }),
    decreases q.len(),
{
    if q.len() > 0 {
        let p = q.last();
        lemma_bucket_pairs_compose(q.drop_last(), n, j, bb);
        lemma_bucket_of_double(p.0, n);
        let inner = bucket_pairs(q.drop_last(), n, j);
        if bucket_of(p.0, n) == j {
            assert(inner.push(p).drop_last() =~= inner);
            assert(inner.push(p).last() == p);
        }
    }
}

/// The lists of a table from bucket `i` on, picked for bucket `bb` of a doubled table,
/// when only list `b0` holds such pairs.
proof fn lemma_bucket_pairs_flat<V>(
    t: Seq<Seq<(u64, V)>>,
    i: int,
    n: nat,
    bb: int,
    b0: int,
    x: Seq<(u64, V)>,
)
    requires
        0 <= i <= t.len(),
        0 <= b0 < t.len(),
        forall|j: int|
            0 <= j < t.len() ==> bucket_pairs(#[trigger] t[j], n, bb) == (if j == b0 {
                x
            } else {
                Seq::<(u64, V)>::empty()
            }),
    ensures
        bucket_pairs(flat(t, i), n, bb) == (if i <= b0 {
            x
        } else {
            Seq::<(u64, V)>::empty()
        }),
    decreases t.len() - i,
{
    if i == t.len() {
        assert(flat(t, i) =~= Seq::<(u64, V)>::empty());
    } else {
        lemma_bucket_pairs_flat(t, i + 1, n, bb, b0, x);
        lemma_bucket_pairs_concat(t[i], flat(t, i + 1), n, bb);
        assert(x + Seq::<(u64, V)>::empty() =~= x);
        assert(Seq::<(u64, V)>::empty() + x =~= x);
        assert(Seq::<(u64, V)>::empty() + Seq::<(u64, V)>::empty() =~= Seq::<(u64, V)>::empty());
    }
}

/// Moving the pairs of the table of `q`, bucket after bucket, into a table twice as large
/// gives the table of `q` with twice the buckets.
proof fn lemma_regroup_double<V>(q: Seq<(u64, V)>, n: nat)
    requires
        n > 0,
    ensures
        regroup(flat(regroup(q, n), 0), 2 * n) == regroup(q, 2 * n),
{
    let t = regroup(q, n);
    assert forall|bb: int| 0 <= bb < 2 * n implies #[trigger] bucket_pairs(flat(t, 0), 2 * n, bb)
        == bucket_pairs(q, 2 * n, bb) by {
        let b0 = bb % (n as int);
        assert forall|j: int| 0 <= j < t.len() implies bucket_pairs(#[trigger] t[j], 2 * n, bb)
            == (if j == b0 {
            bucket_pairs(q, 2 * n, bb)
        } else {
            Seq::<(u64, V)>::empty()
        }) by {
            lemma_bucket_pairs_compose(q, n, j, bb);
        }
        lemma_bucket_pairs_flat(t, 0, 2 * n, bb, b0, bucket_pairs(q, 2 * n, bb));
    }
    assert(regroup(flat(t, 0), 2 * n) =~= regroup(q, 2 * n));
}

/// With too few pairs left to reach the load limit, the table does not grow.
proof fn lemma_grown_fixed(c: nat, k: nat, s: nat)
    requires
        k >= s || 4 * (s - 1) < 3 * c,
    ensures
        grown_capacity(c, k, s) == c,
    decreases s - k,
{
    if k < s {
        lemma_grown_fixed(c, k + 1, s);
    }
}

/// Changing one chain leaves the pairs of the chains after it unchanged.
proof fn lemma_suffix_update<V>(s: Seq<Option<Box<Entry<V>>>>, b: int, c: Option<Box<Entry<V>>>, i: int)
    requires
        0 <= b < i,
        b < s.len(),
    ensures
        suffix_seq(s.update(b, c), i) == suffix_seq(s, i),
    decreases s.len() - i,
{
    if i < s.len() {
        lemma_suffix_update(s, b, c, i + 1);
    }
}

/// A map with separate chaining: `buckets[i]` holds the pairs whose key hashes to `i`.
pub struct HashMap<V> {
    buckets: Vec<Option<Box<Entry<V>>>>,
    size: usize,
}

impl<V> View for HashMap<V> {
    type V = Map<u64, V>;

    closed spec fn view(&self) -> Map<u64, V> {
        buckets_map(self.buckets@)
    }
}

impl<V> HashMap<V> {
    /// The number of buckets.
    pub closed spec fn bucket_count(&self) -> nat {
        self.buckets@.len()
    }

    /// The pair lists of the buckets, in bucket order; each list in chain order.
    pub closed spec fn table(&self) -> Seq<Seq<(u64, V)>> {
        table_of(self.buckets@)
    }

    /// The pairs of the map in the order of the buckets and, within a bucket, of its chain.
    pub open spec fn entries(&self) -> Seq<(u64, V)> {
        flat(self.table(), 0)
    }

    /// The load check that `insert` makes before it adds a pair: three quarters of the
    /// bucket count (the load factor 0.75) reached by the number of pairs.
    pub open spec fn at_load_limit(&self) -> bool {
        4 * self@.len() >= 3 * self.bucket_count()
    }

    /// The map's internal invariant.
    pub closed spec fn wf(&self) -> bool {
        &&& buckets_hashed(self.buckets@, self.buckets@.len())
        &&& buckets_unique(self.buckets@)
        &&& self@.dom().finite()
        &&& self.size == self@.dom().len()
        &&& 4 * self.size < 3 * self.buckets@.len() + 4
    }

    /// An empty map with `capacity` buckets.
    pub fn with_capacity(capacity: usize) -> (m: Self)
        ensures
            m.wf(),
            m@ == Map::<u64, V>::empty(),
            m.bucket_count() == capacity,
            m.table() == Seq::new(capacity as nat, |i: int| Seq::<(u64, V)>::empty()),
    {
        let mut buckets: Vec<Option<Box<Entry<V>>>> = Vec::with_capacity(capacity);
        let mut i: usize = 0;
        while i < capacity
            invariant
                i <= capacity,
                buckets@.len() == i,
                forall|j: int| 0 <= j < i ==> buckets@[j] is None,
            decreases capacity - i,
        {
            buckets.push(None);
            i = i + 1;
        }
        let m = HashMap { buckets, size: 0 };
        proof {
            m.lemma_all_empty();
            assert(m.table() =~= Seq::new(capacity as nat, |i: int| Seq::<(u64, V)>::empty()));
        }
        m
    }

    /// An empty map with the default number of buckets.
    pub fn new() -> (m: Self)
        ensures
            m.wf(),
            m@ == Map::<u64, V>::empty(),
            m.bucket_count() == DEFAULT_CAPACITY,
            m.table() == Seq::new(DEFAULT_CAPACITY as nat, |i: int| Seq::<(u64, V)>::empty()),
    {
        Self::with_capacity(DEFAULT_CAPACITY)
    }

    proof fn lemma_all_empty(&self)
        requires
            forall|j: int| 0 <= j < self.buckets@.len() ==> self.buckets@[j] is None,
        ensures
            buckets_hashed(self.buckets@, self.buckets@.len()),
            buckets_unique(self.buckets@),
            self@ == Map::<u64, V>::empty(),
            self@.dom().finite(),
            self@.dom().len() == 0,
    {
        let s = self.buckets@;
        assert forall|i: int, k: u64|
            0 <= i < s.len() && #[trigger] chain_map(s[i]).dom().contains(k) implies bucket_of(
            k,
            s.len(),
        ) == i by {
            assert(s[i] is None);
        }
        assert forall|i: int| 0 <= i < s.len() implies #[trigger] chain_unique(s[i]) by {
            assert(s[i] is None);
        }
        assert forall|k: u64| !#[trigger] self@.dom().contains(k) by {
            lemma_buckets_lookup(s, s.len(), k);
            if 0 <= bucket_of(k, s.len()) < s.len() {
                assert(s[bucket_of(k, s.len())] is None);
            }
        }
        assert(self@ =~= Map::<u64, V>::empty());
    }

    /// The number of pairs.
    pub fn len(&self) -> (r: usize)
        requires
            self.wf(),
        ensures
            r == self@.len(),
    {
        self.size
    }

    /// Whether the map holds no pair.
    pub fn is_empty(&self) -> (r: bool)
        requires
            self.wf(),
        ensures
            r == (self@.len() == 0),
    {
        self.size == 0
    }

    /// The bucket of `key`; the table must have a bucket.
    fn bucket_index(&self, key: &u64) -> (r: usize)
        requires
            self.buckets@.len() > 0,
        ensures
            r == bucket_of(*key, self.buckets@.len()),
            r < self.buckets@.len(),
    {
        let hash_code: u64 = hash(key);
        (hash_code as usize) % self.buckets.len()
    }

    /// Stores `value` under `key` without the load check.
    fn insert_entry(&mut self, key: u64, value: V) -> (r: Option<V>)
        requires
            old(self).wf(),
            old(self).bucket_count() > 0,
            !old(self)@.dom().contains(key) ==> 4 * (old(self)@.len() + 1) < 3
                * old(self).bucket_count() + 4,
        ensures
            final(self).wf(),
            final(self)@ == old(self)@.insert(key, value),
            final(self).bucket_count() == old(self).bucket_count(),
            final(self).table() == table_insert(old(self).table(), key, value),
            r == (if old(self)@.dom().contains(key) {
                Some(old(self)@[key])
            } else {
                None
            }),
    {
        let blen: usize = self.buckets.len();
        let index: usize = self.bucket_index(&key);
        let ghost s = self.buckets@;
        let ghost n = s.len();
        proof {
            lemma_buckets_lookup(s, n, key);
        }
        let r = chain_insert(&mut self.buckets[index], key, value);
        proof {
            assert(self.buckets@ == s.update(index as int, self.buckets@[index as int]));
            assert(self.table() =~= table_insert(old(self).table(), key, value));
            lemma_update_bucket_insert(s, index as int, self.buckets@[index as int], key, value);
            assert forall|i: int| 0 <= i < self.buckets@.len() implies #[trigger] chain_unique(
                self.buckets@[i],
            ) by {
                assert(chain_unique(s[i]));
            }
            lemma_buckets_map_finite(self.buckets@);
        }
        if r.is_none() {
            assert(s.len() == blen);
            self.size = self.size + 1;
        }
        r
    }

    /// Moves every pair into a fresh table of `new_capacity` buckets by `insert`, bucket
    /// after bucket and, within a bucket, in chain order; the fresh table grows again
    /// whenever its load reaches the limit. Every bucket of the result lists its pairs in
    /// their old order. The bound on the number of pairs keeps each doubling within
    /// `usize` (a table with more pairs than it allows could not fit in memory).
    fn resize(&mut self, new_capacity: usize)
        requires
            old(self).wf(),
            new_capacity > 0,
            8 * old(self)@.len() <= 3 * usize::MAX + 8,
        ensures
            final(self).wf(),
            final(self)@ == old(self)@,
            final(self).bucket_count() == grown_capacity(new_capacity as nat, 0, old(self)@.len()),
            final(self).table() == regroup(old(self).entries(), final(self).bucket_count()),
        decreases old(self)@.len(), 0nat,
    {
        let ghost old_map = self@;
        let ghost old_entries = self.entries();
        let ghost old_n = self.buckets@.len();
        let ghost total = old_map.len();
        assert(total == old(self)@.len());
        let mut fresh = Self::with_capacity(new_capacity);
        core::mem::swap(self, &mut fresh);
        let mut old_buckets = fresh.buckets;
        let ghost s0 = old_buckets@;
        let ghost mut consumed: Seq<(u64, V)> = Seq::empty();
        proof {
            lemma_buckets_map_finite(s0);
            lemma_suffix_flat(s0, 0);
            lemma_regroup_empty::<V>(new_capacity as nat);
            assert(consumed + suffix_seq(old_buckets@, 0) =~= old_entries);
        }
        let mut i: usize = 0;
        while i < old_buckets.len()
            invariant
                self.wf(),
                self.bucket_count() > 0,
                old_buckets@.len() == old_n,
                i <= old_n,
                old_map == buckets_map(s0),
                old_map.dom().finite(),
                total == old_map.len(),
                total == old(self)@.len(),
                8 * total <= 3 * usize::MAX + 8,
                buckets_hashed(old_buckets@, old_n),
                buckets_unique(old_buckets@),
                forall|j: int| 0 <= j < i ==> old_buckets@[j] is None,
                self@.dom().disjoint(buckets_map(old_buckets@).dom()),
                self@.union_prefer_right(buckets_map(old_buckets@)) == old_map,
                old_entries == consumed + suffix_seq(old_buckets@, i as int),
                self.table() == regroup(consumed, self.bucket_count()),
                consumed.len() == self@.len(),
                forall|j: int| 0 <= j < consumed.len() ==> self@.dom().contains(#[trigger] consumed[j].0),
                grown_capacity(self.bucket_count(), consumed.len(), total) == grown_capacity(
                    new_capacity as nat,
                    0,
                    total,
                ),
            decreases old_n - i,
        {
            let ghost before = old_buckets@;
            proof {
                lemma_take_bucket(before, old_n, i as int);
                lemma_suffix_update(before, i as int, None, i + 1);
            }
            let mut cur: Option<Box<Entry<V>>> = None;
            core::mem::swap(&mut cur, &mut old_buckets[i]);
            proof {
                assert(old_buckets@ == before.update(i as int, None));
                assert forall|j: int| 0 <= j < old_buckets@.len() implies #[trigger] chain_unique(
                    old_buckets@[j],
                ) by {
                    assert(chain_unique(before[j]));
                }
                assert(self@.union_prefer_right(chain_map(cur)).union_prefer_right(
                    buckets_map(old_buckets@),
                ) =~= old_map);
                assert(old_entries =~= consumed + chain_seq(cur) + suffix_seq(
                    old_buckets@,
                    i + 1,
                ));
            }
            loop
                invariant
                    self.wf(),
                    self.bucket_count() > 0,
                    old_buckets@.len() == old_n,
                    i < old_n,
                    old_map.dom().finite(),
                    total == old_map.len(),
                    total == old(self)@.len(),
                    8 * total <= 3 * usize::MAX + 8,
                    buckets_hashed(old_buckets@, old_n),
                    buckets_unique(old_buckets@),
                    forall|j: int| 0 <= j <= i ==> old_buckets@[j] is None,
                    chain_unique(cur),
                    chain_map(cur).dom().disjoint(buckets_map(old_buckets@).dom()),
                    self@.dom().disjoint(buckets_map(old_buckets@).dom()),
                    self@.dom().disjoint(chain_map(cur).dom()),
                    self@.union_prefer_right(chain_map(cur)).union_prefer_right(
                        buckets_map(old_buckets@),
                    ) == old_map,
                    old_entries == consumed + chain_seq(cur) + suffix_seq(old_buckets@, i + 1),
                    self.table() == regroup(consumed, self.bucket_count()),
                    consumed.len() == self@.len(),
                    forall|j: int|
                        0 <= j < consumed.len() ==> self@.dom().contains(#[trigger] consumed[j].0),
                    grown_capacity(self.bucket_count(), consumed.len(), total) == grown_capacity(
                        new_capacity as nat,
                        0,
                        total,
                    ),
                ensures
                    cur is None,
                decreases cur,
            {
                match cur {
                    None => {
                        break;
                    },
                    Some(entry) => {
                        let Entry { key, value, next } = *entry;
                        let ghost cap = self.bucket_count();
                        proof {
                            assert(old_map.dom().contains(key));
                            assert(self@.dom().insert(key).subset_of(old_map.dom()));
                            vstd::set_lib::lemma_len_subset(
                                self@.dom().insert(key),
                                old_map.dom(),
                            );
                            assert forall|j: int| 0 <= j < consumed.len() implies (
                            #[trigger] consumed[j]).0 != key by {
                                assert(self@.dom().contains(consumed[j].0));
                            }
                            if self.at_load_limit() {
                                lemma_regroup_double(consumed, cap);
                            }
                            assert(self.entries() == flat(regroup(consumed, cap), 0));
                            assert(self@.dom().insert(key).len() == self@.dom().len() + 1);
                            assert(self@.len() < total);
                            assert(total == old(self)@.len());
                        }
                        self.insert(key, value);
                        proof {
                            lemma_regroup_push(consumed, self.bucket_count(), key, value);
                            consumed = consumed.push((key, value));
                        }
                        cur = next;
                        proof {
                            assert(self@.union_prefer_right(chain_map(cur)).union_prefer_right(
                                buckets_map(old_buckets@),
                            ) =~= old_map);
                            assert(old_entries =~= consumed + chain_seq(cur) + suffix_seq(
                                old_buckets@,
                                i + 1,
                            ));
                        }
                    },
                }
            }
            proof {
                assert(self@.union_prefer_right(buckets_map(old_buckets@)) =~= old_map);
                assert(consumed + chain_seq(cur) =~= consumed);
            }
            i = i + 1;
        }
        proof {
            assert forall|k: u64| !#[trigger] buckets_map(old_buckets@).dom().contains(k) by {
                lemma_buckets_lookup(old_buckets@, old_n, k);
            }
            assert(self@ =~= old_map);
            assert(consumed =~= old_entries);
        }
    }

    /// Stores `value` under `key` and returns the value it replaced. When the number of
    /// pairs has reached three quarters of the bucket count, the table first doubles,
    /// its pairs moved as `resize` moves them.
    pub fn insert(&mut self, key: u64, value: V) -> (r: Option<V>)
        requires
            old(self).wf(),
            old(self).bucket_count() > 0,
            old(self).at_load_limit() ==> 2 * old(self).bucket_count() <= usize::MAX,
        ensures
            final(self).wf(),
            final(self)@ == old(self)@.insert(key, value),
            r == (if old(self)@.dom().contains(key) {
                Some(old(self)@[key])
            } else {
                None
            }),
            final(self).bucket_count() == (if old(self).at_load_limit() {
                2 * old(self).bucket_count()
            } else {
                old(self).bucket_count()
            }),
            final(self).table() == table_insert(
                if old(self).at_load_limit() {
                    regroup(old(self).entries(), 2 * old(self).bucket_count())
                } else {
                    old(self).table()
                },
                key,
                value,
            ),
        decreases old(self)@.len(), 1nat,
    {
        if (self.size as u128) * 4 >= (self.buckets.len() as u128) * 3 {
            let new_capacity: usize = self.buckets.len() * 2;
            proof {
                lemma_grown_fixed(new_capacity as nat, 0, self@.len());
            }
            self.resize(new_capacity);
        }
        self.insert_entry(key, value)
    }

    /// Removes the pair with `key` and returns its value.
    pub fn remove(&mut self, key: &u64) -> (r: Option<V>)
        requires
            old(self).wf(),
            old(self).bucket_count() > 0,
        ensures
            final(self).wf(),
            final(self)@ == old(self)@.remove(*key),
            final(self).bucket_count() == old(self).bucket_count(),
            final(self).table() == table_remove(old(self).table(), *key),
            r == (if old(self)@.dom().contains(*key) {
                Some(old(self)@[*key])
            } else {
                None
            }),
    {
        let index: usize = self.bucket_index(key);
        let ghost s = self.buckets@;
        let ghost n = s.len();
        proof {
            lemma_buckets_lookup(s, n, *key);
            assert(chain_unique(s[index as int]));
        }
        let r = chain_remove(&mut self.buckets[index], *key);
        proof {
            assert(self.buckets@ == s.update(index as int, self.buckets@[index as int]));
            assert(self.table() =~= table_remove(old(self).table(), *key));
            lemma_update_bucket_remove(s, index as int, self.buckets@[index as int], *key);
            assert forall|i: int| 0 <= i < self.buckets@.len() implies #[trigger] chain_unique(
                self.buckets@[i],
            ) by {
                if i != index {
                    assert(chain_unique(s[i]));
                }
            }
            lemma_buckets_map_finite(self.buckets@);
        }
        if r.is_some() {
            self.size = self.size - 1;
        }
        r
    }

    /// Removes every pair; the bucket count stays.
    pub fn clear(&mut self)
        requires
            old(self).wf(),
        ensures
            final(self).wf(),
            final(self)@ == Map::<u64, V>::empty(),
            final(self).bucket_count() == old(self).bucket_count(),
            final(self).table() == Seq::new(
                old(self).bucket_count(),
                |i: int| Seq::<(u64, V)>::empty(),
            ),
    {
        let mut i: usize = 0;
        while i < self.buckets.len()
            invariant
                i <= self.buckets@.len(),
                self.buckets@.len() == old(self).buckets@.len(),
                forall|j: int| 0 <= j < i ==> self.buckets@[j] is None,
            decreases self.buckets@.len() - i,
        {
            self.buckets[i] = None;
            i = i + 1;
        }
        self.size = 0;
        proof {
            self.lemma_all_empty();
            assert(self.table() =~= Seq::new(
                old(self).bucket_count(),
                |i: int| Seq::<(u64, V)>::empty(),
            ));
        }
    }

    /// The value stored under `key`, if any.
    pub fn get(&self, key: &u64) -> (r: Option<&V>)
        requires
            self.wf(),
            self.bucket_count() > 0,
        ensures
            r == (if self@.dom().contains(*key) {
                Some(&self@[*key])
            } else {
                None
            }),
    {
        let index: usize = self.bucket_index(key);
        proof {
            lemma_buckets_lookup(self.buckets@, self.buckets@.len(), *key);
        }
        chain_get(&self.buckets[index], *key)
    }

    /// A mutable borrow of the value stored under `key`, if any.
    pub fn get_mut(&mut self, key: &u64) -> (r: Option<&mut V>)
        requires
            old(self).wf(),
            old(self).bucket_count() > 0,
        ensures
            r.is_some() == old(self)@.dom().contains(*key),
            r.is_some() ==> *r.unwrap() == old(self)@[*key] && final(self)@ == old(self)@.insert(
                *key,
                *final(r.unwrap()),
            ),
            r.is_some() ==> final(self).table() == table_insert(
                old(self).table(),
                *key,
                *final(r.unwrap()),
            ),
            r.is_none() ==> final(self)@ == old(self)@ && final(self).table() == old(self).table(),
            final(self).wf(),
            final(self).bucket_count() == old(self).bucket_count(),
    {
        let index: usize = self.bucket_index(key);
        let ghost s = self.buckets@;
        let ghost n = s.len();
        proof {
            lemma_buckets_lookup(s, n, *key);
            assert(chain_unique(s[index as int]));
        }
        proof {
            assert(s.update(index as int, s[index as int]) =~= s);
            if chain_map(s[index as int]).dom().contains(*key) {
                lemma_update_bucket_value(s, index as int, *key);
            }
            lemma_buckets_map_finite(s);
        }
        let r = chain_get_mut(&mut self.buckets[index], *key);
        r
    }

    /// An iterator over the pairs, in the order of `entries`.
    pub fn iter(&self) -> (it: Iter<'_, V>)
        requires
            self.wf(),
        ensures
            it.wf(),
            it.remaining() == self.entries(),
            it.remaining().len() == self@.len(),
            forall|i: int|
                0 <= i < it.remaining().len() ==> self@.dom().contains(
                    (#[trigger] it.remaining()[i]).0,
                ) && self@[it.remaining()[i].0] == it.remaining()[i].1,
            forall|i: int, j: int|
                0 <= i < j < it.remaining().len() ==> (#[trigger] it.remaining()[i]).0
                    != (#[trigger] it.remaining()[j]).0,
    {
        let (bucket_index, current_entry) = first_nonempty(&self.buckets, 0);
        proof {
            lemma_suffix_flat(self.buckets@, 0);
            self.lemma_entries_list_map();
        }
        Iter { map: self, bucket_index, current_entry }
    }

    /// Iteration lists the map: every pair of the map exactly once and nothing else.
    pub proof fn lemma_entries_list_map(&self)
        requires
            self.wf(),
        ensures
            self.entries().len() == self@.len(),
            forall|i: int|
                0 <= i < self.entries().len() ==> self@.dom().contains(
                    (#[trigger] self.entries()[i]).0,
                ) && self@[self.entries()[i].0] == self.entries()[i].1,
            forall|i: int, j: int|
                0 <= i < j < self.entries().len() ==> (#[trigger] self.entries()[i]).0
                    != (#[trigger] self.entries()[j]).0,
    {
        let s = self.buckets@;
        let n = s.len();
        lemma_suffix_flat(s, 0);
        assert(self.entries() == suffix_seq(s, 0));
        lemma_suffix_seq(s, 0);
        let ks = keys_of(suffix_seq(s, 0));
        assert forall|k: u64| #[trigger] suffix_keys(s, 0).contains(k) == self@.dom().contains(k) by {
            lemma_buckets_lookup(s, n, k);
        }
        assert(ks.to_set() =~= self@.dom());
        ks.unique_seq_to_set();
        assert forall|i: int|
            0 <= i < self.entries().len() implies self@.dom().contains(
            (#[trigger] self.entries()[i]).0,
        ) && self@[self.entries()[i].0] == self.entries()[i].1 by {
            lemma_buckets_lookup(s, n, self.entries()[i].0);
        }
        assert forall|i: int, j: int|
            0 <= i < j < self.entries().len() implies (#[trigger] self.entries()[i]).0
            != (#[trigger] self.entries()[j]).0 by {
            assert(ks[i] == self.entries()[i].0);
            assert(ks[j] == self.entries()[j].0);
        }
    }

    /// The value stored under `key`, which must be there.
    pub fn index(&self, key: &u64) -> (r: &V)
        requires
            self.wf(),
            self.bucket_count() > 0,
            self@.dom().contains(*key),
        ensures
            *r == self@[*key],
    {
        self.get(key).unwrap()
    }

    /// A mutable borrow of the value stored under `key`, which must be there.
    pub fn index_mut(&mut self, key: &u64) -> (r: &mut V)
        requires
            old(self).wf(),
            old(self).bucket_count() > 0,
            old(self)@.dom().contains(*key),
        ensures
            *r == old(self)@[*key],
            final(self)@ == old(self)@.insert(*key, *final(r)),
            final(self).table() == table_insert(old(self).table(), *key, *final(r)),
            final(self).wf(),
            final(self).bucket_count() == old(self).bucket_count(),
    {
        self.get_mut(key).unwrap()
    }

    /// Whether a value is stored under `key`.
    pub fn contains_key(&self, key: &u64) -> (r: bool)
        requires
            self.wf(),
            self.bucket_count() > 0,
        ensures
            r == self@.dom().contains(*key),
    {
        self.get(key).is_some()
    }
}

impl<V> Default for HashMap<V> {
    fn default() -> (m: Self)
        ensures
            m.wf(),
            m@ == Map::<u64, V>::empty(),
            m.bucket_count() == DEFAULT_CAPACITY,
            m.table() == Seq::new(DEFAULT_CAPACITY as nat, |i: int| Seq::<(u64, V)>::empty()),
    {
        Self::new()
    }
}

/// A read after a write: the written key gives back the written value, and every other
/// key gives back what it gave before.
pub proof fn lemma_get_after_insert<V>(before: HashMap<V>, after: HashMap<V>, k: u64, v: V, other: u64)
    requires
        after@ == before@.insert(k, v),
    ensures
        after@.dom().contains(k),
        after@[k] == v,
        other != k ==> after@.dom().contains(other) == before@.dom().contains(other),
        other != k && before@.dom().contains(other) ==> after@[other] == before@[other],
{
}

/// After a removal the key is gone, and every other key gives back what it gave before.
pub proof fn lemma_get_after_remove<V>(before: HashMap<V>, after: HashMap<V>, k: u64, other: u64)
    requires
        after@ == before@.remove(k),
    ensures
        !after@.dom().contains(k),
        other != k ==> after@.dom().contains(other) == before@.dom().contains(other),
        other != k && before@.dom().contains(other) ==> after@[other] == before@[other],
{
}

/// Writing a key counts one more pair exactly when the key was new; removing a key counts
/// one fewer exactly when it was there.
pub proof fn lemma_len_after_update<V>(m: HashMap<V>, k: u64, v: V)
    requires
        m.wf(),
    ensures
        m@.insert(k, v).len() == m@.len() + (if m@.dom().contains(k) {
            0int
        } else {
            1int
        }),
        m@.remove(k).len() == m@.len() - (if m@.dom().contains(k) {
            1int
        } else {
            0int
        }),
{
    assert(m@.insert(k, v).dom() =~= m@.dom().insert(k));
    assert(m@.remove(k).dom() =~= m@.dom().remove(k));
}

/// Removing a key that was just written as new gives back the written value, the map
/// from before and its length.
pub proof fn lemma_remove_undoes_insert<V>(m: HashMap<V>, k: u64, v: V)
    requires
        m.wf(),
        !m@.dom().contains(k),
    ensures
        m@.insert(k, v).dom().contains(k),
        m@.insert(k, v)[k] == v,
        m@.insert(k, v).remove(k) == m@,
        m@.insert(k, v).remove(k).len() == m@.len(),
{
    assert(m@.insert(k, v).remove(k) =~= m@);
}

/// Unlinking a key that a list lacks and that was just appended gives back the list.
proof fn lemma_slot_remove_push<V>(c: Seq<(u64, V)>, k: u64, v: V)
    requires
        forall|i: int| 0 <= i < c.len() ==> (#[trigger] c[i]).0 != k,
    ensures
        slot_remove(c.push((k, v)), k) == c,
    decreases c.len(),
{
    let c2 = c.push((k, v));
    if c.len() == 0 {
        assert(c2.drop_first() =~= c);
    } else {
        let d = c.drop_first();
        assert forall|i: int| 0 <= i < d.len() implies (#[trigger] d[i]).0 != k by {
            assert(d[i] == c[i + 1]);
        }
        lemma_slot_remove_push(d, k, v);
        assert(c2.drop_first() =~= d.push((k, v)));
        assert(c2[0] == c[0]);
        assert(seq![c[0]] + d =~= c);
    }
}

/// Removing a key that was just written as new, without growth in between, gives back
/// the table from before, so iteration order is restored too.
pub proof fn lemma_remove_undoes_insert_table<V>(t: Seq<Seq<(u64, V)>>, k: u64, v: V)
    requires
        t.len() > 0,
        forall|i: int|
            0 <= i < t[bucket_of(k, t.len())].len() ==> (#[trigger] t[bucket_of(
                k,
                t.len(),
            )][i]).0 != k,
    ensures
        table_remove(table_insert(t, k, v), k) == t,
{
    let b = bucket_of(k, t.len());
    lemma_slot_insert_absent(t[b], k, v);
    lemma_slot_remove_push(t[b], k, v);
    assert(table_remove(table_insert(t, k, v), k) =~= t);
}

/// Writing two different keys in either order gives the same map and length.
pub proof fn lemma_insert_order<V>(m: HashMap<V>, k1: u64, v1: V, k2: u64, v2: V)
    requires
        m.wf(),
        k1 != k2,
    ensures
        m@.insert(k1, v1).insert(k2, v2) == m@.insert(k2, v2).insert(k1, v1),
        m@.insert(k1, v1).insert(k2, v2).len() == m@.insert(k2, v2).insert(k1, v1).len(),
{
    assert(m@.insert(k1, v1).insert(k2, v2) =~= m@.insert(k2, v2).insert(k1, v1));
}

/// The table grows on an insert exactly when the pairs already number at least three
/// quarters of the buckets (the load factor 0.75), and then it doubles.
pub proof fn lemma_growth_point<V>(m: HashMap<V>)
    ensures
        m.at_load_limit() == (m@.len() * 4 >= m.bucket_count() * 3),
{
}

/// The load stays below three quarters of the bucket count plus one pair.
pub proof fn lemma_load_bound<V>(m: HashMap<V>)
    requires
        m.wf(),
    ensures
        4 * m@.len() < 3 * m.bucket_count() + 4,
{
}

/// The character of decimal digit `d`.
pub open spec fn digit_char(d: nat) -> char {
    if d == 0 {
        '0'
    } else if d == 1 {
        '1'
    } else if d == 2 {
        '2'
    } else if d == 3 {
        '3'
    } else if d == 4 {
        '4'
    } else if d == 5 {
        '5'
    } else if d == 6 {
        '6'
    } else if d == 7 {
        '7'
    } else if d == 8 {
        '8'
    } else {
        '9'
    }
}

/// The decimal digits of `n`, without leading zeros.
pub open spec fn decimal(n: nat) -> Seq<char>
    decreases n,
{
    if n < 10 {
        seq![digit_char(n)]
    } else {
        decimal(n / 10).push(digit_char(n % 10))
    }
}

/// The text of the first `n` pairs of `q`, each as its key in decimal, `": "` and the
/// value's text in `texts`, separated by `", "`.
pub open spec fn pairs_text<V>(q: Seq<(u64, V)>, texts: Seq<Seq<char>>, n: nat) -> Seq<char>
    decreases n,
{
    if n == 0 {
        Seq::empty()
    } else {
        let item = decimal(q[n - 1].0 as nat) + seq![':', ' '] + texts[n - 1];
        if n == 1 {
            item
        } else {
            pairs_text(q, texts, (n - 1) as nat) + seq![',', ' '] + item
        }
    }
}

/// The text of digit `d`.
fn digit_str(d: u64) -> (r: &'static str)
    requires
        d < 10,
    ensures
        r@ == seq![digit_char(d as nat)],
{
    proof {
        reveal_strlit("0");
        reveal_strlit("1");
        reveal_strlit("2");
        reveal_strlit("3");
        reveal_strlit("4");
        reveal_strlit("5");
        reveal_strlit("6");
        reveal_strlit("7");
        reveal_strlit("8");
        reveal_strlit("9");
    }
    if d == 0 {
        "0"
    } else if d == 1 {
        "1"
    } else if d == 2 {
        "2"
    } else if d == 3 {
        "3"
    } else if d == 4 {
        "4"
    } else if d == 5 {
        "5"
    } else if d == 6 {
        "6"
    } else if d == 7 {
        "7"
    } else if d == 8 {
        "8"
    } else {
        "9"
    }
}

/// Appends `n` in decimal.
fn push_decimal(out: &mut String, n: u64)
    ensures
        final(out)@ == old(out)@ + decimal(n as nat),
    decreases n,
{
    if n >= 10 {
        push_decimal(out, n / 10);
    }
    out.append(digit_str(n % 10));
    proof {
        if n >= 10 {
            assert(final(out)@ =~= old(out)@ + decimal(n as nat));
        } else {
            assert(final(out)@ =~= old(out)@ + decimal(n as nat));
        }
    }
}

/// The `Debug` text of a value (`format!("{:?}", v)`). Nothing is stated of it: it is
/// whatever the value's `Debug` implementation writes.
#[verifier::external_body]
fn value_debug<V: core::fmt::Debug>(v: &V) -> String {
    format!("{:?}", v)
}

/// `t` is a text that the value's `Debug` formatting (`value_debug`) gave for `v`.
pub closed spec fn is_debug_text<V: core::fmt::Debug>(v: V, t: String) -> bool {
    call_ensures(value_debug::<V>, (&v,), t)
}

impl<V: core::fmt::Debug> HashMap<V> {
    /// The map as its `Debug` text: `{`, the pairs in iteration order as `key: value`
    /// separated by `, `, then `}`; keys in decimal, values in their own `Debug` text.
    pub fn to_debug_string(&self) -> (r: String)
        requires
            self.wf(),
        ensures
            exists|texts: Seq<Seq<char>>, made: Seq<String>|
                {
                    &&& texts.len() == self.entries().len()
                    &&& made.len() == self.entries().len()
                    &&& forall|i: int|
                        0 <= i < made.len() ==> texts[i] == (#[trigger] made[i])@ && is_debug_text(
                            self.entries()[i].1,
                            made[i],
                        )
                    &&& r@ == seq!['{'] + pairs_text(self.entries(), texts, self.entries().len())
                        + seq!['}']
                },
    {
        proof {
            reveal_strlit("{");
            reveal_strlit("}");
            reveal_strlit(", ");
            reveal_strlit(": ");
        }
        let mut out = String::new();
        out.append("{");
        let mut it = self.iter();
        let ghost q = self.entries();
        let ghost mut texts: Seq<Seq<char>> = Seq::empty();
        let ghost mut made: Seq<String> = Seq::empty();
        let debug_of = value_debug::<V>;
        let mut n: usize = 0;
        loop
            invariant
                it.wf(),
                q == self.entries(),
                n <= q.len(),
                it.remaining() == q.skip(n as int),
                texts.len() == n,
                made.len() == n,
                forall|i: int|
                    0 <= i < made.len() ==> texts[i] == (#[trigger] made[i])@ && is_debug_text(
                        q[i].1,
                        made[i],
                    ),
                out@ == seq!['{'] + pairs_text(q, texts, n as nat),
                n < q.len() ==> n < usize::MAX,
                q.len() == self@.len(),
                self@.len() <= usize::MAX,
            ensures
                n == q.len(),
                texts.len() == n,
                made.len() == n,
                forall|i: int|
                    0 <= i < made.len() ==> texts[i] == (#[trigger] made[i])@ && is_debug_text(
                        q[i].1,
                        made[i],
                    ),
                out@ == seq!['{'] + pairs_text(q, texts, n as nat),
            decreases q.len() - n,
        {
            match it.next() {
                None => {
                    break;
                },
                Some((k, v)) => {
                    proof {
                        assert(q.skip(n as int)[0] == q[n as int]);
                    }
                    let ghost before = out@;
                    proof {
                        reveal_strlit(", ");
                        reveal_strlit(": ");
                    }
                    if n > 0 {
                        out.append(", ");
                    }
                    push_decimal(&mut out, *k);
                    out.append(": ");
                    let text = debug_of(v);
                    out.append(text.as_str());
                    proof {
                        assert(*k == q[n as int].0);
                        assert(*v == q[n as int].1);
                        let item = decimal(q[n as int].0 as nat) + seq![':', ' '] + text@;
                        if n > 0 {
                            assert(out@ =~= before + seq![',', ' '] + item);
                        } else {
                            assert(out@ =~= before + item);
                        }
                        let texts2 = texts.push(text@);
                        assert(pairs_text(q, texts2, n as nat) =~= pairs_text(q, texts, n as nat)) by {
                            lemma_pairs_text_prefix(q, texts, texts2, n as nat);
                        }
                        texts = texts2;
                        made = made.push(text);
                        assert(q.skip(n as int).drop_first() =~= q.skip(n + 1));
                    }
                    n = n + 1;
                    proof {
                        assert(out@ =~= seq!['{'] + pairs_text(q, texts, n as nat));
                    }
                },
            }
        }
        proof {
            reveal_strlit("}");
        }
        out.append("}");
        proof {
            assert(out@ =~= seq!['{'] + pairs_text(q, texts, q.len()) + seq!['}']);
        }
        out
    }
}

/// The text of the first `n` pairs depends only on the first `n` value texts.
proof fn lemma_pairs_text_prefix<V>(q: Seq<(u64, V)>, t1: Seq<Seq<char>>, t2: Seq<Seq<char>>, n: nat)
    requires
        n <= t1.len(),
        n <= t2.len(),
        forall|i: int| 0 <= i < n ==> t1[i] == t2[i],
    ensures
        pairs_text(q, t1, n) == pairs_text(q, t2, n),
    decreases n,
{
    if n > 0 {
        lemma_pairs_text_prefix(q, t1, t2, (n - 1) as nat);
    }
}

} // verus!
