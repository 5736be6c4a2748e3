//! A hash table with separate chaining.
//!
//! The table owns a vector of buckets, each bucket a vector of key/value
//! pairs. A key's bucket is chosen by masking its hash with the bucket
//! count, which is kept a power of two. The table is modeled as a
//! `Map` from abstract key values to values.
use vstd::prelude::*;

use crate::key::HashKey;
use crate::key::LookupKey;

verus! {

pub struct Hashmap<K: HashKey, V> {
    buckets: Vec<Vec<(K, V)>>,
    items: usize,
}

/// The bucket index for a hash, out of `n` buckets: the hash masked by
/// `n - 1`, which keeps the index below `n`. Meaningful for `n >= 1`;
/// the table keeps `n` a power of two so the mask acts as a modulus.
pub open spec fn bucket_of(h: u64, n: nat) -> int {
    (h & ((n - 1) as u64)) as int
}

/// `n` is a power of two.
pub open spec fn is_pow2(n: nat) -> bool
    decreases n,
{
    if n == 0 {
        false
    } else if n == 1 {
        true
    } else {
        n % 2 == 0 && is_pow2(n / 2)
    }
}

/// The pair at position `i` of bucket `b` has abstract key `kv`.
spec fn slot_in<K: HashKey, V>(bs: Seq<Vec<(K, V)>>, b: int, i: int, kv: K::V) -> bool {
    0 <= b < bs.len() && 0 <= i < bs[b]@.len() && bs[b]@[i].0@ == kv
}

/// Some stored pair has abstract key `kv`.
spec fn seq_has<K: HashKey, V>(bs: Seq<Vec<(K, V)>>, kv: K::V) -> bool {
    exists|p: (int, int)| slot_in(bs, p.0, p.1, kv)
}

/// The value stored under abstract key `kv`.
spec fn seq_val<K: HashKey, V>(bs: Seq<Vec<(K, V)>>, kv: K::V) -> V {
    let p = choose|p: (int, int)| slot_in(bs, p.0, p.1, kv);
    bs[p.0]@[p.1].1
}

/// No two stored pairs share an abstract key.
spec fn buckets_unique<K: HashKey, V>(bs: Seq<Vec<(K, V)>>) -> bool {
    forall|b1: int, i1: int, b2: int, i2: int|
        #![trigger bs[b1]@[i1], bs[b2]@[i2]]
        0 <= b1 < bs.len() && 0 <= i1 < bs[b1]@.len() && 0 <= b2 < bs.len() && 0 <= i2
            < bs[b2]@.len() && (b1 != b2 || i1 != i2) ==> bs[b1]@[i1].0@ != bs[b2]@[i2].0@
}

/// Every stored pair sits in the bucket its key hashes to, out of `n`.
spec fn buckets_placed<K: HashKey, V>(bs: Seq<Vec<(K, V)>>, n: nat) -> bool {
    forall|b: int, i: int|
        #![trigger bs[b]@[i]]
        0 <= b < bs.len() && 0 <= i < bs[b]@.len() ==> bucket_of(
            K::hash_of(bs[b]@[i].0@),
            n,
        ) == b
}

/// The total number of stored pairs.
spec fn flat_len<K: HashKey, V>(bs: Seq<Vec<(K, V)>>) -> nat
    decreases bs.len(),
{
    if bs.len() == 0 {
        0
    } else {
        flat_len(bs.drop_last()) + bs.last()@.len()
    }
}

/// Two slots holding the same abstract key are the same slot.
proof fn lemma_slot_unique<K: HashKey, V>(bs: Seq<Vec<(K, V)>>, b: int, i: int, kv: K::V)
    requires
        buckets_unique(bs),
        slot_in(bs, b, i, kv),
    ensures
        seq_has(bs, kv),
        seq_val(bs, kv) == bs[b]@[i].1,
{
    let pw = (b, i);
    assert(slot_in(bs, pw.0, pw.1, kv));
    assert(seq_has(bs, kv));
    let p = choose|p: (int, int)| slot_in(bs, p.0, p.1, kv);
    assert(slot_in(bs, p.0, p.1, kv));
    if p.0 != b || p.1 != i {
        assert(bs[p.0]@[p.1].0@ != bs[b]@[i].0@);
        assert(false);
    }
}

/// A key absent from its own bucket is absent from the table.
proof fn lemma_absent<K: HashKey, V>(bs: Seq<Vec<(K, V)>>, kv: K::V)
    requires
        bs.len() >= 1,
        buckets_placed(bs, bs.len()),
        forall|i: int|
            0 <= i < bs[bucket_of(K::hash_of(kv), bs.len())]@.len() ==> bs[bucket_of(
                K::hash_of(kv),
                bs.len(),
            )]@[i].0@ != kv,
    ensures
        !seq_has(bs, kv),
{
    let n = bs.len();
    if seq_has(bs, kv) {
        let p = choose|p: (int, int)| slot_in(bs, p.0, p.1, kv);
        assert(slot_in(bs, p.0, p.1, kv));
        assert(bucket_of(K::hash_of(kv), n) == p.0);
        assert(false);
    }
}

/// How the pair total changes when one bucket is replaced.
proof fn lemma_flat_len_update<K: HashKey, V>(bs: Seq<Vec<(K, V)>>, j: int, c: Vec<(K, V)>)
    requires
        0 <= j < bs.len(),
    ensures
        flat_len(bs.update(j, c)) + bs[j]@.len() == flat_len(bs) + c@.len(),
    decreases bs.len(),
{
    let bs2 = bs.update(j, c);
    if j == bs.len() - 1 {
        assert(bs2.drop_last() =~= bs.drop_last());
        assert(bs2.last() == c);
    } else {
        assert(bs2.drop_last() =~= bs.drop_last().update(j, c));
        lemma_flat_len_update(bs.drop_last(), j, c);
        assert(bs2.last() == bs.last());
    }
}

/// Every bucket's length is bounded by the pair total.
proof fn lemma_flat_len_bucket<K: HashKey, V>(bs: Seq<Vec<(K, V)>>, j: int)
    requires
        0 <= j < bs.len(),
    ensures
        bs[j]@.len() <= flat_len(bs),
    decreases bs.len(),
{
    if j == bs.len() - 1 {
    } else {
        lemma_flat_len_bucket(bs.drop_last(), j);
        assert(bs.drop_last()[j] == bs[j]);
    }
}

/// Tables with only empty buckets hold no pairs.
proof fn lemma_flat_len_empty<K: HashKey, V>(bs: Seq<Vec<(K, V)>>)
    requires
        forall|b: int| 0 <= b < bs.len() ==> bs[b]@.len() == 0,
    ensures
        flat_len(bs) == 0,
    decreases bs.len(),
{
    if bs.len() > 0 {
        lemma_flat_len_empty(bs.drop_last());
    }
}

/// Removing the pair at one slot by moving the bucket's last pair into its
/// place: how presence, values, uniqueness and placement carry over.
proof fn lemma_bucket_remove<K: HashKey, V>(
    bs: Seq<Vec<(K, V)>>,
    bs2: Seq<Vec<(K, V)>>,
    j: int,
    i: int,
)
    requires
        bs2.len() == bs.len(),
        0 <= j < bs.len(),
        0 <= i < bs[j]@.len(),
        forall|b: int| 0 <= b < bs.len() && b != j ==> bs2[b] == bs[b],
        bs2[j]@ == bs[j]@.update(i, bs[j]@.last()).drop_last(),
        buckets_unique(bs),
    ensures
        buckets_unique(bs2),
        forall|n: nat| #[trigger] buckets_placed(bs, n) ==> buckets_placed(bs2, n),
        seq_has(bs, bs[j]@[i].0@),
        seq_val(bs, bs[j]@[i].0@) == bs[j]@[i].1,
        !seq_has(bs2, bs[j]@[i].0@),
        forall|kv: K::V| kv != bs[j]@[i].0@ ==> #[trigger] seq_has(bs2, kv) == seq_has(bs, kv),
        forall|kv: K::V|
            kv != bs[j]@[i].0@ && seq_has(bs, kv) ==> #[trigger] seq_val(bs2, kv) == seq_val(
                bs,
                kv,
            ),
{
    let rkv = bs[j]@[i].0@;
    let m = bs[j]@.len() - 1;
    assert(bs2[j]@.len() == m);
    assert forall|l: int| 0 <= l < m implies bs2[j]@[l] == (if l == i {
        bs[j]@[m]
    } else {
        bs[j]@[l]
    }) by {
        assert(bs[j]@.update(i, bs[j]@.last()).drop_last()[l] == bs[j]@.update(
            i,
            bs[j]@.last(),
        )[l]);
    }
    lemma_slot_unique(bs, j, i, rkv);
    assert forall|b1: int, i1: int, b2: int, i2: int|
        0 <= b1 < bs2.len() && 0 <= i1 < bs2[b1]@.len() && 0 <= b2 < bs2.len() && 0 <= i2
            < bs2[b2]@.len() && (b1 != b2 || i1 != i2) implies bs2[b1]@[i1].0@
        != bs2[b2]@[i2].0@ by {
        let o1 = if b1 == j && i1 == i {
            (j, m)
        } else {
            (b1, i1)
        };
        let o2 = if b2 == j && i2 == i {
            (j, m)
        } else {
            (b2, i2)
        };
        assert(bs2[b1]@[i1] == bs[o1.0]@[o1.1]);
        assert(bs2[b2]@[i2] == bs[o2.0]@[o2.1]);
        assert(o1 != o2);
        assert(bs[o1.0]@[o1.1].0@ != bs[o2.0]@[o2.1].0@);
    }
    assert forall|n: nat| #[trigger] buckets_placed(bs, n) implies buckets_placed(bs2, n) by {
        assert forall|b: int, l: int|
            0 <= b < bs2.len() && 0 <= l < bs2[b]@.len() implies bucket_of(
            K::hash_of(bs2[b]@[l].0@),
            n,
        ) == b by {
            if b == j && l == i {
                assert(bs2[b]@[l] == bs[j]@[m]);
            } else {
                assert(bs2[b]@[l] == bs[b]@[l]);
            }
        }
    }
    if seq_has(bs2, rkv) {
        let p = choose|p: (int, int)| slot_in(bs2, p.0, p.1, rkv);
        assert(slot_in(bs2, p.0, p.1, rkv));
        let o = if p.0 == j && p.1 == i {
            (j, m)
        } else {
            (p.0, p.1)
        };
        assert(bs2[p.0]@[p.1] == bs[o.0]@[o.1]);
        assert(slot_in(bs, o.0, o.1, rkv));
        if o.0 != j || o.1 != i {
            assert(bs[o.0]@[o.1].0@ != bs[j]@[i].0@);
        }
        assert(false);
    }
    assert forall|kv: K::V| kv != rkv implies #[trigger] seq_has(bs2, kv) == seq_has(bs, kv) by {
        if seq_has(bs2, kv) {
            let p = choose|p: (int, int)| slot_in(bs2, p.0, p.1, kv);
            assert(slot_in(bs2, p.0, p.1, kv));
            let o = if p.0 == j && p.1 == i {
                (j, m)
            } else {
                (p.0, p.1)
            };
            assert(bs2[p.0]@[p.1] == bs[o.0]@[o.1]);
            assert(slot_in(bs, o.0, o.1, kv));
            assert(seq_has(bs, kv));
        }
        if seq_has(bs, kv) {
            let p = choose|p: (int, int)| slot_in(bs, p.0, p.1, kv);
            assert(slot_in(bs, p.0, p.1, kv));
            if p.0 != j {
                assert(slot_in(bs2, p.0, p.1, kv));
            } else {
                assert(p.1 != i);
                if p.1 < m {
                    assert(slot_in(bs2, j, p.1, kv));
                } else {
                    assert(p.1 == m);
                    assert(i < m);
                    assert(bs2[j]@[i] == bs[j]@[m]);
                    assert(slot_in(bs2, j, i, kv));
                }
            }
            assert(seq_has(bs2, kv));
        }
    }
    assert forall|kv: K::V| kv != rkv && seq_has(bs, kv) implies #[trigger] seq_val(bs2, kv)
        == seq_val(bs, kv) by {
        let p = choose|p: (int, int)| slot_in(bs, p.0, p.1, kv);
        assert(slot_in(bs, p.0, p.1, kv));
        lemma_slot_unique(bs, p.0, p.1, kv);
        if p.0 != j {
            lemma_slot_unique(bs2, p.0, p.1, kv);
        } else if p.1 < m {
            assert(bs2[j]@[p.1] == (if p.1 == i {
                bs[j]@[m]
            } else {
                bs[j]@[p.1]
            }));
            assert(p.1 != i);
            lemma_slot_unique(bs2, j, p.1, kv);
        } else {
            assert(p.1 == m);
            assert(i < m);
            assert(bs2[j]@[i] == bs[j]@[m]);
            lemma_slot_unique(bs2, j, i, kv);
        }
    }
}

/// Appending a pair whose key is absent to a bucket: how presence, values,
/// uniqueness and placement carry over.
proof fn lemma_bucket_push<K: HashKey, V>(
    bs: Seq<Vec<(K, V)>>,
    bs2: Seq<Vec<(K, V)>>,
    b: int,
    pair: (K, V),
)
    requires
        bs2.len() == bs.len(),
        0 <= b < bs.len(),
        forall|x: int| 0 <= x < bs.len() && x != b ==> bs2[x] == bs[x],
        bs2[b]@ == bs[b]@.push(pair),
        buckets_unique(bs),
        !seq_has(bs, pair.0@),
    ensures
        buckets_unique(bs2),
        forall|n: nat|
            #[trigger] buckets_placed(bs, n) && bucket_of(K::hash_of(pair.0@), n) == b
                ==> buckets_placed(bs2, n),
        seq_has(bs2, pair.0@),
        seq_val(bs2, pair.0@) == pair.1,
        forall|kv: K::V| kv != pair.0@ ==> #[trigger] seq_has(bs2, kv) == seq_has(bs, kv),
        forall|kv: K::V|
            kv != pair.0@ && seq_has(bs, kv) ==> #[trigger] seq_val(bs2, kv) == seq_val(bs, kv),
{
    let nkv = pair.0@;
    let m = bs[b]@.len();
    assert(bs2[b]@.len() == m + 1);
    assert(bs2[b]@[m as int] == pair);
    assert forall|l: int| 0 <= l < m implies bs2[b]@[l] == bs[b]@[l] by {}
    assert forall|b1: int, i1: int, b2: int, i2: int|
        0 <= b1 < bs2.len() && 0 <= i1 < bs2[b1]@.len() && 0 <= b2 < bs2.len() && 0 <= i2
            < bs2[b2]@.len() && (b1 != b2 || i1 != i2) implies bs2[b1]@[i1].0@
        != bs2[b2]@[i2].0@ by {
        if b1 == b && i1 == m {
            assert(slot_in(bs, b2, i2, bs2[b2]@[i2].0@));
            assert(seq_has(bs, bs2[b2]@[i2].0@) ==> bs2[b2]@[i2].0@ != nkv) by {
                if bs2[b2]@[i2].0@ == nkv {
                    assert(slot_in(bs, ((b2, i2)).0, ((b2, i2)).1, nkv));
                }
            }
            assert(slot_in(bs, ((b2, i2)).0, ((b2, i2)).1, bs2[b2]@[i2].0@));
            if bs2[b2]@[i2].0@ == nkv {
                assert(seq_has(bs, nkv));
                assert(false);
            }
        } else if b2 == b && i2 == m {
            if bs2[b1]@[i1].0@ == nkv {
                assert(slot_in(bs, ((b1, i1)).0, ((b1, i1)).1, nkv));
                assert(seq_has(bs, nkv));
                assert(false);
            }
        } else {
            assert(bs2[b1]@[i1] == bs[b1]@[i1]);
            assert(bs2[b2]@[i2] == bs[b2]@[i2]);
        }
    }
    assert forall|n: nat|
        #[trigger] buckets_placed(bs, n) && bucket_of(K::hash_of(nkv), n)
            == b implies buckets_placed(bs2, n) by {
        assert forall|x: int, l: int|
            0 <= x < bs2.len() && 0 <= l < bs2[x]@.len() implies bucket_of(
            K::hash_of(bs2[x]@[l].0@),
            n,
        ) == x by {
            if x == b && l == m {
            } else {
                assert(bs2[x]@[l] == bs[x]@[l]);
            }
        }
    }
    assert(slot_in(bs2, ((b, m as int)).0, ((b, m as int)).1, nkv));
    assert(seq_has(bs2, nkv));
    lemma_slot_unique(bs2, b, m as int, nkv);
    assert forall|kv: K::V| kv != nkv implies #[trigger] seq_has(bs2, kv) == seq_has(bs, kv) by {
        if seq_has(bs2, kv) {
            let p = choose|p: (int, int)| slot_in(bs2, p.0, p.1, kv);
            assert(slot_in(bs2, p.0, p.1, kv));
            assert(!(p.0 == b && p.1 == m));
            assert(bs2[p.0]@[p.1] == bs[p.0]@[p.1]);
            assert(slot_in(bs, p.0, p.1, kv));
            assert(seq_has(bs, kv));
        }
        if seq_has(bs, kv) {
            let p = choose|p: (int, int)| slot_in(bs, p.0, p.1, kv);
            assert(slot_in(bs, p.0, p.1, kv));
            assert(slot_in(bs2, p.0, p.1, kv));
            assert(seq_has(bs2, kv));
        }
    }
    assert forall|kv: K::V| kv != nkv && seq_has(bs, kv) implies #[trigger] seq_val(bs2, kv)
        == seq_val(bs, kv) by {
        let p = choose|p: (int, int)| slot_in(bs, p.0, p.1, kv);
        assert(slot_in(bs, p.0, p.1, kv));
        lemma_slot_unique(bs, p.0, p.1, kv);
        assert(slot_in(bs2, p.0, p.1, kv));
        lemma_slot_unique(bs2, p.0, p.1, kv);
    }
}

/// Replacing the value at one slot, keeping its key: presence is
/// untouched, only that key's stored value changes.
proof fn lemma_bucket_update_value<K: HashKey, V>(
    bs: Seq<Vec<(K, V)>>,
    bs2: Seq<Vec<(K, V)>>,
    b: int,
    i: int,
)
    requires
        bs2.len() == bs.len(),
        0 <= b < bs.len(),
        0 <= i < bs[b]@.len(),
        forall|x: int| 0 <= x < bs.len() && x != b ==> bs2[x] == bs[x],
        bs2[b]@.len() == bs[b]@.len(),
        forall|l: int| 0 <= l < bs[b]@.len() && l != i ==> bs2[b]@[l] == bs[b]@[l],
        bs2[b]@[i].0@ == bs[b]@[i].0@,
        buckets_unique(bs),
    ensures
        buckets_unique(bs2),
        forall|n: nat| #[trigger] buckets_placed(bs, n) ==> buckets_placed(bs2, n),
        seq_has(bs, bs[b]@[i].0@),
        seq_val(bs, bs[b]@[i].0@) == bs[b]@[i].1,
        seq_has(bs2, bs[b]@[i].0@),
        seq_val(bs2, bs[b]@[i].0@) == bs2[b]@[i].1,
        forall|kv: K::V| #[trigger] seq_has(bs2, kv) == seq_has(bs, kv),
        forall|kv: K::V|
            kv != bs[b]@[i].0@ && seq_has(bs, kv) ==> #[trigger] seq_val(bs2, kv) == seq_val(
                bs,
                kv,
            ),
{
    let rkv = bs[b]@[i].0@;
    assert forall|x: int, l: int| 0 <= x < bs.len() && 0 <= l < bs[x]@.len() implies bs2[x]@[l].0@
        == bs[x]@[l].0@ by {
        if x == b && l == i {
        } else if x == b {
            assert(bs2[b]@[l] == bs[b]@[l]);
        } else {
            assert(bs2[x] == bs[x]);
        }
    }
    assert forall|b1: int, i1: int, b2: int, i2: int|
        0 <= b1 < bs2.len() && 0 <= i1 < bs2[b1]@.len() && 0 <= b2 < bs2.len() && 0 <= i2
            < bs2[b2]@.len() && (b1 != b2 || i1 != i2) implies bs2[b1]@[i1].0@
        != bs2[b2]@[i2].0@ by {
        assert(bs2[b1]@[i1].0@ == bs[b1]@[i1].0@);
        assert(bs2[b2]@[i2].0@ == bs[b2]@[i2].0@);
        assert(bs[b1]@[i1].0@ != bs[b2]@[i2].0@);
    }
    assert forall|n: nat| #[trigger] buckets_placed(bs, n) implies buckets_placed(bs2, n) by {
        assert forall|x: int, l: int|
            0 <= x < bs2.len() && 0 <= l < bs2[x]@.len() implies bucket_of(
            K::hash_of(bs2[x]@[l].0@),
            n,
        ) == x by {
            assert(bs2[x]@[l].0@ == bs[x]@[l].0@);
        }
    }
    lemma_slot_unique(bs, b, i, rkv);
    lemma_slot_unique(bs2, b, i, rkv);
    assert forall|kv: K::V| #[trigger] seq_has(bs2, kv) == seq_has(bs, kv) by {
        if seq_has(bs2, kv) {
            let p = choose|p: (int, int)| slot_in(bs2, p.0, p.1, kv);
            assert(slot_in(bs2, p.0, p.1, kv));
            assert(bs[p.0]@[p.1].0@ == kv);
            assert(slot_in(bs, p.0, p.1, kv));
            assert(seq_has(bs, kv));
        }
        if seq_has(bs, kv) {
            let p = choose|p: (int, int)| slot_in(bs, p.0, p.1, kv);
            assert(slot_in(bs, p.0, p.1, kv));
            assert(bs2[p.0]@[p.1].0@ == kv);
            assert(slot_in(bs2, p.0, p.1, kv));
            assert(seq_has(bs2, kv));
        }
    }
    assert forall|kv: K::V| kv != rkv && seq_has(bs, kv) implies #[trigger] seq_val(bs2, kv)
        == seq_val(bs, kv) by {
        let p = choose|p: (int, int)| slot_in(bs, p.0, p.1, kv);
        assert(slot_in(bs, p.0, p.1, kv));
        lemma_slot_unique(bs, p.0, p.1, kv);
        assert(!(p.0 == b && p.1 == i));
        if p.0 == b {
            assert(bs2[b]@[p.1] == bs[b]@[p.1]);
        }
        assert(slot_in(bs2, p.0, p.1, kv));
        assert(bs2[p.0]@[p.1].1 == bs[p.0]@[p.1].1);
        lemma_slot_unique(bs2, p.0, p.1, kv);
    }
}

/// The bucket count after the growth check that precedes an insert: one
/// bucket is allocated for a table with none; the count doubles when the
/// stored pairs exceed three quarters of the buckets and the doubled
/// count still fits in `usize`.
pub open spec fn grown_count(len: nat, n: nat) -> nat {
    if n == 0 {
        1
    } else if len > 3 * n / 4 && 2 * n <= usize::MAX {
        2 * n
    } else {
        n
    }
}

impl<K: HashKey, V> View for Hashmap<K, V> {
    type V = Map<K::V, V>;

    closed spec fn view(&self) -> Map<K::V, V> {
        Map::new(
            |kv: K::V| seq_has(self.buckets@, kv),
            |kv: K::V| seq_val(self.buckets@, kv),
        )
    }
}

impl<K: HashKey, V> Hashmap<K, V> {
    /// The number of stored pairs.
    pub closed spec fn spec_len(self) -> nat {
        self.items as nat
    }

    /// The number of buckets.
    pub closed spec fn num_buckets(self) -> nat {
        self.buckets@.len()
    }

    /// Well-formedness: the item count equals the total of the bucket
    /// lengths, keys are unique, each pair sits in the bucket its key
    /// hashes to, and the bucket count is zero or a power of two.
    pub closed spec fn wf(self) -> bool {
        &&& self.items == flat_len(self.buckets@)
        &&& buckets_unique(self.buckets@)
        &&& buckets_placed(self.buckets@, self.buckets@.len())
        &&& (self.buckets@.len() == 0 || is_pow2(self.buckets@.len()))
    }

    /// Constructs an empty table with no buckets allocated.
    pub fn new() -> (m: Self)
        ensures
            m.wf(),
            m@ == Map::<K::V, V>::empty(),
            m.spec_len() == 0,
            m.num_buckets() == 0,
    {
        let m = Hashmap { buckets: Vec::new(), items: 0 };
        proof {
            assert(m@ =~= Map::<K::V, V>::empty());
        }
        m
    }

    /// The bucket index of a key: its hash masked by the bucket count.
    fn bucket<Q: LookupKey<K>>(&self, key: &Q) -> (b: usize)
        requires
            self.num_buckets() >= 1,
        ensures
            b == bucket_of(K::hash_of(key.lookup_view()), self.num_buckets()),
            b < self.num_buckets(),
    {
        let h = key.lookup_hash();
        let mask = (self.buckets.len() - 1) as u64;
        proof {
            assert(h & mask <= mask) by (bit_vector);
        }
        (h & mask) as usize
    }

    /// Scans a bucket for a pair whose key the lookup key stands for.
    fn find_in_bucket<Q: LookupKey<K>>(bucket: &Vec<(K, V)>, key: &Q) -> (r: Option<usize>)
        ensures
            match r {
                Some(i) => i < bucket@.len() && bucket@[i as int].0@ == key.lookup_view(),
                None => forall|j: int|
                    0 <= j < bucket@.len() ==> bucket@[j].0@ != key.lookup_view(),
            },
    {
        let n = bucket.len();
        let mut i: usize = 0;
        while i < n
            invariant
                i <= n,
                n == bucket@.len(),
                forall|j: int| 0 <= j < i ==> bucket@[j].0@ != key.lookup_view(),
            decreases n - i,
        {
            if key.matches_key(&bucket[i].0) {
                return Some(i);
            }
            i = i + 1;
        }
        None
    }

    /// Allocates the first bucket, or doubles the bucket count when the
    /// load factor exceeds three quarters.
    fn grow_if_needed(&mut self)
        requires
            old(self).wf(),
        ensures
            final(self).wf(),
            final(self)@ == old(self)@,
            final(self).spec_len() == old(self).spec_len(),
            final(self).num_buckets() == grown_count(
                old(self).spec_len(),
                old(self).num_buckets(),
            ),
            final(self).num_buckets() >= 1,
    {
        let n = self.buckets.len();
        if n == 0 {
            self.resize();
        } else {
            let quarter = n / 4;
            let threshold = if n < 4 {
                n / 2
            } else {
                3 * quarter
            };
            proof {
                let nn = n as nat;
                assert(is_pow2(nn));
                if n >= 4 {
                    assert(nn % 2 == 0 && is_pow2(nn / 2));
                    assert((nn / 2) % 2 == 0);
                    assert(nn % 4 == 0);
                    assert(3 * (n / 4) == 3 * n / 4);
                } else {
                    assert(!is_pow2(3nat));
                    assert(n == 1 || n == 2);
                }
                assert(threshold == 3 * n / 4);
            }
            if self.items > threshold {
                if n <= usize::MAX / 2 {
                    self.resize();
                }
            }
        }
    }

    /// Inserts a pair, replacing and returning the value previously
    /// stored under an equal key, if any. The bucket storage is grown
    /// first when the load factor calls for it.
    pub fn insert(&mut self, key: K, value: V) -> (prev: Option<V>)
        requires
            old(self).wf(),
            old(self).spec_len() < usize::MAX,
        ensures
            final(self).wf(),
            final(self)@ == old(self)@.insert(key@, value),
            final(self).num_buckets() == grown_count(
                old(self).spec_len(),
                old(self).num_buckets(),
            ),
            match prev {
                Some(p) => old(self)@.contains_key(key@) && p == old(self)@[key@]
                    && final(self).spec_len() == old(self).spec_len(),
                None => !old(self)@.contains_key(key@)
                    && final(self).spec_len() == old(self).spec_len() + 1,
            },
    {
        self.grow_if_needed();
        let ghost kv = key@;
        let ghost vv = value;
        let b = self.bucket(&key);
        let ghost bs0 = self.buckets@;
        match Self::find_in_bucket(&self.buckets[b], &key) {
            Some(i) => {
                let mut previous = value;
                core::mem::swap(&mut self.buckets[b][i].1, &mut previous);
                proof {
                    lemma_bucket_update_value(bs0, self.buckets@, b as int, i as int);
                    lemma_flat_len_update(bs0, b as int, self.buckets@[b as int]);
                    assert(self@ =~= old(self)@.insert(kv, vv));
                }
                Some(previous)
            },
            None => {
                proof {
                    lemma_absent::<K, V>(bs0, kv);
                }
                self.items = self.items + 1;
                let ghost bs1 = self.buckets@;
                self.buckets[b].push((key, value));
                proof {
                    let npair = self.buckets@[b as int]@.last();
                    assert(self.buckets@[b as int]@ =~= bs1[b as int]@.push(npair));
                    lemma_bucket_push(bs1, self.buckets@, b as int, npair);
                    lemma_flat_len_update(bs1, b as int, self.buckets@[b as int]);
                    assert(self@ =~= old(self)@.insert(kv, vv));
                }
                None
            },
        }
    }

    /// Looks up the value stored under a key, or a key-equivalent
    /// lookup value.
    pub fn get<'a, Q: LookupKey<K>>(&'a self, key: &Q) -> (r: Option<&'a V>)
        requires
            self.wf(),
        ensures
            match r {
                Some(v) => self@.contains_key(key.lookup_view()) && *v == self@[key.lookup_view()],
                None => !self@.contains_key(key.lookup_view()),
            },
    {
        if self.buckets.is_empty() {
            return None;
        }
        let b = self.bucket(key);
        let ghost kv = key.lookup_view();
        match Self::find_in_bucket(&self.buckets[b], key) {
            Some(i) => {
                proof {
                    lemma_slot_unique(self.buckets@, b as int, i as int, kv);
                }
                let bucket = &self.buckets[b];
                Some(&bucket[i].1)
            },
            None => {
                proof {
                    lemma_absent::<K, V>(self.buckets@, kv);
                }
                None
            },
        }
    }

    /// Reports whether a key is present.
    pub fn contains_key<Q: LookupKey<K>>(&self, key: &Q) -> (r: bool)
        requires
            self.wf(),
        ensures
            r == self@.contains_key(key.lookup_view()),
    {
        match self.get(key) {
            Some(_) => true,
            None => false,
        }
    }

    /// Grows the bucket storage to one bucket when there is none, else to
    /// double the count, and rehashes every stored pair into its new
    /// bucket. The stored pairs are unchanged.
    pub fn resize(&mut self)
        requires
            old(self).wf(),
            2 * old(self).num_buckets() <= usize::MAX,
        ensures
            final(self).wf(),
            final(self)@ == old(self)@,
            final(self).spec_len() == old(self).spec_len(),
            final(self).num_buckets() == if old(self).num_buckets() == 0 {
                1nat
            } else {
                2 * old(self).num_buckets()
            },
    {
        let ghost n0 = old(self).num_buckets();
        let n = self.buckets.len();
        let target: usize = if n == 0 {
            1
        } else {
            2 * n
        };
        let mut new_buckets: Vec<Vec<(K, V)>> = Vec::new();
        while new_buckets.len() < target
            invariant
                new_buckets@.len() <= target,
                forall|x: int| 0 <= x < new_buckets@.len() ==> new_buckets@[x]@.len() == 0,
            decreases target - new_buckets@.len(),
        {
            new_buckets.push(Vec::new());
        }
        proof {
            lemma_flat_len_empty(new_buckets@);
            assert forall|kv: K::V| !seq_has(new_buckets@, kv) by {
                if seq_has(new_buckets@, kv) {
                    let p = choose|p: (int, int)| slot_in(new_buckets@, p.0, p.1, kv);
                    assert(slot_in(new_buckets@, p.0, p.1, kv));
                }
            }
            assert forall|kv: K::V| #[trigger]
                old(self)@.contains_key(kv) == seq_has(self.buckets@, kv) by {}
        }
        let mask = (target - 1) as u64;
        let mut j: usize = 0;
        while j < n
            invariant
                old(self).wf(),
                n == self.buckets@.len() == n0,
                j <= n,
                target == if n0 == 0 {
                    1nat
                } else {
                    2 * n0
                },
                target <= usize::MAX,
                mask == (target - 1) as u64,
                self.items == old(self).items,
                new_buckets@.len() == target,
                buckets_unique(self.buckets@),
                buckets_unique(new_buckets@),
                buckets_placed(new_buckets@, target as nat),
                flat_len(self.buckets@) + flat_len(new_buckets@) == old(self).spec_len(),
                forall|x: int| 0 <= x < j ==> self.buckets@[x]@.len() == 0,
                forall|kv: K::V|
                    !(#[trigger] seq_has(self.buckets@, kv) && seq_has(new_buckets@, kv)),
                forall|kv: K::V| #![trigger old(self)@.contains_key(kv)]
                    (seq_has(self.buckets@, kv) || seq_has(new_buckets@, kv)) == old(
                        self,
                    )@.contains_key(kv),
                forall|kv: K::V| #[trigger]
                    seq_has(self.buckets@, kv) ==> seq_val(self.buckets@, kv) == old(self)@[kv],
                forall|kv: K::V| #[trigger]
                    seq_has(new_buckets@, kv) ==> seq_val(new_buckets@, kv) == old(self)@[kv],
            decreases n - j,
        {
            while self.buckets[j].len() > 0
                invariant
                    old(self).wf(),
                    n == self.buckets@.len() == n0,
                    j < n,
                    target == if n0 == 0 {
                        1nat
                    } else {
                        2 * n0
                    },
                    target <= usize::MAX,
                    mask == (target - 1) as u64,
                    self.items == old(self).items,
                    new_buckets@.len() == target,
                    buckets_unique(self.buckets@),
                    buckets_unique(new_buckets@),
                    buckets_placed(new_buckets@, target as nat),
                    flat_len(self.buckets@) + flat_len(new_buckets@) == old(self).spec_len(),
                    forall|x: int| 0 <= x < j ==> self.buckets@[x]@.len() == 0,
                    forall|kv: K::V|
                        !(#[trigger] seq_has(self.buckets@, kv) && seq_has(new_buckets@, kv)),
                    forall|kv: K::V| #![trigger old(self)@.contains_key(kv)]
                        (seq_has(self.buckets@, kv) || seq_has(new_buckets@, kv)) == old(
                            self,
                        )@.contains_key(kv),
                    forall|kv: K::V| #[trigger]
                        seq_has(self.buckets@, kv) ==> seq_val(self.buckets@, kv) == old(self)@[kv],
                    forall|kv: K::V| #[trigger]
                        seq_has(new_buckets@, kv) ==> seq_val(new_buckets@, kv) == old(self)@[kv],
                decreases self.buckets@[j as int]@.len(),
            {
                let ghost bs0 = self.buckets@;
                let ghost nb0 = new_buckets@;
                let ghost m = bs0[j as int]@.len() - 1;
                let pair = self.buckets[j].pop().unwrap();
                let ghost kv = pair.0@;
                proof {
                    assert(self.buckets@[j as int]@ =~= bs0[j as int]@.update(
                        m,
                        bs0[j as int]@.last(),
                    ).drop_last());
                    lemma_bucket_remove(bs0, self.buckets@, j as int, m);
                    lemma_flat_len_update(bs0, j as int, self.buckets@[j as int]);
                }
                let h = pair.0.hash_code();
                proof {
                    assert(h & mask <= mask) by (bit_vector);
                }
                let b = (h & mask) as usize;
                proof {
                    assert(bucket_of(K::hash_of(kv), target as nat) == b);
                    assert(!seq_has(new_buckets@, kv));
                }
                let ghost bs1 = self.buckets@;
                new_buckets[b].push(pair);
                proof {
                    assert(new_buckets@[b as int]@ =~= nb0[b as int]@.push(pair));
                    lemma_bucket_push(nb0, new_buckets@, b as int, pair);
                    lemma_flat_len_update(nb0, b as int, new_buckets@[b as int]);
                    assert forall|kv2: K::V|
                        !(#[trigger] seq_has(self.buckets@, kv2) && seq_has(
                            new_buckets@,
                            kv2,
                        )) by {
                        if kv2 != kv {
                            assert(seq_has(bs1, kv2) == seq_has(bs0, kv2));
                        }
                    }
                    assert forall|kv2: K::V| #![trigger old(self)@.contains_key(kv2)]
                        (seq_has(self.buckets@, kv2) || seq_has(new_buckets@, kv2)) == old(
                            self,
                        )@.contains_key(kv2) by {
                        if kv2 == kv {
                            assert(seq_has(new_buckets@, kv2));
                            assert(seq_has(bs0, kv2));
                        } else {
                            assert(seq_has(self.buckets@, kv2) == seq_has(bs0, kv2));
                            assert(seq_has(new_buckets@, kv2) == seq_has(nb0, kv2));
                        }
                    }
                    assert forall|kv2: K::V| #[trigger]
                        seq_has(self.buckets@, kv2) implies seq_val(self.buckets@, kv2) == old(
                        self,
                    )@[kv2] by {
                        assert(kv2 != kv);
                        assert(seq_has(bs0, kv2));
                        assert(seq_val(self.buckets@, kv2) == seq_val(bs0, kv2));
                    }
                    assert forall|kv2: K::V| #[trigger]
                        seq_has(new_buckets@, kv2) implies seq_val(new_buckets@, kv2) == old(
                        self,
                    )@[kv2] by {
                        if kv2 == kv {
                            assert(seq_val(new_buckets@, kv2) == pair.1);
                            assert(seq_has(bs0, kv2));
                            assert(seq_val(bs0, kv2) == bs0[j as int]@[m].1);
                            assert(old(self)@[kv2] == seq_val(bs0, kv2));
                        } else {
                            assert(seq_has(nb0, kv2));
                            assert(seq_val(new_buckets@, kv2) == seq_val(nb0, kv2));
                        }
                    }
                }
            }
            j = j + 1;
        }
        proof {
            assert forall|kv: K::V| !seq_has(self.buckets@, kv) by {
                if seq_has(self.buckets@, kv) {
                    let p = choose|p: (int, int)| slot_in(self.buckets@, p.0, p.1, kv);
                    assert(slot_in(self.buckets@, p.0, p.1, kv));
                }
            }
            lemma_flat_len_empty(self.buckets@);
        }
        self.buckets = new_buckets;
        proof {
            assert(is_pow2(target as nat)) by {
                if n0 == 0 {
                    assert(is_pow2(1));
                } else {
                    assert(target == 2 * n0);
                    assert((2 * n0) % 2 == 0);
                    assert((2 * n0) / 2 == n0);
                    assert(is_pow2(n0));
                }
            }
            assert(final(self)@ =~= old(self)@);
        }
    }

    /// Removes the pair stored under a key, or a key-equivalent lookup
    /// value, and returns its value. The freed slot is filled by the
    /// bucket's last pair, so in-bucket order is not preserved.
    pub fn remove<Q: LookupKey<K>>(&mut self, key: &Q) -> (removed: Option<V>)
        requires
            old(self).wf(),
        ensures
            final(self).wf(),
            final(self)@ == old(self)@.remove(key.lookup_view()),
            final(self).num_buckets() == old(self).num_buckets(),
            match removed {
                Some(v) => old(self)@.contains_key(key.lookup_view()) && v == old(
                    self,
                )@[key.lookup_view()] && final(self).spec_len() + 1 == old(self).spec_len(),
                None => !old(self)@.contains_key(key.lookup_view()) && final(self).spec_len()
                    == old(self).spec_len(),
            },
    {
        let ghost kv = key.lookup_view();
        if self.buckets.is_empty() {
            proof {
                assert(!seq_has(self.buckets@, kv)) by {
                    if seq_has(self.buckets@, kv) {
                        let p = choose|p: (int, int)| slot_in(self.buckets@, p.0, p.1, kv);
                        assert(slot_in(self.buckets@, p.0, p.1, kv));
                    }
                }
                assert(self@ =~= old(self)@.remove(kv));
            }
            return None;
        }
        let b = self.bucket(key);
        let ghost bs0 = self.buckets@;
        match Self::find_in_bucket(&self.buckets[b], key) {
            Some(i) => {
                let pair = self.buckets[b].swap_remove(i);
                proof {
                    lemma_bucket_remove(bs0, self.buckets@, b as int, i as int);
                    lemma_flat_len_update(bs0, b as int, self.buckets@[b as int]);
                    lemma_flat_len_bucket(bs0, b as int);
                }
                self.items = self.items - 1;
                proof {
                    assert(self@ =~= old(self)@.remove(kv));
                }
                Some(pair.1)
            },
            None => {
                proof {
                    lemma_absent::<K, V>(bs0, kv);
                    assert(self@ =~= old(self)@.remove(kv));
                }
                None
            },
        }
    }

    /// Reports whether the table holds no pairs.
    pub fn is_empty(&self) -> (e: bool)
        ensures
            e == (self.spec_len() == 0),
    {
        self.items == 0
    }

    /// The number of stored pairs.
    pub fn len(&self) -> (n: usize)
        ensures
            n == self.spec_len(),
    {
        self.items
    }
}

/// The stored pairs in traversal order: bucket by bucket, in-bucket
/// position by position.
spec fn flat_of<K: HashKey, V>(bs: Seq<Vec<(K, V)>>) -> Seq<(K, V)>
    decreases bs.len(),
{
    if bs.len() == 0 {
        Seq::empty()
    } else {
        flat_of(bs.drop_last()) + bs.last()@
    }
}

/// The traversal sequence is as long as the pair total.
proof fn lemma_flat_of_len<K: HashKey, V>(bs: Seq<Vec<(K, V)>>)
    ensures
        flat_of(bs).len() == flat_len(bs),
    decreases bs.len(),
{
    if bs.len() > 0 {
        lemma_flat_of_len(bs.drop_last());
    }
}

/// A slot's pair sits in the traversal sequence at the position given by
/// the pair totals of the buckets before it.
proof fn lemma_flat_pos<K: HashKey, V>(bs: Seq<Vec<(K, V)>>, b: int, i: int)
    requires
        0 <= b < bs.len(),
        0 <= i < bs[b]@.len(),
    ensures
        flat_len(bs.take(b)) + i < flat_len(bs),
        flat_of(bs)[flat_len(bs.take(b)) + i] == bs[b]@[i],
    decreases bs.len(),
{
    lemma_flat_of_len(bs);
    if b == bs.len() - 1 {
        assert(bs.take(b) =~= bs.drop_last());
        lemma_flat_of_len(bs.drop_last());
        assert(flat_of(bs)[flat_len(bs.take(b)) + i] == bs.last()@[i]);
    } else {
        lemma_flat_pos(bs.drop_last(), b, i);
        assert(bs.drop_last().take(b) =~= bs.take(b));
        assert(bs.drop_last()[b] == bs[b]);
        lemma_flat_of_len(bs.drop_last());
        assert(flat_len(bs.drop_last().take(b)) + i < flat_len(bs.drop_last()));
        assert(flat_of(bs)[flat_len(bs.take(b)) + i] == flat_of(bs.drop_last())[flat_len(
            bs.drop_last().take(b),
        ) + i]);
    }
}

/// The slot `s` is the source of traversal position `p`.
spec fn slot_at<K: HashKey, V>(bs: Seq<Vec<(K, V)>>, p: int, s: (int, int)) -> bool {
    &&& 0 <= s.0 < bs.len()
    &&& 0 <= s.1 < bs[s.0]@.len()
    &&& flat_len(bs.take(s.0)) + s.1 == p
    &&& flat_of(bs)[p] == bs[s.0]@[s.1]
}

/// Every traversal position comes from a slot.
proof fn lemma_flat_at<K: HashKey, V>(bs: Seq<Vec<(K, V)>>, p: int)
    requires
        0 <= p < flat_len(bs),
    ensures
        exists|s: (int, int)| slot_at(bs, p, s),
    decreases bs.len(),
{
    lemma_flat_of_len(bs);
    if bs.len() == 0 {
    } else if p < flat_len(bs.drop_last()) {
        lemma_flat_at(bs.drop_last(), p);
        let s = choose|s: (int, int)| slot_at(bs.drop_last(), p, s);
        assert(slot_at(bs.drop_last(), p, s));
        assert(bs.drop_last().take(s.0) =~= bs.take(s.0));
        assert(bs.drop_last()[s.0] == bs[s.0]);
        lemma_flat_of_len(bs.drop_last());
        assert(flat_of(bs)[p] == flat_of(bs.drop_last())[p]);
        assert(slot_at(bs, p, s));
    } else {
        let b = bs.len() - 1;
        let i = p - flat_len(bs.drop_last());
        assert(bs.take(b) =~= bs.drop_last());
        lemma_flat_of_len(bs.drop_last());
        assert(0 <= i < bs[b]@.len());
        assert(flat_of(bs)[p] == bs.last()@[i]);
        assert(slot_at(bs, p, (b, i)));
    }
}

/// The pair totals of bucket prefixes grow bucket by bucket.
proof fn lemma_flat_take_step<K: HashKey, V>(bs: Seq<Vec<(K, V)>>, b: int)
    requires
        0 <= b < bs.len(),
    ensures
        flat_len(bs.take(b + 1)) == flat_len(bs.take(b)) + bs[b]@.len(),
{
    assert(bs.take(b + 1).drop_last() =~= bs.take(b));
    assert(bs.take(b + 1).last() == bs[b]);
}

/// A handle for an existing slot: the bucket and position of the pair,
/// with the pair's abstract key carried as ghost state.
pub struct OccupiedEntry<K: HashKey> {
    bucket: usize,
    index: usize,
    key: Ghost<K::V>,
}

/// A handle for a not-yet-inserted key: the target bucket and the owned
/// key, held until the caller decides to insert.
pub struct VacantEntry<K: HashKey> {
    bucket: usize,
    key: K,
}

/// The slot a key occupies, or would occupy, in a table.
pub enum Entry<K: HashKey> {
    Occupied(OccupiedEntry<K>),
    Vacant(VacantEntry<K>),
}

impl<K: HashKey> Entry<K> {
    /// The abstract key this entry was drawn for.
    pub closed spec fn key_view(self) -> K::V {
        match self {
            Entry::Occupied(o) => o.key@,
            Entry::Vacant(v) => v.key@,
        }
    }
}

impl<K: HashKey, V> Hashmap<K, V> {
    /// The entry describes this table's current state for its key: an
    /// occupied handle names the slot holding the key, a vacant handle
    /// names the key's bucket and the key is absent. A handle is good
    /// only for the table state it was drawn from.
    pub closed spec fn entry_fits(self, e: Entry<K>) -> bool {
        match e {
            Entry::Occupied(o) => {
                &&& o.bucket < self.buckets@.len()
                &&& o.index < self.buckets@[o.bucket as int]@.len()
                &&& self.buckets@[o.bucket as int]@[o.index as int].0@ == o.key@
            },
            Entry::Vacant(v) => {
                &&& self.buckets@.len() >= 1
                &&& v.bucket < self.buckets@.len()
                &&& v.bucket as int == bucket_of(K::hash_of(v.key@), self.buckets@.len())
                &&& !seq_has(self.buckets@, v.key@)
            },
        }
    }

    /// Draws the entry for a key, growing the bucket storage first as an
    /// insert would. The key is consumed; an occupied handle discards it,
    /// a vacant handle carries it for a later insert.
    pub fn entry(&mut self, key: K) -> (e: Entry<K>)
        requires
            old(self).wf(),
        ensures
            final(self).wf(),
            final(self)@ == old(self)@,
            final(self).spec_len() == old(self).spec_len(),
            final(self).num_buckets() == grown_count(
                old(self).spec_len(),
                old(self).num_buckets(),
            ),
            e.key_view() == key@,
            e is Occupied <==> old(self)@.contains_key(key@),
            final(self).entry_fits(e),
    {
        self.grow_if_needed();
        let b = self.bucket(&key);
        match Self::find_in_bucket(&self.buckets[b], &key) {
            Some(i) => {
                proof {
                    lemma_slot_unique(self.buckets@, b as int, i as int, key@);
                }
                Entry::Occupied(OccupiedEntry { bucket: b, index: i, key: Ghost(key@) })
            },
            None => {
                proof {
                    lemma_absent::<K, V>(self.buckets@, key@);
                }
                Entry::Vacant(VacantEntry { bucket: b, key })
            },
        }
    }
}

impl<K: HashKey> VacantEntry<K> {
    /// Inserts a value under the pending key into the table the entry
    /// was drawn from, and returns a reference to the stored value.
    pub fn insert<'a, V>(self, map: &'a mut Hashmap<K, V>, value: V) -> (r: &'a V)
        requires
            old(map).wf(),
            old(map).entry_fits(Entry::Vacant(self)),
            old(map).spec_len() < usize::MAX,
        ensures
            final(map).wf(),
            final(map)@ == old(map)@.insert(Entry::Vacant(self).key_view(), value),
            final(map).spec_len() == old(map).spec_len() + 1,
            final(map).num_buckets() == old(map).num_buckets(),
            *r == value,
    {
        let ghost kv = self.key@;
        let ghost vv = value;
        let b = self.bucket;
        let ghost bs1 = map.buckets@;
        map.items = map.items + 1;
        map.buckets[b].push((self.key, value));
        proof {
            let npair = map.buckets@[b as int]@.last();
            assert(map.buckets@[b as int]@ =~= bs1[b as int]@.push(npair));
            lemma_bucket_push(bs1, map.buckets@, b as int, npair);
            lemma_flat_len_update(bs1, b as int, map.buckets@[b as int]);
            assert(map@ =~= old(map)@.insert(kv, vv));
        }
        let bucket_ref = &map.buckets[b];
        let last = bucket_ref.len() - 1;
        &bucket_ref[last].1
    }
}

impl<K: HashKey> Entry<K> {
    /// Returns a reference to the value already stored under the entry's
    /// key, leaving the table unchanged; or, for a vacant entry, inserts
    /// the given default and returns a reference to it.
    pub fn insert_or<'a, V>(self, map: &'a mut Hashmap<K, V>, default: V) -> (r: &'a V)
        requires
            old(map).wf(),
            old(map).entry_fits(self),
            old(map).spec_len() < usize::MAX,
        ensures
            final(map).wf(),
            final(map).num_buckets() == old(map).num_buckets(),
            final(map)@ == old(map)@.insert(self.key_view(), *r),
            old(map)@.contains_key(self.key_view()) ==> final(map)@ == old(map)@ && *r == old(
                map,
            )@[self.key_view()] && final(map).spec_len() == old(map).spec_len(),
            !old(map)@.contains_key(self.key_view()) ==> *r == default && final(map).spec_len()
                == old(map).spec_len() + 1,
    {
        match self {
            Entry::Occupied(o) => {
                proof {
                    lemma_slot_unique(map.buckets@, o.bucket as int, o.index as int, o.key@);
                    assert(map@ =~= map@.insert(o.key@, map@[o.key@]));
                }
                let bucket_ref = &map.buckets[o.bucket];
                &bucket_ref[o.index].1
            },
            Entry::Vacant(v) => v.insert(map, default),
        }
    }

    /// Like `insert_or`, with the value type's default construction
    /// supplying the value inserted on the vacant path.
    pub fn or_default<'a, V: Default>(self, map: &'a mut Hashmap<K, V>) -> (r: &'a V)
        requires
            old(map).wf(),
            old(map).entry_fits(self),
            old(map).spec_len() < usize::MAX,
        ensures
            final(map).wf(),
            final(map).num_buckets() == old(map).num_buckets(),
            final(map)@ == old(map)@.insert(self.key_view(), *r),
            old(map)@.contains_key(self.key_view()) ==> final(map)@ == old(map)@ && *r == old(
                map,
            )@[self.key_view()] && final(map).spec_len() == old(map).spec_len(),
            !old(map)@.contains_key(self.key_view()) ==> final(map).spec_len() == old(
                map,
            ).spec_len() + 1 && call_ensures(V::default, (), *r),
    {
        let default = V::default();
        self.insert_or(map, default)
    }
}

/// A read-only traversal cursor over a table: the current bucket and the
/// current position within it. Valid only while the table is not mutated.
pub struct Iter<'a, K: HashKey, V> {
    map: &'a Hashmap<K, V>,
    current_bucket: usize,
    current_item: usize,
}

impl<K: HashKey, V> Hashmap<K, V> {
    /// The stored pairs in traversal order: bucket order, then in-bucket
    /// order.
    pub closed spec fn entries(self) -> Seq<(K, V)> {
        flat_of(self.buckets@)
    }

    /// The traversal sequence of a well-formed table is complete: it is
    /// as long as `len()` reports, no two of its pairs share a key, each
    /// of its pairs is stored in the table with that key and value, and
    /// every stored key appears in it.
    pub proof fn lemma_entries_complete(self)
        requires
            self.wf(),
        ensures
            self.entries().len() == self.spec_len(),
            forall|p: int, q: int|
                0 <= p < q < self.entries().len() ==> self.entries()[p].0@ != self.entries()[q].0@,
            forall|p: int|
                0 <= p < self.entries().len() ==> self@.contains_key(#[trigger] self.entries()[p].0@)
                    && self@[self.entries()[p].0@] == self.entries()[p].1,
            forall|kv: K::V|
                self@.contains_key(kv) ==> exists|p: int|
                    0 <= p < self.entries().len() && #[trigger] self.entries()[p].0@ == kv,
    {
        let bs = self.buckets@;
        lemma_flat_of_len(bs);
        assert forall|p: int, q: int|
            0 <= p < q < self.entries().len() implies self.entries()[p].0@ != self.entries()[q].0@ by {
            lemma_flat_at(bs, p);
            lemma_flat_at(bs, q);
            let sp = choose|s: (int, int)| slot_at(bs, p, s);
            let sq = choose|s: (int, int)| slot_at(bs, q, s);
            assert(slot_at(bs, p, sp));
            assert(slot_at(bs, q, sq));
            if sp == sq {
                assert(false);
            }
            assert(bs[sp.0]@[sp.1].0@ != bs[sq.0]@[sq.1].0@);
        }
        assert forall|p: int| 0 <= p < self.entries().len() implies self@.contains_key(
            #[trigger] self.entries()[p].0@,
        ) && self@[self.entries()[p].0@] == self.entries()[p].1 by {
            lemma_flat_at(bs, p);
            let s = choose|s: (int, int)| slot_at(bs, p, s);
            assert(slot_at(bs, p, s));
            lemma_slot_unique(bs, s.0, s.1, self.entries()[p].0@);
        }
        assert forall|kv: K::V| self@.contains_key(kv) implies exists|p: int|
            0 <= p < self.entries().len() && #[trigger] self.entries()[p].0@ == kv by {
            let s = choose|s: (int, int)| slot_in(bs, s.0, s.1, kv);
            assert(slot_in(bs, s.0, s.1, kv));
            lemma_flat_pos(bs, s.0, s.1);
            let p = flat_len(bs.take(s.0)) + s.1;
            assert(0 <= p < self.entries().len() && self.entries()[p].0@ == kv);
        }
    }

    /// `len()` counts keys: in a well-formed table the item count is the
    /// number of keys in the abstract map, which is finite.
    pub proof fn lemma_len_is_key_count(self)
        requires
            self.wf(),
        ensures
            self@.dom().finite(),
            self.spec_len() == self@.dom().len(),
    {
        self.lemma_entries_complete();
        let keys = self.entries().map_values(|p: (K, V)| p.0@);
        assert(keys.no_duplicates()) by {
            assert forall|p: int, q: int| 0 <= p < keys.len() && 0 <= q < keys.len() && p
                != q implies keys[p] != keys[q] by {
                assert(keys[p] == self.entries()[p].0@);
                assert(keys[q] == self.entries()[q].0@);
            }
        }
        keys.unique_seq_to_set();
        assert(keys.to_set() =~= self@.dom()) by {
            assert forall|kv: K::V| keys.to_set().contains(kv) implies self@.dom().contains(
                kv,
            ) by {
                let p = choose|p: int| 0 <= p < keys.len() && keys[p] == kv;
                assert(self.entries()[p].0@ == kv);
            }
            assert forall|kv: K::V| self@.dom().contains(kv) implies keys.to_set().contains(
                kv,
            ) by {
                let p = choose|p: int|
                    0 <= p < self.entries().len() && #[trigger] self.entries()[p].0@ == kv;
                assert(keys[p] == kv);
                assert(keys.contains(kv));
            }
        }
    }

    /// Round trip: an inserted key is stored with the inserted value,
    /// and stays so while other keys are inserted or removed; only
    /// overwriting or removing the key itself changes what it maps to.
    pub proof fn lemma_insert_round_trip(m: Map<K::V, V>, kv: K::V, v: V, other: K::V, w: V)
        ensures
            m.insert(kv, v).contains_key(kv),
            m.insert(kv, v)[kv] == v,
            other != kv ==> m.insert(kv, v).remove(other).contains_key(kv) && m.insert(
                kv,
                v,
            ).remove(other)[kv] == v,
            other != kv ==> m.insert(kv, v).insert(other, w).contains_key(kv) && m.insert(
                kv,
                v,
            ).insert(other, w)[kv] == v,
    {
    }

    /// Starts a traversal at the first bucket.
    pub fn iter<'a>(&'a self) -> (it: Iter<'a, K, V>)
        requires
            self.wf(),
        ensures
            it.wf(),
            it.table() == *self,
            it.pos() == 0,
    {
        Iter::new(self)
    }
}

impl<'a, K: HashKey, V> Iter<'a, K, V> {
    /// The table under traversal.
    pub closed spec fn table(self) -> Hashmap<K, V> {
        *self.map
    }

    /// How many pairs the cursor has yielded: its position in the
    /// table's traversal sequence.
    pub closed spec fn pos(self) -> int {
        flat_len(self.map.buckets@.take(self.current_bucket as int)) + self.current_item
    }

    /// Well-formedness: the table is well-formed and the cursor sits in
    /// a bucket, at the end of a bucket, or past the last bucket.
    pub closed spec fn wf(self) -> bool {
        &&& self.map.wf()
        &&& self.current_bucket <= self.map.buckets@.len()
        &&& (self.current_bucket < self.map.buckets@.len() ==> self.current_item
            <= self.map.buckets@[self.current_bucket as int]@.len())
        &&& (self.current_bucket == self.map.buckets@.len() ==> self.current_item == 0)
    }

    /// Starts a traversal of the given table at the first bucket.
    pub fn new(map: &'a Hashmap<K, V>) -> (it: Self)
        requires
            map.wf(),
        ensures
            it.wf(),
            it.table() == *map,
            it.pos() == 0,
    {
        let it = Iter { map, current_bucket: 0, current_item: 0 };
        proof {
            assert(map.buckets@.take(0) =~= Seq::empty());
        }
        it
    }

    /// Yields the next stored pair in traversal order, or nothing once
    /// every pair has been yielded.
    pub fn next(&mut self) -> (r: Option<(&'a K, &'a V)>)
        requires
            old(self).wf(),
        ensures
            final(self).wf(),
            final(self).table() == old(self).table(),
            match r {
                Some(p) => {
                    &&& 0 <= old(self).pos() < old(self).table().entries().len()
                    &&& *p.0 == old(self).table().entries()[old(self).pos()].0
                    &&& *p.1 == old(self).table().entries()[old(self).pos()].1
                    &&& final(self).pos() == old(self).pos() + 1
                },
                None => {
                    &&& old(self).pos() == old(self).table().entries().len()
                    &&& final(self).pos() == old(self).pos()
                },
            },
    {
        let m = self.map;
        proof {
            lemma_flat_of_len(m.buckets@);
        }
        loop
            invariant
                self.wf(),
                self.map == m,
                self.pos() == old(self).pos(),
                m == old(self).map,
            decreases m.buckets@.len() - self.current_bucket,
        {
            let b = self.current_bucket;
            if b >= m.buckets.len() {
                proof {
                    assert(m.buckets@.take(m.buckets@.len() as int) =~= m.buckets@);
                    lemma_flat_of_len(m.buckets@);
                }
                return None;
            }
            let bucket = &m.buckets[b];
            let i = self.current_item;
            if i < bucket.len() {
                proof {
                    lemma_flat_pos(m.buckets@, b as int, i as int);
                    lemma_flat_of_len(m.buckets@);
                }
                self.current_item = i + 1;
                return Some((&bucket[i].0, &bucket[i].1));
            }
            proof {
                lemma_flat_take_step(m.buckets@, b as int);
            }
            self.current_bucket = b + 1;
            self.current_item = 0;
        }
    }
}

impl<K: HashKey, V> Default for Hashmap<K, V> {
    /// An empty table, as `new` builds it.
    fn default() -> (m: Self)
        ensures
            m.wf(),
            m@ == Map::<K::V, V>::empty(),
            m.spec_len() == 0,
            m.num_buckets() == 0,
    {
        Self::new()
    }
}

} // verus!
