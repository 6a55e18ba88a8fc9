//! Grouping a sequence of keyed items into buckets, one bucket per distinct
//! key, keys in order of first occurrence and members in encounter order.
//! Every exact-duplicate strategy is built on this partition.

use vstd::prelude::*;
use vstd::multiset::Multiset;
use vstd::seq_lib::lemma_multiset_commutative;
use vstd::seq_lib::lemma_flatten_concat;

verus! {

/// The distinct values of `keys`, in order of first occurrence.
pub open spec fn distinct_keys<K>(keys: Seq<K>) -> Seq<K>
    decreases keys.len(),
{
    if keys.len() == 0 {
        Seq::empty()
    } else {
        let d = distinct_keys(keys.drop_last());
        if d.contains(keys.last()) {
            d
        } else {
            d.push(keys.last())
        }
    }
}

/// The indices at which `keys` holds `k`, in increasing order.
pub open spec fn key_indices<K>(keys: Seq<K>, k: K) -> Seq<int>
    decreases keys.len(),
{
    if keys.len() == 0 {
        Seq::empty()
    } else {
        let p = key_indices(keys.drop_last(), k);
        if keys.last() == k {
            p.push(keys.len() - 1)
        } else {
            p
        }
    }
}

/// One index bucket per distinct key, buckets in first-occurrence order of
/// their keys.
pub open spec fn index_groups<K>(keys: Seq<K>) -> Seq<Seq<int>> {
    distinct_keys(keys).map_values(|k: K| key_indices(keys, k))
}

/// A vector of index vectors, seen as a sequence of integer sequences.
pub open spec fn groups_view(gs: Seq<Vec<usize>>) -> Seq<Seq<int>> {
    gs.map_values(|g: Vec<usize>| g@.map_values(|u: usize| u as int))
}

/// The distinct keys are exactly the values occurring in `keys`.
pub proof fn lemma_distinct_keys_contains<K>(keys: Seq<K>, x: K)
    ensures
        distinct_keys(keys).contains(x) <==> keys.contains(x),
    decreases keys.len(),
{
    if keys.len() > 0 {
        let kp = keys.drop_last();
        lemma_distinct_keys_contains(kp, x);
        let d = distinct_keys(kp);
        if keys.contains(x) {
            if keys.last() == x {
                if !d.contains(x) {
                    assert(distinct_keys(keys) == d.push(x));
                    assert(distinct_keys(keys)[d.len() as int] == x);
                    assert(distinct_keys(keys).contains(x));
                }
            } else {
                let i = choose|i: int| 0 <= i < keys.len() && keys[i] == x;
                assert(kp[i] == x);
                assert(kp.contains(x));
                assert(d.contains(x));
                if !d.contains(keys.last()) {
                    let j = choose|j: int| 0 <= j < d.len() && d[j] == x;
                    assert(distinct_keys(keys)[j] == x);
                }
            }
        }
        if distinct_keys(keys).contains(x) {
            let j = choose|j: int|
                0 <= j < distinct_keys(keys).len() && distinct_keys(keys)[j] == x;
            if d.contains(keys.last()) {
                assert(d[j] == x);
                assert(kp.contains(x));
                let i = choose|i: int| 0 <= i < kp.len() && kp[i] == x;
                assert(keys[i] == x);
            } else {
                if j < d.len() {
                    assert(d[j] == x);
                    assert(kp.contains(x));
                    let i = choose|i: int| 0 <= i < kp.len() && kp[i] == x;
                    assert(keys[i] == x);
                } else {
                    assert(x == keys.last());
                    assert(keys[keys.len() - 1] == x);
                }
            }
        }
    }
}

/// The distinct keys hold no repeated value.
pub proof fn lemma_distinct_keys_no_dup<K>(keys: Seq<K>)
    ensures
        distinct_keys(keys).no_duplicates(),
    decreases keys.len(),
{
    if keys.len() > 0 {
        let kp = keys.drop_last();
        lemma_distinct_keys_no_dup(kp);
        let d = distinct_keys(kp);
        if !d.contains(keys.last()) {
            assert forall|i: int, j: int|
                0 <= i < d.push(keys.last()).len() && 0 <= j < d.push(keys.last()).len() && i != j
                implies d.push(keys.last())[i] != d.push(keys.last())[j] by {
                if i < d.len() && j < d.len() {
                } else if i == d.len() {
                    assert(d.push(keys.last())[j] == d[j]);
                    assert(d.contains(d[j]));
                } else {
                    assert(d.push(keys.last())[i] == d[i]);
                    assert(d.contains(d[i]));
                }
            }
        }
    }
}

/// Each index in a key's bucket is in range and carries that key; the bucket
/// is non-empty exactly when the key occurs.
pub proof fn lemma_key_indices_facts<K>(keys: Seq<K>, k: K)
    ensures
        forall|j: int|
            0 <= j < key_indices(keys, k).len() ==> {
                let i = #[trigger] key_indices(keys, k)[j];
                0 <= i < keys.len() && keys[i] == k
            },
        key_indices(keys, k).len() > 0 <==> keys.contains(k),
    decreases keys.len(),
{
    if keys.len() > 0 {
        let kp = keys.drop_last();
        lemma_key_indices_facts(kp, k);
        let p = key_indices(kp, k);
        if keys.last() == k {
            assert(keys[keys.len() - 1] == k);
            assert(keys.contains(k));
        } else {
            if keys.contains(k) {
                let i = choose|i: int| 0 <= i < keys.len() && keys[i] == k;
                assert(kp[i] == k);
                assert(kp.contains(k));
            }
            if kp.contains(k) {
                let i = choose|i: int| 0 <= i < kp.len() && kp[i] == k;
                assert(keys[i] == k);
            }
        }
    }
}

/// Replacing one bucket by the same bucket with one more element adds exactly
/// that element to the flattened collection.
pub proof fn lemma_flatten_multiset_update_push<A>(s: Seq<Seq<A>>, j: int, v: A)
    requires
        0 <= j < s.len(),
    ensures
        s.update(j, s[j].push(v)).flatten().to_multiset() =~= s.flatten().to_multiset().insert(
            v,
        ),
{
    let s2 = s.update(j, s[j].push(v));
    let a = s.subrange(0, j);
    let b = s.subrange(j + 1, s.len() as int);
    assert(s =~= a + seq![s[j]] + b);
    assert(s2 =~= a + seq![s[j].push(v)] + b);
    lemma_flatten_concat(a + seq![s[j]], b);
    lemma_flatten_concat(a, seq![s[j]]);
    lemma_flatten_concat(a + seq![s[j].push(v)], b);
    lemma_flatten_concat(a, seq![s[j].push(v)]);
    assert(seq![s[j]].flatten() =~= s[j]) by {
        seq![s[j]].lemma_flatten_singleton();
    }
    assert(seq![s[j].push(v)].flatten() =~= s[j].push(v)) by {
        seq![s[j].push(v)].lemma_flatten_singleton();
    }
    assert(s.flatten() =~= a.flatten() + s[j] + b.flatten());
    assert(s2.flatten() =~= a.flatten() + s[j].push(v) + b.flatten());
    lemma_multiset_commutative(a.flatten() + s[j], b.flatten());
    lemma_multiset_commutative(a.flatten(), s[j]);
    lemma_multiset_commutative(a.flatten() + s[j].push(v), b.flatten());
    lemma_multiset_commutative(a.flatten(), s[j].push(v));
    assert(s[j].push(v).to_multiset() =~= s[j].to_multiset().insert(v)) by {
        vstd::seq_lib::to_multiset_build(s[j], v);
    }
    assert((a.flatten() + s[j]).to_multiset() =~= a.flatten().to_multiset().add(
        s[j].to_multiset(),
    ));
    assert((a.flatten() + s[j].push(v)).to_multiset() =~= a.flatten().to_multiset().add(
        s[j].to_multiset().insert(v),
    ));
}

/// The index buckets partition the index range: flattened together they hold
/// every index exactly once.
pub proof fn lemma_index_groups_partition<K>(keys: Seq<K>)
    ensures
        index_groups(keys).flatten().to_multiset() =~= Seq::new(
            keys.len(),
            |i: int| i,
        ).to_multiset(),
    decreases keys.len(),
{
    if keys.len() == 0 {
        assert(index_groups(keys) =~= Seq::<Seq<int>>::empty());
        assert(Seq::new(0, |i: int| i) =~= Seq::<int>::empty());
    } else {
        let kp = keys.drop_last();
        let x = keys.last();
        let n = kp.len() as int;
        lemma_index_groups_partition(kp);
        lemma_distinct_keys_no_dup(kp);
        lemma_distinct_keys_contains(kp, x);
        let dp = distinct_keys(kp);
        let gp = index_groups(kp);
        let g = index_groups(keys);
        // each bucket of `keys` is the matching bucket of `kp`, extended by
        // the final index exactly for the key of the final element
        assert(forall|k: K| key_indices(kp, k) == if x == k {
            key_indices(keys, k).drop_last()
        } else {
            key_indices(keys, k)
        }) by {
            assert forall|k: K| keys.last() == k implies key_indices(keys, k)
                == key_indices(kp, k).push(n) by {}
        }
        if dp.contains(x) {
            let j = choose|j: int| 0 <= j < dp.len() && dp[j] == x;
            assert(distinct_keys(keys) == dp);
            assert(g =~= gp.update(j, gp[j].push(n))) by {
                assert forall|l: int| 0 <= l < g.len() implies g[l] == gp.update(
                    j,
                    gp[j].push(n),
                )[l] by {
                    assert(g[l] == key_indices(keys, dp[l]));
                    assert(gp[l] == key_indices(kp, dp[l]));
                    if l == j {
                        assert(key_indices(keys, x) == key_indices(kp, x).push(n));
                    } else {
                        assert(dp[l] != x);
                        assert(key_indices(keys, dp[l]) == key_indices(kp, dp[l]));
                    }
                }
            }
            lemma_flatten_multiset_update_push(gp, j, n);
            assert(Seq::new(keys.len(), |i: int| i) =~= Seq::new(n as nat, |i: int| i).push(n));
            vstd::seq_lib::to_multiset_build(Seq::new(n as nat, |i: int| i), n);
        } else {
            assert(distinct_keys(keys) == dp.push(x));
            lemma_key_indices_facts(kp, x);
            assert(key_indices(kp, x).len() == 0);
            assert(key_indices(keys, x) =~= seq![n]);
            assert(g =~= gp.push(seq![n])) by {
                assert forall|l: int| 0 <= l < g.len() implies g[l] == gp.push(seq![n])[l] by {
                    assert(g[l] == key_indices(keys, dp.push(x)[l]));
                    if l < dp.len() {
                        assert(dp.push(x)[l] == dp[l]);
                        assert(dp.contains(dp[l]));
                        assert(dp[l] != x);
                        assert(key_indices(keys, dp[l]) == key_indices(kp, dp[l]));
                    } else {
                        assert(dp.push(x)[l] == x);
                    }
                }
            }
            Seq::lemma_flatten_push(gp, seq![n]);
            lemma_multiset_commutative(gp.flatten(), seq![n]);
            assert(seq![n].to_multiset() =~= Multiset::<int>::empty().insert(n)) by {
                assert(seq![n] =~= Seq::<int>::empty().push(n));
                vstd::seq_lib::to_multiset_build(Seq::<int>::empty(), n);
                assert(Seq::<int>::empty().to_multiset() =~= Multiset::<int>::empty()) by {
                    broadcast use vstd::seq_lib::group_to_multiset_ensures;
                }
            }
            assert(Seq::new(keys.len(), |i: int| i) =~= Seq::new(n as nat, |i: int| i).push(n));
            vstd::seq_lib::to_multiset_build(Seq::new(n as nat, |i: int| i), n);
        }
    }
}

/// A mutable reference to one element of a vector.
fn vec_index_mut<T>(v: &mut Vec<T>, i: usize) -> (element: &mut T)
    requires
        i < old(v).len(),
    ensures
        *element == old(v)@[i as int],
        final(v)@ == old(v)@.update(i as int, *final(element)),
{
    &mut v[i]
}

/// The position of `k` in `gkeys`, if it occurs there.
fn find_key_u64(gkeys: &Vec<u64>, k: u64) -> (r: Option<usize>)
    ensures
        match r {
            Some(j) => j < gkeys@.len() && gkeys@[j as int] == k,
            None => !gkeys@.contains(k),
        },
{
    let mut j: usize = 0;
    while j < gkeys.len()
        invariant
            j <= gkeys@.len(),
            forall|l: int| 0 <= l < j ==> gkeys@[l] != k,
        decreases gkeys@.len() - j,
    {
        if gkeys[j] == k {
            return Some(j);
        }
        j = j + 1;
    }
    None
}

/// Groups the positions of `keys` by key value: one bucket per distinct key,
/// keys in first-occurrence order, members in increasing position order.
pub fn group_indices_by_u64(keys: &Vec<u64>) -> (groups: Vec<Vec<usize>>)
    ensures
        groups_view(groups@) == index_groups(keys@),
{
    let ghost ks = keys@;
    let mut gkeys: Vec<u64> = Vec::new();
    let mut groups: Vec<Vec<usize>> = Vec::new();
    let mut i: usize = 0;
    while i < keys.len()
        invariant
            i <= ks.len(),
            keys@ == ks,
            gkeys@ == distinct_keys(ks.take(i as int)),
            groups_view(groups@) == index_groups(ks.take(i as int)),
            groups@.len() == gkeys@.len(),
        decreases ks.len() - i,
    {
        let k = keys[i];
        proof {
            let prev = ks.take(i as int);
            let cur = ks.take(i + 1);
            assert(cur.drop_last() =~= prev);
            assert(cur.last() == k);
            lemma_distinct_keys_no_dup(prev);
            assert forall|kk: u64| #[trigger] key_indices(cur, kk) == if k == kk {
                key_indices(prev, kk).push(i as int)
            } else {
                key_indices(prev, kk)
            } by {
                assert(cur.drop_last() == prev);
            }
            assert(distinct_keys(cur) == if distinct_keys(prev).contains(k) {
                distinct_keys(prev)
            } else {
                distinct_keys(prev).push(k)
            }) by {
                assert(cur.drop_last() == prev);
            }
        }
        let ghost g0 = groups@;
        match find_key_u64(&gkeys, k) {
            Some(j) => {
                let slot = vec_index_mut(&mut groups, j);
                slot.push(i);
                proof {
                    let prev = ks.take(i as int);
                    let cur = ks.take(i + 1);
                    let dp = distinct_keys(prev);
                    assert(dp[j as int] == k);
                    assert(dp.contains(k));
                    assert(distinct_keys(cur) == dp);
                    assert(groups@ =~= g0.update(j as int, groups@[j as int]));
                    assert(groups@[j as int]@ == g0[j as int]@.push(i));
                    assert forall|l: int| 0 <= l < dp.len() implies index_groups(cur)[l]
                        == groups_view(groups@)[l] by {
                        assert(index_groups(cur)[l] == key_indices(cur, dp[l]));
                        assert(index_groups(prev)[l] == key_indices(prev, dp[l]));
                        if l == j {
                            assert(key_indices(cur, k) == key_indices(prev, k).push(i as int));
                            assert(groups_view(groups@)[l] == groups@[l]@.map_values(
                                |u: usize| u as int,
                            ));
                            assert(groups@[l]@.map_values(|u: usize| u as int) =~= g0[l]@.map_values(
                                |u: usize| u as int,
                            ).push(i as int));
                            assert(groups_view(g0)[l] == g0[l]@.map_values(|u: usize| u as int));
                        } else {
                            assert(dp[l] != dp[j as int]);
                            assert(key_indices(cur, dp[l]) == key_indices(prev, dp[l]));
                            assert(groups@[l] == g0[l]);
                            assert(groups_view(groups@)[l] == groups_view(g0)[l]);
                        }
                    }
                    assert(groups_view(groups@) =~= index_groups(cur));
                }
            },
            None => {
                gkeys.push(k);
                let mut fresh: Vec<usize> = Vec::new();
                fresh.push(i);
                groups.push(fresh);
                proof {
                    let prev = ks.take(i as int);
                    let cur = ks.take(i + 1);
                    let dp = distinct_keys(prev);
                    lemma_distinct_keys_contains(prev, k);
                    assert(!dp.contains(k));
                    assert(distinct_keys(cur) == dp.push(k));
                    lemma_key_indices_facts(prev, k);
                    assert(key_indices(prev, k).len() == 0);
                    assert(key_indices(cur, k) =~= seq![i as int]);
                    assert forall|l: int| 0 <= l < dp.push(k).len() implies index_groups(
                        cur,
                    )[l] == groups_view(groups@)[l] by {
                        assert(index_groups(cur)[l] == key_indices(cur, dp.push(k)[l]));
                        if l < dp.len() {
                            assert(dp.push(k)[l] == dp[l]);
                            assert(dp.contains(dp[l]));
                            assert(dp[l] != k);
                            assert(key_indices(cur, dp[l]) == key_indices(prev, dp[l]));
                            assert(index_groups(prev)[l] == key_indices(prev, dp[l]));
                            assert(groups@[l] == g0[l]);
                            assert(groups_view(groups@)[l] == groups_view(g0)[l]);
                        } else {
                            assert(dp.push(k)[l] == k);
                            assert(groups@[l]@ =~= seq![i]);
                            assert(groups@[l]@.map_values(|u: usize| u as int) =~= seq![i as int]);
                        }
                    }
                    assert(groups_view(groups@) =~= index_groups(cur));
                }
            },
        }
        i = i + 1;
    }
    proof {
        assert(ks.take(ks.len() as int) =~= ks);
    }
    groups
}

/// A vector of strings, seen as a sequence of character sequences.
pub open spec fn strs_view(v: Seq<String>) -> Seq<Seq<char>> {
    v.map_values(|s: String| s@)
}

/// The position of `k` in `gkeys`, if a string with its characters occurs
/// there.
fn find_key_str(gkeys: &Vec<String>, k: &String) -> (r: Option<usize>)
    ensures
        match r {
            Some(j) => j < gkeys@.len() && gkeys@[j as int]@ == k@,
            None => !strs_view(gkeys@).contains(k@),
        },
{
    let mut j: usize = 0;
    while j < gkeys.len()
        invariant
            j <= gkeys@.len(),
            forall|l: int| 0 <= l < j ==> gkeys@[l]@ != k@,
        decreases gkeys@.len() - j,
    {
        if gkeys[j] == *k {
            return Some(j);
        }
        j = j + 1;
    }
    proof {
        assert forall|l: int| 0 <= l < strs_view(gkeys@).len() implies strs_view(gkeys@)[l]
            != k@ by {
            assert(strs_view(gkeys@)[l] == gkeys@[l]@);
        }
    }
    None
}

/// Groups the positions of `keys` by string value: one bucket per distinct
/// string, strings in first-occurrence order, members in increasing position
/// order.
pub fn group_indices_by_str(keys: &Vec<String>) -> (groups: Vec<Vec<usize>>)
    ensures
        groups_view(groups@) == index_groups(strs_view(keys@)),
{
    let ghost ks = strs_view(keys@);
    let mut gkeys: Vec<String> = Vec::new();
    let mut groups: Vec<Vec<usize>> = Vec::new();
    let mut i: usize = 0;
    while i < keys.len()
        invariant
            i <= ks.len(),
            strs_view(keys@) == ks,
            keys@.len() == ks.len(),
            strs_view(gkeys@) == distinct_keys(ks.take(i as int)),
            groups_view(groups@) == index_groups(ks.take(i as int)),
            groups@.len() == gkeys@.len(),
        decreases ks.len() - i,
    {
        let k = &keys[i];
        proof {
            let prev = ks.take(i as int);
            let cur = ks.take(i + 1);
            assert(cur.drop_last() =~= prev);
            assert(cur.last() == k@);
            lemma_distinct_keys_no_dup(prev);
            assert forall|kk: Seq<char>| #[trigger] key_indices(cur, kk) == if k@ == kk {
                key_indices(prev, kk).push(i as int)
            } else {
                key_indices(prev, kk)
            } by {
                assert(cur.drop_last() == prev);
            }
            assert(distinct_keys(cur) == if distinct_keys(prev).contains(k@) {
                distinct_keys(prev)
            } else {
                distinct_keys(prev).push(k@)
            }) by {
                assert(cur.drop_last() == prev);
            }
        }
        let ghost g0 = groups@;
        match find_key_str(&gkeys, k) {
            Some(j) => {
                let slot = vec_index_mut(&mut groups, j);
                slot.push(i);
                proof {
                    let prev = ks.take(i as int);
                    let cur = ks.take(i + 1);
                    let dp = distinct_keys(prev);
                    assert(strs_view(gkeys@)[j as int] == gkeys@[j as int]@);
                    assert(dp[j as int] == k@);
                    assert(dp.contains(k@));
                    assert(distinct_keys(cur) == dp);
                    assert(groups@ =~= g0.update(j as int, groups@[j as int]));
                    assert(groups@[j as int]@ == g0[j as int]@.push(i));
                    assert forall|l: int| 0 <= l < dp.len() implies index_groups(cur)[l]
                        == groups_view(groups@)[l] by {
                        assert(index_groups(cur)[l] == key_indices(cur, dp[l]));
                        assert(index_groups(prev)[l] == key_indices(prev, dp[l]));
                        if l == j {
                            assert(key_indices(cur, k@) == key_indices(prev, k@).push(i as int));
                            assert(groups_view(groups@)[l] == groups@[l]@.map_values(
                                |u: usize| u as int,
                            ));
                            assert(groups@[l]@.map_values(|u: usize| u as int) =~= g0[l]@.map_values(
                                |u: usize| u as int,
                            ).push(i as int));
                            assert(groups_view(g0)[l] == g0[l]@.map_values(|u: usize| u as int));
                        } else {
                            assert(dp[l] != dp[j as int]);
                            assert(key_indices(cur, dp[l]) == key_indices(prev, dp[l]));
                            assert(groups@[l] == g0[l]);
                            assert(groups_view(groups@)[l] == groups_view(g0)[l]);
                        }
                    }
                    assert(groups_view(groups@) =~= index_groups(cur));
                }
            },
            None => {
                let ghost gk0 = gkeys@;
                gkeys.push(k.clone());
                let mut fresh: Vec<usize> = Vec::new();
                fresh.push(i);
                groups.push(fresh);
                proof {
                    let prev = ks.take(i as int);
                    let cur = ks.take(i + 1);
                    let dp = distinct_keys(prev);
                    lemma_distinct_keys_contains(prev, k@);
                    assert(!dp.contains(k@));
                    assert(distinct_keys(cur) == dp.push(k@));
                    assert(strs_view(gkeys@) =~= strs_view(gk0).push(k@)) by {
                        assert forall|l: int| 0 <= l < gkeys@.len() implies strs_view(
                            gkeys@,
                        )[l] == strs_view(gk0).push(k@)[l] by {
                            assert(strs_view(gkeys@)[l] == gkeys@[l]@);
                            if l < gk0.len() {
                                assert(gkeys@[l] == gk0[l]);
                                assert(strs_view(gk0)[l] == gk0[l]@);
                            }
                        }
                    }
                    lemma_key_indices_facts(prev, k@);
                    assert(key_indices(prev, k@).len() == 0);
                    assert(key_indices(cur, k@) =~= seq![i as int]);
                    assert forall|l: int| 0 <= l < dp.push(k@).len() implies index_groups(
                        cur,
                    )[l] == groups_view(groups@)[l] by {
                        assert(index_groups(cur)[l] == key_indices(cur, dp.push(k@)[l]));
                        if l < dp.len() {
                            assert(dp.push(k@)[l] == dp[l]);
                            assert(dp.contains(dp[l]));
                            assert(dp[l] != k@);
                            assert(key_indices(cur, dp[l]) == key_indices(prev, dp[l]));
                            assert(index_groups(prev)[l] == key_indices(prev, dp[l]));
                            assert(groups@[l] == g0[l]);
                            assert(groups_view(groups@)[l] == groups_view(g0)[l]);
                        } else {
                            assert(dp.push(k@)[l] == k@);
                            assert(groups@[l]@ =~= seq![i]);
                            assert(groups@[l]@.map_values(|u: usize| u as int) =~= seq![i as int]);
                        }
                    }
                    assert(groups_view(groups@) =~= index_groups(cur));
                }
            },
        }
        i = i + 1;
    }
    proof {
        assert(ks.take(ks.len() as int) =~= ks);
    }
    groups
}

} // verus!
