//! The engine's global guarantees, stated and proved over the strategy
//! specifications: the partition invariant, hash determinism, and the
//! refinement of the size-only grouping by the two-pass grouping.

use vstd::prelude::*;
use vstd::seq_lib::lemma_multiset_commutative;
use crate::benchmark::FileInfo;
use crate::grouping::distinct_keys;
use crate::grouping::index_groups;
use crate::grouping::key_indices;
use crate::grouping::lemma_distinct_keys_contains;
use crate::grouping::lemma_distinct_keys_no_dup;
use crate::grouping::lemma_flatten_multiset_update_push;
use crate::grouping::lemma_index_groups_partition;
use crate::grouping::lemma_key_indices_facts;
use crate::hashing::full_hash_key;
use crate::methods::dup_groups;
use crate::methods::groups_of_indices;
use crate::methods::lemma_index_groups_bounds;
use crate::methods::size_keys;
use crate::methods::sub_keys;
use crate::methods::subgroups_of;
use crate::methods::two_pass_groups;
use crate::methods::unique_files_of;

verus! {

/// The materialized key buckets hold every input file exactly once.
pub proof fn lemma_buckets_partition<K>(files: Seq<FileInfo>, keys: Seq<K>)
    requires
        keys.len() == files.len(),
    ensures
        groups_of_indices(files, index_groups(keys)).flatten().to_multiset()
            =~= files.to_multiset(),
    decreases keys.len(),
{
    broadcast use vstd::seq_lib::group_to_multiset_ensures;

    if keys.len() == 0 {
        assert(index_groups(keys) =~= Seq::<Seq<int>>::empty());
        assert(groups_of_indices(files, index_groups(keys)) =~= Seq::<Seq<FileInfo>>::empty());
        assert(files =~= Seq::<FileInfo>::empty());
    } else {
        let kp = keys.drop_last();
        let fp = files.drop_last();
        let x = keys.last();
        let fx = files.last();
        let n = kp.len() as int;
        lemma_buckets_partition(fp, kp);
        lemma_distinct_keys_no_dup(kp);
        lemma_distinct_keys_contains(kp, x);
        let dp = distinct_keys(kp);
        assert forall|kk: K| #[trigger] key_indices(keys, kk) == if x == kk {
            key_indices(kp, kk).push(n)
        } else {
            key_indices(kp, kk)
        } by {
            assert(keys.drop_last() == kp);
        }
        assert(distinct_keys(keys) == if dp.contains(x) {
            dp
        } else {
            dp.push(x)
        }) by {
            assert(keys.drop_last() == kp);
        }
        let gp = groups_of_indices(fp, index_groups(kp));
        let g = groups_of_indices(files, index_groups(keys));
        assert(files =~= fp.push(fx));
        if dp.contains(x) {
            let j = choose|j: int| 0 <= j < dp.len() && dp[j] == x;
            assert(g =~= gp.update(j, gp[j].push(fx))) by {
                assert forall|l: int| 0 <= l < g.len() implies g[l] == gp.update(
                    j,
                    gp[j].push(fx),
                )[l] by {
                    let kk = dp[l];
                    assert(index_groups(keys)[l] == key_indices(keys, kk));
                    assert(index_groups(kp)[l] == key_indices(kp, kk));
                    lemma_key_indices_facts(kp, kk);
                    assert(g[l] == key_indices(keys, kk).map_values(|i: int| files[i]));
                    assert(gp[l] == key_indices(kp, kk).map_values(|i: int| fp[i]));
                    if l == j {
                        assert(key_indices(keys, x) == key_indices(kp, x).push(n));
                        let lhs = key_indices(kp, x).push(n).map_values(|i: int| files[i]);
                        let rhs = key_indices(kp, x).map_values(|i: int| fp[i]).push(fx);
                        assert(lhs =~= rhs) by {
                            assert forall|b: int| 0 <= b < lhs.len() implies #[trigger] lhs[b]
                                == rhs[b] by {
                                if b < key_indices(kp, x).len() {
                                    let i = key_indices(kp, x)[b];
                                    assert(0 <= i < n);
                                    assert(files[i] == fp[i]);
                                } else {
                                    assert(key_indices(kp, x).push(n)[b] == n);
                                    assert(files[n] == fx);
                                }
                            }
                        }
                    } else {
                        assert(kk != dp[j]);
                        assert(key_indices(keys, kk) == key_indices(kp, kk));
                        let lhs = key_indices(kp, kk).map_values(|i: int| files[i]);
                        let rhs = key_indices(kp, kk).map_values(|i: int| fp[i]);
                        assert(lhs =~= rhs) by {
                            assert forall|b: int| 0 <= b < lhs.len() implies #[trigger] lhs[b]
                                == rhs[b] by {
                                let i = key_indices(kp, kk)[b];
                                assert(0 <= i < n);
                                assert(files[i] == fp[i]);
                            }
                        }
                    }
                }
            }
            lemma_flatten_multiset_update_push(gp, j, fx);
        } else {
            assert(key_indices(kp, x).len() == 0) by {
                lemma_key_indices_facts(kp, x);
            }
            assert(key_indices(keys, x) =~= seq![n]);
            assert(g =~= gp.push(seq![fx])) by {
                assert forall|l: int| 0 <= l < g.len() implies g[l] == gp.push(seq![fx])[l] by {
                    if l < dp.len() {
                        let kk = dp[l];
                        assert(distinct_keys(keys)[l] == kk);
                        assert(dp.contains(kk));
                        assert(kk != x);
                        assert(index_groups(keys)[l] == key_indices(keys, kk));
                        assert(key_indices(keys, kk) == key_indices(kp, kk));
                        lemma_key_indices_facts(kp, kk);
                        assert(g[l] == key_indices(kp, kk).map_values(|i: int| files[i]));
                        assert(gp[l] == key_indices(kp, kk).map_values(|i: int| fp[i]));
                        let lhs = key_indices(kp, kk).map_values(|i: int| files[i]);
                        let rhs = key_indices(kp, kk).map_values(|i: int| fp[i]);
                        assert(lhs =~= rhs) by {
                            assert forall|b: int| 0 <= b < lhs.len() implies #[trigger] lhs[b]
                                == rhs[b] by {
                                let i = key_indices(kp, kk)[b];
                                assert(0 <= i < n);
                                assert(files[i] == fp[i]);
                            }
                        }
                    } else {
                        assert(distinct_keys(keys)[l] == x);
                        assert(g[l] == key_indices(keys, x).map_values(|i: int| files[i]));
                        assert(key_indices(keys, x).map_values(|i: int| files[i]) =~= seq![fx]);
                    }
                }
            }
            Seq::lemma_flatten_push(gp, seq![fx]);
            lemma_multiset_commutative(gp.flatten(), seq![fx]);
            assert(seq![fx] =~= Seq::<FileInfo>::empty().push(fx));
        }
    }
}

/// Splitting bucket lists by member count splits the flattened contents.
proof fn lemma_flatten_filter_split(s: Seq<Seq<FileInfo>>)
    requires
        forall|l: int| 0 <= l < s.len() ==> #[trigger] s[l].len() >= 1,
    ensures
        s.filter(|g: Seq<FileInfo>| g.len() == 1).flatten().to_multiset().add(
            s.filter(|g: Seq<FileInfo>| g.len() >= 2).flatten().to_multiset(),
        ) =~= s.flatten().to_multiset(),
    decreases s.len(),
{
    broadcast use vstd::multiset::group_multiset_axioms;
    broadcast use vstd::seq_lib::group_to_multiset_ensures;

    let p1 = |g: Seq<FileInfo>| g.len() == 1;
    let p2 = |g: Seq<FileInfo>| g.len() >= 2;
    if s.len() == 0 {
        assert(s.filter(p1) =~= Seq::<Seq<FileInfo>>::empty());
        assert(s.filter(p2) =~= Seq::<Seq<FileInfo>>::empty());
    } else {
        let sp = s.drop_last();
        let e = s.last();
        assert(forall|l: int| 0 <= l < sp.len() ==> #[trigger] sp[l].len() >= 1) by {
            assert(forall|l: int| 0 <= l < sp.len() ==> sp[l] == s[l]);
        }
        lemma_flatten_filter_split(sp);
        assert(s =~= sp.push(e));
        assert(s == sp.push(e));
        Seq::lemma_filter_push(sp, e, p1);
        Seq::lemma_filter_push(sp, e, p2);
        Seq::lemma_flatten_push(sp, e);
        lemma_multiset_commutative(sp.flatten(), e);
        assert(e.len() >= 1);
        if e.len() == 1 {
            Seq::lemma_flatten_push(sp.filter(p1), e);
            lemma_multiset_commutative(sp.filter(p1).flatten(), e);
        } else {
            Seq::lemma_flatten_push(sp.filter(p2), e);
            lemma_multiset_commutative(sp.filter(p2).flatten(), e);
        }
    }
}

/// Partition invariant: for any keyed grouping, the unique files and the
/// members of all duplicate groups together hold every input file exactly
/// once.
pub proof fn lemma_partition_invariant<K>(files: Seq<FileInfo>, keys: Seq<K>)
    requires
        keys.len() == files.len(),
    ensures
        unique_files_of(files, keys).to_multiset().add(
            dup_groups(files, keys).flatten().to_multiset(),
        ) =~= files.to_multiset(),
{
    let all = groups_of_indices(files, index_groups(keys));
    lemma_buckets_partition(files, keys);
    assert forall|l: int| 0 <= l < all.len() implies #[trigger] all[l].len() >= 1 by {
        let k = distinct_keys(keys)[l];
        assert(index_groups(keys)[l] == key_indices(keys, k));
        lemma_key_indices_facts(keys, k);
        lemma_distinct_keys_contains(keys, k);
        assert(distinct_keys(keys).contains(k));
        assert(keys.contains(k));
        assert(all[l] == key_indices(keys, k).map_values(|i: int| files[i]));
    }
    lemma_flatten_filter_split(all);
}

/// Hash determinism: two files whose contents are byte-identical always land
/// in one full-hash duplicate group together.
pub proof fn lemma_full_hash_determinism(
    files: Seq<FileInfo>,
    contents: Seq<Seq<u8>>,
    i: int,
    j: int,
)
    requires
        files.len() == contents.len(),
        0 <= i < files.len(),
        0 <= j < files.len(),
        i != j,
        contents[i] == contents[j],
    ensures
        exists|g: Seq<FileInfo>|
            #[trigger] dup_groups(files, crate::methods::full_keys(contents)).contains(g)
                && g.contains(files[i]) && g.contains(files[j]),
{
    let keys = crate::methods::full_keys(contents);
    let k = full_hash_key(contents[i]);
    assert(keys[i] == k);
    assert(keys[j] == k);
    assert(keys.contains(k));
    lemma_key_indices_facts(keys, k);
    lemma_distinct_keys_contains(keys, k);
    assert(distinct_keys(keys).contains(k));
    let l = choose|l: int| 0 <= l < distinct_keys(keys).len() && distinct_keys(keys)[l] == k;
    let ki = key_indices(keys, k);
    assert(index_groups(keys)[l] == ki);
    lemma_key_indices_contains_index(keys, k, i);
    lemma_key_indices_contains_index(keys, k, j);
    let pi = choose|p: int| 0 <= p < ki.len() && ki[p] == i;
    let pj = choose|p: int| 0 <= p < ki.len() && ki[p] == j;
    assert(pi != pj);
    assert(ki.len() >= 2);
    let g = ki.map_values(|a: int| files[a]);
    assert(groups_of_indices(files, index_groups(keys))[l] == g);
    assert(g.len() >= 2);
    Seq::lemma_filter_contains(
        groups_of_indices(files, index_groups(keys)),
        (|x: Seq<FileInfo>| x.len() >= 2),
        l,
    );
    assert(dup_groups(files, keys).contains(g));
    assert(g[pi] == files[i]);
    assert(g[pj] == files[j]);
    assert(g.contains(files[i]));
    assert(g.contains(files[j]));
}

/// An index with the sought key occurs in that key's bucket.
proof fn lemma_key_indices_contains_index<K>(keys: Seq<K>, k: K, i: int)
    requires
        0 <= i < keys.len(),
        keys[i] == k,
    ensures
        key_indices(keys, k).contains(i),
    decreases keys.len(),
{
    if keys.len() > 0 {
        let kp = keys.drop_last();
        if i == keys.len() - 1 {
            assert(keys.last() == k);
            let p = key_indices(kp, k);
            assert(key_indices(keys, k) == p.push(i));
            assert(key_indices(keys, k)[p.len() as int] == i);
        } else {
            assert(kp[i] == k);
            lemma_key_indices_contains_index(kp, k, i);
            let p = key_indices(kp, k);
            let q = choose|q: int| 0 <= q < p.len() && p[q] == i;
            if keys.last() == k {
                assert(key_indices(keys, k)[q] == i);
            } else {
                assert(key_indices(keys, k)[q] == i);
            }
        }
    }
}

/// An element of a flattened sequence of sequences comes from one of them.
pub proof fn lemma_flatten_elem_origin<A>(s: Seq<Seq<A>>, x: A)
    requires
        s.flatten().contains(x),
    ensures
        exists|l: int| 0 <= l < s.len() && #[trigger] s[l].contains(x),
    decreases s.len(),
{
    if s.len() > 0 {
        if s.first().contains(x) {
            assert(s[0].contains(x));
        } else {
            let fl = s.flatten();
            let p = choose|p: int| 0 <= p < fl.len() && fl[p] == x;
            assert(fl == s.first() + s.drop_first().flatten());
            if p < s.first().len() {
                assert(s.first()[p] == x);
                assert(s.first().contains(x));
            } else {
                assert(s.drop_first().flatten()[p - s.first().len()] == x);
                assert(s.drop_first().flatten().contains(x));
                lemma_flatten_elem_origin(s.drop_first(), x);
                let l = choose|l: int|
                    0 <= l < s.drop_first().len() && #[trigger] s.drop_first()[l].contains(x);
                assert(s[l + 1].contains(x));
            }
        }
    }
}

/// The members of all duplicate groups of a keyed grouping never outnumber
/// the input files.
pub proof fn lemma_dup_groups_member_bound<K>(files: Seq<FileInfo>, keys: Seq<K>)
    requires
        keys.len() == files.len(),
    ensures
        dup_groups(files, keys).flatten().len() <= files.len(),
{
    broadcast use vstd::multiset::group_multiset_axioms;
    broadcast use vstd::seq_lib::group_to_multiset_ensures;

    lemma_partition_invariant(files, keys);
    let u = unique_files_of(files, keys);
    let d = dup_groups(files, keys).flatten();
    assert(u.to_multiset().add(d.to_multiset()).len() == files.to_multiset().len());
}

/// The flattened members of one bucket's second-pass subgroups never
/// outnumber the bucket.
proof fn lemma_subgroups_of_bound(files: Seq<FileInfo>, contents: Seq<Seq<u8>>, g: Seq<int>)
    ensures
        subgroups_of(files, contents, g).flatten().len() <= g.len(),
{
    broadcast use vstd::multiset::group_multiset_axioms;
    broadcast use vstd::seq_lib::group_to_multiset_ensures;

    if g.len() >= 2 {
        let sk = sub_keys(contents, g);
        let bf = g.map_values(|i: int| files[i]);
        let pre = index_groups(sk).map_values(|sg: Seq<int>| sg.map_values(|l: int| files[g[l]]));
        assert(pre =~= crate::methods::groups_of_indices(bf, index_groups(sk))) by {
            assert forall|m: int| 0 <= m < pre.len() implies pre[m]
                == crate::methods::groups_of_indices(bf, index_groups(sk))[m] by {
                let sg = index_groups(sk)[m];
                let lhs = sg.map_values(|l: int| files[g[l]]);
                let rhs = sg.map_values(|x: int| bf[x]);
                assert(lhs =~= rhs) by {
                    lemma_index_groups_bounds(sk);
                    assert forall|b: int| 0 <= b < sg.len() implies #[trigger] lhs[b]
                        == rhs[b] by {
                        assert(0 <= sg[b] < sk.len());
                        assert(sk.len() == g.len());
                        assert(bf[sg[b]] == files[g[sg[b]]]);
                    }
                }
            }
        }
        lemma_buckets_partition(bf, sk);
        assert(pre.flatten().to_multiset().len() == bf.to_multiset().len());
        assert forall|l: int| 0 <= l < pre.len() implies #[trigger] pre[l].len() >= 1 by {
            let k = distinct_keys(sk)[l];
            assert(index_groups(sk)[l] == key_indices(sk, k));
            lemma_key_indices_facts(sk, k);
            lemma_distinct_keys_contains(sk, k);
            assert(distinct_keys(sk).contains(k));
            assert(sk.contains(k));
            assert(pre[l] == key_indices(sk, k).map_values(|l2: int| files[g[l2]]));
        }
        lemma_flatten_filter_split(pre);
        assert(subgroups_of(files, contents, g) == pre.filter(|x: Seq<FileInfo>| x.len() >= 2));
        assert(pre.filter(|x: Seq<FileInfo>| x.len() >= 2).flatten().to_multiset().len()
            <= pre.flatten().to_multiset().len());
    }
}

/// Flattening a flattened list of group lists counts every member once per
/// group list.
proof fn lemma_double_flatten_len<A>(s: Seq<Seq<Seq<A>>>)
    ensures
        s.flatten().flatten().len() == sum_flat_lens(s),
    decreases s.len(),
{
    if s.len() == 0 {
        assert(s.flatten() =~= Seq::<Seq<A>>::empty());
    } else {
        let sp = s.drop_last();
        lemma_double_flatten_len(sp);
        assert(s =~= sp.push(s.last()));
        assert(s == sp.push(s.last()));
        Seq::lemma_flatten_push(sp, s.last());
        vstd::seq_lib::lemma_flatten_concat(sp.flatten(), s.last());
        assert(s.flatten() == sp.flatten() + s.last());
        assert((sp.flatten() + s.last()).flatten() == sp.flatten().flatten()
            + s.last().flatten());
    }
}

/// The total member count of a list of group lists.
pub open spec fn sum_flat_lens<A>(s: Seq<Seq<Seq<A>>>) -> int
    decreases s.len(),
{
    if s.len() == 0 {
        0
    } else {
        sum_flat_lens(s.drop_last()) + s.last().flatten().len()
    }
}

/// The total length of a list of index buckets.
pub open spec fn sum_lens(s: Seq<Seq<int>>) -> int
    decreases s.len(),
{
    if s.len() == 0 {
        0
    } else {
        sum_lens(s.drop_last()) + s.last().len()
    }
}

/// The flattened length of a bucket list is the sum of the bucket lengths.
proof fn lemma_flatten_len_sum(s: Seq<Seq<int>>)
    ensures
        s.flatten().len() == sum_lens(s),
    decreases s.len(),
{
    if s.len() > 0 {
        lemma_flatten_len_sum(s.drop_last());
        assert(s =~= s.drop_last().push(s.last()));
        assert(s == s.drop_last().push(s.last()));
        Seq::lemma_flatten_push(s.drop_last(), s.last());
    }
}

/// The members of all two-pass duplicate groups never outnumber the input
/// files.
pub proof fn lemma_two_pass_member_bound(files: Seq<FileInfo>, contents: Seq<Seq<u8>>)
    requires
        contents.len() == files.len(),
    ensures
        two_pass_groups(files, contents).flatten().len() <= files.len(),
{
    broadcast use vstd::seq_lib::group_to_multiset_ensures;

    let igs = index_groups(size_keys(files));
    let mapped = igs.map_values(|g: Seq<int>| subgroups_of(files, contents, g));
    lemma_double_flatten_len(mapped);
    lemma_mapped_sum_bound(files, contents, igs);
    lemma_flatten_len_sum(igs);
    lemma_index_groups_partition(size_keys(files));
    assert(igs.flatten().to_multiset().len() == Seq::new(
        size_keys(files).len(),
        |i: int| i,
    ).to_multiset().len());
}

/// Summed over any bucket list, the subgroup members never outnumber the
/// bucket members.
proof fn lemma_mapped_sum_bound(files: Seq<FileInfo>, contents: Seq<Seq<u8>>, igs: Seq<Seq<int>>)
    ensures
        sum_flat_lens(igs.map_values(|g: Seq<int>| subgroups_of(files, contents, g)))
            <= sum_lens(igs),
    decreases igs.len(),
{
    let mapped = igs.map_values(|g: Seq<int>| subgroups_of(files, contents, g));
    if igs.len() > 0 {
        lemma_mapped_sum_bound(files, contents, igs.drop_last());
        assert(mapped.drop_last() =~= igs.drop_last().map_values(
            |g: Seq<int>| subgroups_of(files, contents, g),
        ));
        lemma_subgroups_of_bound(files, contents, igs.last());
        assert(mapped.last() == subgroups_of(files, contents, igs.last()));
    }
}

/// Refinement: every duplicate group of the two-pass strategy sits inside
/// one duplicate group of the size-only strategy; two-pass never relates
/// files of distinct sizes.
pub proof fn lemma_two_pass_refines_size_only(
    files: Seq<FileInfo>,
    contents: Seq<Seq<u8>>,
    g: Seq<FileInfo>,
)
    requires
        files.len() == contents.len(),
        two_pass_groups(files, contents).contains(g),
    ensures
        exists|g2: Seq<FileInfo>|
            #[trigger] dup_groups(files, size_keys(files)).contains(g2) && forall|b: int|
                0 <= b < g.len() ==> g2.contains(#[trigger] g[b]),
{
    let igs = index_groups(size_keys(files));
    let mapped = igs.map_values(|sb: Seq<int>| subgroups_of(files, contents, sb));
    lemma_flatten_elem_origin(mapped, g);
    let l = choose|l: int| 0 <= l < mapped.len() && #[trigger] mapped[l].contains(g);
    let sb = igs[l];
    assert(mapped[l] == subgroups_of(files, contents, sb));
    assert(sb.len() >= 2) by {
        if sb.len() < 2 {
            assert(subgroups_of(files, contents, sb) =~= Seq::<Seq<FileInfo>>::empty());
        }
    }
    let pre = index_groups(sub_keys(contents, sb)).map_values(
        |sg: Seq<int>| sg.map_values(|a: int| files[sb[a]]),
    );
    assert(subgroups_of(files, contents, sb) == pre.filter(|x: Seq<FileInfo>| x.len() >= 2));
    assert(pre.contains(g)) by {
        Seq::lemma_filter_contains_rev(pre, (|x: Seq<FileInfo>| x.len() >= 2), g);
    }
    let m = choose|m: int| 0 <= m < pre.len() && pre[m] == g;
    let sg = index_groups(sub_keys(contents, sb))[m];
    assert(g == sg.map_values(|a: int| files[sb[a]]));
    let g2 = sb.map_values(|i: int| files[i]);
    assert(groups_of_indices(files, igs)[l] == g2);
    assert(g2.len() >= 2);
    Seq::lemma_filter_contains(
        groups_of_indices(files, igs),
        (|x: Seq<FileInfo>| x.len() >= 2),
        l,
    );
    assert(dup_groups(files, size_keys(files)).contains(g2));
    assert forall|b: int| 0 <= b < g.len() implies g2.contains(#[trigger] g[b]) by {
        lemma_index_groups_bounds(sub_keys(contents, sb));
        assert(g[b] == files[sb[sg[b]]]);
        assert(0 <= sg[b] < sub_keys(contents, sb).len());
        assert(sub_keys(contents, sb).len() == sb.len());
        assert(g2[sg[b]] == files[sb[sg[b]]]);
    }
}

} // verus!
