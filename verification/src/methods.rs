//! The exact-duplicate strategies: size-only, partial-hash, full-hash and
//! two-pass grouping of a file list into duplicate groups.
//!
//! Every strategy partitions its input by a key; a bucket with at least two
//! members is a duplicate group. Group emission order follows the first
//! occurrence of each key, and members keep input encounter order.

use vstd::prelude::*;
use crate::benchmark::FileInfo;
use crate::grouping::distinct_keys;
use crate::grouping::group_indices_by_str;
use crate::grouping::group_indices_by_u64;
use crate::grouping::groups_view;
use crate::grouping::index_groups;
use crate::grouping::key_indices;
use crate::grouping::lemma_key_indices_facts;
use crate::grouping::strs_view;
use crate::hashing::compute_full_hash;
use crate::hashing::compute_partial_hash;
use crate::hashing::full_hash_key;
use crate::hashing::partial_hash_key;

verus! {

/// The byte limit of the partial-hash strategy's prefix fingerprint.
pub const PARTIAL_HASH_LIMIT: usize = 1024;

/// The byte limit of the two-pass strategy's second-pass prefix fingerprint.
pub const TWO_PASS_HASH_LIMIT: usize = 4096;

/// A vector of byte buffers, seen as a sequence of byte sequences.
pub open spec fn bytes_view(cs: Seq<Vec<u8>>) -> Seq<Seq<u8>> {
    cs.map_values(|v: Vec<u8>| v@)
}

/// A vector of file groups, seen as a sequence of file sequences.
pub open spec fn gview(groups: Seq<Vec<FileInfo>>) -> Seq<Seq<FileInfo>> {
    groups.map_values(|g: Vec<FileInfo>| g@)
}

/// The grouping key of the size-only strategy: the file size.
pub open spec fn size_keys(files: Seq<FileInfo>) -> Seq<u64> {
    files.map_values(|f: FileInfo| f.size)
}

/// The grouping keys of the full-hash strategy: the whole-content digests.
pub open spec fn full_keys(contents: Seq<Seq<u8>>) -> Seq<Seq<char>> {
    contents.map_values(|c: Seq<u8>| full_hash_key(c))
}

/// The grouping keys of the prefix-hash strategies: digests of at most
/// `limit` leading bytes.
pub open spec fn partial_keys(contents: Seq<Seq<u8>>, limit: int) -> Seq<Seq<char>> {
    contents.map_values(|c: Seq<u8>| partial_hash_key(c, limit))
}

/// Index buckets materialized into file groups.
pub open spec fn groups_of_indices(files: Seq<FileInfo>, igs: Seq<Seq<int>>) -> Seq<
    Seq<FileInfo>,
> {
    igs.map_values(|g: Seq<int>| g.map_values(|i: int| files[i]))
}

/// The duplicate groups of a keyed grouping: the buckets with at least two
/// members.
pub open spec fn dup_groups<K>(files: Seq<FileInfo>, keys: Seq<K>) -> Seq<Seq<FileInfo>> {
    groups_of_indices(files, index_groups(keys)).filter(|g: Seq<FileInfo>| g.len() >= 2)
}

/// The unique files of a keyed grouping: the members of the singleton
/// buckets, in bucket order.
pub open spec fn unique_files_of<K>(files: Seq<FileInfo>, keys: Seq<K>) -> Seq<FileInfo> {
    groups_of_indices(files, index_groups(keys)).filter(
        |g: Seq<FileInfo>| g.len() == 1,
    ).flatten()
}

/// All index buckets of a key sequence point inside the key range.
pub proof fn lemma_index_groups_bounds<K>(keys: Seq<K>)
    ensures
        forall|j: int, l: int|
            0 <= j < index_groups(keys).len() && 0 <= l < index_groups(keys)[j].len()
                ==> 0 <= #[trigger] index_groups(keys)[j][l] < keys.len(),
{
    assert forall|j: int, l: int|
        0 <= j < index_groups(keys).len() && 0 <= l < index_groups(keys)[j].len()
        implies 0 <= #[trigger] index_groups(keys)[j][l] < keys.len() by {
        let k = distinct_keys(keys)[j];
        assert(index_groups(keys)[j] == key_indices(keys, k));
        lemma_key_indices_facts(keys, k);
    }
}

/// The size key of each file, in input order.
fn compute_size_keys(files: &Vec<FileInfo>) -> (keys: Vec<u64>)
    ensures
        keys@ == size_keys(files@),
{
    let mut keys: Vec<u64> = Vec::new();
    let mut i: usize = 0;
    while i < files.len()
        invariant
            i <= files@.len(),
            keys@ =~= size_keys(files@).take(i as int),
        decreases files@.len() - i,
    {
        keys.push(files[i].size);
        proof {
            assert(keys@ =~= size_keys(files@).take(i + 1));
        }
        i = i + 1;
    }
    proof {
        assert(size_keys(files@).take(files@.len() as int) =~= size_keys(files@));
    }
    keys
}

/// The whole-content hash key of each buffer, in input order.
pub fn compute_full_keys(contents: &Vec<Vec<u8>>) -> (keys: Vec<String>)
    ensures
        strs_view(keys@) == full_keys(bytes_view(contents@)),
        keys@.len() == contents@.len(),
{
    let mut keys: Vec<String> = Vec::new();
    let mut i: usize = 0;
    while i < contents.len()
        invariant
            i <= contents@.len(),
            keys@.len() == i,
            strs_view(keys@) =~= full_keys(bytes_view(contents@)).take(i as int),
        decreases contents@.len() - i,
    {
        keys.push(compute_full_hash(contents[i].as_slice()));
        proof {
            assert(strs_view(keys@) =~= full_keys(bytes_view(contents@)).take(i + 1));
        }
        i = i + 1;
    }
    proof {
        assert(full_keys(bytes_view(contents@)).take(contents@.len() as int) =~= full_keys(
            bytes_view(contents@),
        ));
    }
    keys
}

/// The prefix hash key of each buffer, in input order.
pub fn compute_partial_keys(contents: &Vec<Vec<u8>>, limit: usize) -> (keys: Vec<String>)
    ensures
        strs_view(keys@) == partial_keys(bytes_view(contents@), limit as int),
        keys@.len() == contents@.len(),
{
    let mut keys: Vec<String> = Vec::new();
    let mut i: usize = 0;
    while i < contents.len()
        invariant
            i <= contents@.len(),
            keys@.len() == i,
            strs_view(keys@) =~= partial_keys(bytes_view(contents@), limit as int).take(i as int),
        decreases contents@.len() - i,
    {
        keys.push(compute_partial_hash(contents[i].as_slice(), limit));
        proof {
            assert(strs_view(keys@) =~= partial_keys(bytes_view(contents@), limit as int).take(
                i + 1,
            ));
        }
        i = i + 1;
    }
    proof {
        assert(partial_keys(bytes_view(contents@), limit as int).take(contents@.len() as int)
            =~= partial_keys(bytes_view(contents@), limit as int));
    }
    keys
}

/// Turns index buckets into groups of the files they point at.
fn materialize_groups(files: &Vec<FileInfo>, igs: &Vec<Vec<usize>>) -> (r: Vec<Vec<FileInfo>>)
    requires
        forall|j: int, l: int|
            0 <= j < igs@.len() && 0 <= l < igs@[j]@.len() ==> #[trigger] igs@[j]@[l]
                < files@.len(),
    ensures
        gview(r@) == groups_of_indices(files@, groups_view(igs@)),
{
    let goal = Ghost(groups_of_indices(files@, groups_view(igs@)));
    let mut r: Vec<Vec<FileInfo>> = Vec::new();
    let mut j: usize = 0;
    while j < igs.len()
        invariant
            j <= igs@.len(),
            goal@ == groups_of_indices(files@, groups_view(igs@)),
            forall|a: int, l: int|
                0 <= a < igs@.len() && 0 <= l < igs@[a]@.len() ==> #[trigger] igs@[a]@[l]
                    < files@.len(),
            gview(r@) =~= goal@.take(j as int),
        decreases igs@.len() - j,
    {
        let ig = &igs[j];
        let mut group: Vec<FileInfo> = Vec::new();
        let mut l: usize = 0;
        while l < ig.len()
            invariant
                l <= ig@.len(),
                ig == igs@[j as int],
                j < igs@.len(),
                forall|a: int, b: int|
                    0 <= a < igs@.len() && 0 <= b < igs@[a]@.len() ==> #[trigger] igs@[a]@[b]
                        < files@.len(),
                group@ =~= groups_view(igs@)[j as int].map_values(|i: int| files@[i]).take(
                    l as int,
                ),
            decreases ig@.len() - l,
        {
            assert(igs@[j as int]@[l as int] < files@.len());
            group.push(files[ig[l]].clone());
            proof {
                assert(groups_view(igs@)[j as int][l as int] == igs@[j as int]@[l as int] as int);
                assert(group@ =~= groups_view(igs@)[j as int].map_values(|i: int| files@[i]).take(
                    l + 1,
                ));
            }
            l = l + 1;
        }
        proof {
            let gv = groups_view(igs@)[j as int].map_values(|i: int| files@[i]);
            assert(gv.take(gv.len() as int) =~= gv);
            assert(group@ =~= gv);
            assert(goal@[j as int] == gv);
        }
        let ghost r0 = r@;
        let ghost gg = group@;
        r.push(group);
        proof {
            assert(goal@.len() == igs@.len());
            assert(r0.len() == gview(r0).len());
            assert(gview(r0).len() == goal@.take(j as int).len());
            assert(r0.len() == j);
            assert(r@ == r0.push(r@[j as int]));
            assert(r@[j as int]@ == gg);
            assert forall|a: int| 0 <= a < j + 1 implies gview(r@)[a] == goal@.take(j + 1)[a] by {
                assert(gview(r@)[a] == r@[a]@);
                if a < j {
                    assert(r@[a] == r0[a]);
                    assert(gview(r0)[a] == r0[a]@);
                }
            }
            assert(gview(r@) =~= goal@.take(j + 1));
        }
        j = j + 1;
    }
    proof {
        assert(goal@.take(goal@.len() as int) =~= goal@);
        assert(goal@.len() == igs@.len());
    }
    r
}

/// Keeps the groups with at least two members, in order.
fn filter_ge2(groups: Vec<Vec<FileInfo>>) -> (r: Vec<Vec<FileInfo>>)
    ensures
        gview(r@) == gview(groups@).filter(|g: Seq<FileInfo>| g.len() >= 2),
{
    let mut r: Vec<Vec<FileInfo>> = Vec::new();
    let mut j: usize = 0;
    while j < groups.len()
        invariant
            j <= groups@.len(),
            gview(r@) =~= gview(groups@).take(j as int).filter((|g: Seq<FileInfo>| g.len() >= 2)),
        decreases groups@.len() - j,
    {
        proof {
            assert(gview(groups@).take(j + 1) =~= gview(groups@).take(j as int).push(
                groups@[j as int]@,
            ));
            Seq::lemma_filter_push(gview(groups@).take(j as int), groups@[j as int]@, (|g: Seq<FileInfo>| g.len() >= 2));
        }
        if groups[j].len() >= 2 {
            let cloned_group = groups[j].clone();
            proof {
                assert(cloned_group@ =~= groups@[j as int]@) by {
                    assert forall|i: int| 0 <= i < groups@[j as int]@.len()
                        implies cloned_group@[i] == groups@[j as int]@[i] by {
                        assert(vstd::pervasive::cloned::<FileInfo>(
                            groups@[j as int]@[i],
                            cloned_group@[i],
                        ));
                    }
                }
            }
            let ghost r0 = r@;
            r.push(cloned_group);
            proof {
                assert((|g: Seq<FileInfo>| g.len() >= 2)(groups@[j as int]@));
                assert forall|a: int| 0 <= a < r@.len() implies gview(r@)[a] == gview(
                    r0,
                ).push(groups@[j as int]@)[a] by {
                    assert(gview(r@)[a] == r@[a]@);
                    if a < r0.len() {
                        assert(r@[a] == r0[a]);
                        assert(gview(r0)[a] == r0[a]@);
                    }
                }
                assert(gview(r@) =~= gview(r0).push(groups@[j as int]@));
                assert(gview(r@) =~= gview(groups@).take(j + 1).filter((|g: Seq<FileInfo>| g.len() >= 2)));
            }
        } else {
            proof {
                assert(!(|g: Seq<FileInfo>| g.len() >= 2)(groups@[j as int]@));
                assert(gview(r@) =~= gview(groups@).take(j + 1).filter((|g: Seq<FileInfo>| g.len() >= 2)));
            }
        }
        j = j + 1;
    }
    proof {
        assert(gview(groups@).take(groups@.len() as int) =~= gview(groups@));
    }
    r
}

/// One duplicate-detection strategy: a name and a grouping of a file list,
/// with the matching content buffers, into duplicate groups.
pub trait DeduplicationMethod {
    fn name(&self) -> (r: &str);

    fn find_duplicates(&self, files: &Vec<FileInfo>, contents: &Vec<Vec<u8>>) -> (r: Vec<
        Vec<FileInfo>,
    >)
        requires
            files@.len() == contents@.len(),
    ;
}

/// Groups by file size alone: the cheapest strategy and the coarsest.
pub struct SizeOnlyMethod;

impl DeduplicationMethod for SizeOnlyMethod {
    fn name(&self) -> (r: &str)
        ensures
            r@ == "size_only"@,
    {
        "size_only"
    }

    fn find_duplicates(&self, files: &Vec<FileInfo>, contents: &Vec<Vec<u8>>) -> (r: Vec<
        Vec<FileInfo>,
    >)
        ensures
            gview(r@) == dup_groups(files@, size_keys(files@)),
    {
        let keys = compute_size_keys(files);
        let igs = group_indices_by_u64(&keys);
        proof {
            lemma_index_groups_bounds(keys@);
            assert forall|j: int, l: int|
                0 <= j < igs@.len() && 0 <= l < igs@[j]@.len() implies #[trigger] igs@[j]@[l]
                < files@.len() by {
                assert(groups_view(igs@)[j][l] == igs@[j]@[l] as int);
            }
        }
        let all = materialize_groups(files, &igs);
        filter_ge2(all)
    }
}

/// Groups by a digest of the first kibibyte. Distinct files that share their
/// first kibibyte collide: a documented false-positive source.
pub struct PartialHashMethod;

impl DeduplicationMethod for PartialHashMethod {
    fn name(&self) -> (r: &str)
        ensures
            r@ == "partial_hash"@,
    {
        "partial_hash"
    }

    fn find_duplicates(&self, files: &Vec<FileInfo>, contents: &Vec<Vec<u8>>) -> (r: Vec<
        Vec<FileInfo>,
    >)
        ensures
            gview(r@) == dup_groups(
                files@,
                partial_keys(bytes_view(contents@), PARTIAL_HASH_LIMIT as int),
            ),
    {
        let keys = compute_partial_keys(contents, PARTIAL_HASH_LIMIT);
        let igs = group_indices_by_str(&keys);
        proof {
            lemma_index_groups_bounds(strs_view(keys@));
            assert forall|j: int, l: int|
                0 <= j < igs@.len() && 0 <= l < igs@[j]@.len() implies #[trigger] igs@[j]@[l]
                < files@.len() by {
                assert(groups_view(igs@)[j][l] == igs@[j]@[l] as int);
            }
        }
        let all = materialize_groups(files, &igs);
        filter_ge2(all)
    }
}

/// Groups by a digest of the whole content: the precision baseline and the
/// default ground truth.
pub struct FullHashMethod;

impl DeduplicationMethod for FullHashMethod {
    fn name(&self) -> (r: &str)
        ensures
            r@ == "full_hash"@,
    {
        "full_hash"
    }

    fn find_duplicates(&self, files: &Vec<FileInfo>, contents: &Vec<Vec<u8>>) -> (r: Vec<
        Vec<FileInfo>,
    >)
        ensures
            gview(r@) == dup_groups(files@, full_keys(bytes_view(contents@))),
    {
        let keys = compute_full_keys(contents);
        let igs = group_indices_by_str(&keys);
        proof {
            lemma_index_groups_bounds(strs_view(keys@));
            assert forall|j: int, l: int|
                0 <= j < igs@.len() && 0 <= l < igs@[j]@.len() implies #[trigger] igs@[j]@[l]
                < files@.len() by {
                assert(groups_view(igs@)[j][l] == igs@[j]@[l] as int);
            }
        }
        let all = materialize_groups(files, &igs);
        filter_ge2(all)
    }
}

/// The second-pass keys of one size bucket: prefix digests of its members'
/// contents.
pub open spec fn sub_keys(contents: Seq<Seq<u8>>, g: Seq<int>) -> Seq<Seq<char>> {
    g.map_values(|i: int| partial_hash_key(contents[i], TWO_PASS_HASH_LIMIT as int))
}

/// The duplicate groups that one size bucket contributes under the two-pass
/// strategy: nothing for a singleton bucket, else the second-pass prefix-hash
/// buckets with at least two members.
pub open spec fn subgroups_of(files: Seq<FileInfo>, contents: Seq<Seq<u8>>, g: Seq<int>) -> Seq<
    Seq<FileInfo>,
> {
    if g.len() >= 2 {
        index_groups(sub_keys(contents, g)).map_values(
            |sg: Seq<int>| sg.map_values(|l: int| files[g[l]]),
        ).filter(|x: Seq<FileInfo>| x.len() >= 2)
    } else {
        Seq::empty()
    }
}

/// The duplicate groups of the two-pass strategy, in size-bucket order.
pub open spec fn two_pass_groups(files: Seq<FileInfo>, contents: Seq<Seq<u8>>) -> Seq<
    Seq<FileInfo>,
> {
    index_groups(size_keys(files)).map_values(
        |g: Seq<int>| subgroups_of(files, contents, g),
    ).flatten()
}

/// Groups by size first, then by a prefix digest inside each size bucket of
/// at least two files; singleton buckets are classified unique without any
/// hashing.
pub struct TwoPassMethod;

impl DeduplicationMethod for TwoPassMethod {
    fn name(&self) -> (r: &str)
        ensures
            r@ == "two_pass"@,
    {
        "two_pass"
    }

    fn find_duplicates(&self, files: &Vec<FileInfo>, contents: &Vec<Vec<u8>>) -> (r: Vec<
        Vec<FileInfo>,
    >)
        ensures
            gview(r@) == two_pass_groups(files@, bytes_view(contents@)),
    {
        let ghost cv = bytes_view(contents@);
        let ghost mapped = index_groups(size_keys(files@)).map_values(
            |g: Seq<int>| subgroups_of(files@, cv, g),
        );
        let keys = compute_size_keys(files);
        let igs = group_indices_by_u64(&keys);
        proof {
            lemma_index_groups_bounds(keys@);
            assert forall|j: int, l: int|
                0 <= j < igs@.len() && 0 <= l < igs@[j]@.len() implies #[trigger] igs@[j]@[l]
                < files@.len() by {
                assert(groups_view(igs@)[j][l] == igs@[j]@[l] as int);
            }
            assert(mapped.len() == igs@.len());
        }
        let mut r: Vec<Vec<FileInfo>> = Vec::new();
        let mut j: usize = 0;
        while j < igs.len()
            invariant
                j <= igs@.len(),
                files@.len() == contents@.len(),
                cv == bytes_view(contents@),
                mapped == index_groups(size_keys(files@)).map_values(
                    |g: Seq<int>| subgroups_of(files@, cv, g),
                ),
                mapped.len() == igs@.len(),
                groups_view(igs@) == index_groups(size_keys(files@)),
                forall|a: int, l: int|
                    0 <= a < igs@.len() && 0 <= l < igs@[a]@.len() ==> #[trigger] igs@[a]@[l]
                        < files@.len(),
                gview(r@) =~= mapped.take(j as int).flatten(),
            decreases igs@.len() - j,
        {
            let ig = &igs[j];
            let ghost gj = groups_view(igs@)[j as int];
            proof {
                assert(mapped.take(j + 1) =~= mapped.take(j as int).push(mapped[j as int]));
                Seq::lemma_flatten_push(mapped.take(j as int), mapped[j as int]);
                assert(mapped[j as int] == subgroups_of(files@, cv, gj));
            }
            if ig.len() >= 2 {
                // second pass: prefix-hash the members of this size bucket
                let mut bucket_files: Vec<FileInfo> = Vec::new();
                let mut skeys: Vec<String> = Vec::new();
                let mut l: usize = 0;
                while l < ig.len()
                    invariant
                        l <= ig@.len(),
                        ig == igs@[j as int],
                        j < igs@.len(),
                        files@.len() == contents@.len(),
                        cv == bytes_view(contents@),
                        gj == groups_view(igs@)[j as int],
                        forall|a: int, b: int|
                            0 <= a < igs@.len() && 0 <= b < igs@[a]@.len() ==> #[trigger] igs@[a]@[b]
                                < files@.len(),
                        bucket_files@ =~= gj.map_values(|i: int| files@[i]).take(l as int),
                        strs_view(skeys@) =~= sub_keys(cv, gj).take(l as int),
                        skeys@.len() == l,
                    decreases ig@.len() - l,
                {
                    proof {
                        assert(igs@[j as int]@[l as int] < files@.len());
                        assert(gj[l as int] == igs@[j as int]@[l as int] as int);
                    }
                    let idx = ig[l];
                    bucket_files.push(files[idx].clone());
                    skeys.push(compute_partial_hash(contents[idx].as_slice(), TWO_PASS_HASH_LIMIT));
                    proof {
                        assert(cv[gj[l as int]] == contents@[gj[l as int]]@);
                        assert(bucket_files@ =~= gj.map_values(|i: int| files@[i]).take(l + 1));
                        assert(strs_view(skeys@) =~= sub_keys(cv, gj).take(l + 1));
                    }
                    l = l + 1;
                }
                proof {
                    let bf = gj.map_values(|i: int| files@[i]);
                    assert(bf.take(bf.len() as int) =~= bf);
                    assert(sub_keys(cv, gj).take(sub_keys(cv, gj).len() as int) =~= sub_keys(
                        cv,
                        gj,
                    ));
                    assert(strs_view(skeys@) == sub_keys(cv, gj));
                }
                let sigs = group_indices_by_str(&skeys);
                proof {
                    lemma_index_groups_bounds(strs_view(skeys@));
                    assert forall|a: int, b: int|
                        0 <= a < sigs@.len() && 0 <= b < sigs@[a]@.len()
                        implies #[trigger] sigs@[a]@[b] < bucket_files@.len() by {
                        assert(groups_view(sigs@)[a][b] == sigs@[a]@[b] as int);
                    }
                }
                let sub_all = materialize_groups(&bucket_files, &sigs);
                let mut sub_dups = filter_ge2(sub_all);
                proof {
                    // the materialized second-pass groups are the spec's
                    // subgroups of this bucket
                    let bf = gj.map_values(|i: int| files@[i]);
                    let spec_pre = index_groups(sub_keys(cv, gj)).map_values(
                        |sg: Seq<int>| sg.map_values(|l2: int| files@[gj[l2]]),
                    );
                    assert(groups_of_indices(bucket_files@, groups_view(sigs@)) =~= spec_pre) by {
                        assert forall|m: int|
                            0 <= m < index_groups(sub_keys(cv, gj)).len() implies groups_of_indices(
                            bucket_files@,
                            groups_view(sigs@),
                        )[m] == spec_pre[m] by {
                            let sg = index_groups(sub_keys(cv, gj))[m];
                            lemma_index_groups_bounds(sub_keys(cv, gj));
                            assert(groups_of_indices(bucket_files@, groups_view(sigs@))[m]
                                == sg.map_values(|i: int| bucket_files@[i]));
                            assert(spec_pre[m] == sg.map_values(|l2: int| files@[gj[l2]]));
                            let lhs = sg.map_values(|i: int| bucket_files@[i]);
                            let rhs = sg.map_values(|l2: int| files@[gj[l2]]);
                            assert(lhs =~= rhs) by {
                                assert forall|b: int| 0 <= b < sg.len() implies #[trigger] lhs[b]
                                    == rhs[b] by {
                                    assert(0 <= sg[b] < sub_keys(cv, gj).len());
                                    assert(bucket_files@[sg[b]] == bf[sg[b]]);
                                }
                            }
                        }
                    }
                    assert(gview(sub_dups@) == subgroups_of(files@, cv, gj));
                }
                let ghost r0 = r@;
                r.append(&mut sub_dups);
                proof {
                    assert(gview(r@) =~= gview(r0) + subgroups_of(files@, cv, gj)) by {
                        assert forall|a: int| 0 <= a < r@.len() implies gview(r@)[a] == (gview(r0)
                            + subgroups_of(files@, cv, gj))[a] by {
                            if a < r0.len() {
                                assert(r@[a] == r0[a]);
                            }
                        }
                    }
                    assert(gview(r@) =~= mapped.take(j + 1).flatten());
                }
            } else {
                proof {
                    assert(gj.len() == igs@[j as int]@.len());
                    assert(gj.len() < 2);
                    assert(subgroups_of(files@, cv, gj) =~= Seq::<Seq<FileInfo>>::empty());
                    assert(mapped.take(j + 1).flatten() =~= mapped.take(j as int).flatten());
                }
            }
            j = j + 1;
        }
        proof {
            assert(mapped.take(mapped.len() as int) =~= mapped);
        }
        r
    }
}

} // verus!
