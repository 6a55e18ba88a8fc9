//! The benchmark and comparison harness: runs registered strategies over one
//! input, measures them, scores each against a ground truth by comparing
//! duplicate groups as sets of path sets, and ranks them with a weighted
//! score.

use vstd::prelude::*;
use crate::benchmark::BenchmarkResult;
use crate::benchmark::ComparisonReport;
use crate::benchmark::FileInfo;
use crate::methods::bytes_view;
use crate::methods::dup_groups;
use crate::methods::full_keys;
use crate::methods::gview;
use crate::methods::partial_keys;
use crate::methods::size_keys;
use crate::methods::two_pass_groups;
use crate::methods::DeduplicationMethod;
use crate::methods::FullHashMethod;
use crate::methods::PartialHashMethod;
use crate::methods::SizeOnlyMethod;
use crate::methods::TwoPassMethod;
use crate::methods::PARTIAL_HASH_LIMIT;
use crate::models::instant_elapsed_ms;
use crate::models::instant_now;
use crate::render::generate_comparison_table;
use crate::render::table_spec;

verus! {

broadcast use {vstd::set::group_set_axioms, vstd::seq_lib::seq_to_set_is_finite};

/// The paths of a group's members, as an unordered set.
pub open spec fn path_set(g: Seq<FileInfo>) -> Set<Seq<char>> {
    g.map_values(|f: FileInfo| f.path@).to_set()
}

/// The path sets of a list of groups, as an unordered set: the shape in
/// which two partitions are compared.
pub open spec fn group_sets(gs: Seq<Seq<FileInfo>>) -> Set<Set<Seq<char>>> {
    gs.map_values(|g: Seq<FileInfo>| path_set(g)).to_set()
}

/// Whether a group's member paths include `p`.
fn contains_path(g: &Vec<FileInfo>, p: &String) -> (r: bool)
    ensures
        r == path_set(g@).contains(p@),
{
    let mut l: usize = 0;
    while l < g.len()
        invariant
            l <= g@.len(),
            forall|a: int| 0 <= a < l ==> g@[a].path@ != p@,
        decreases g@.len() - l,
    {
        if g[l].path == *p {
            proof {
                let mapped = g@.map_values(|f: FileInfo| f.path@);
                assert(mapped[l as int] == p@);
                assert(mapped.contains(p@));
            }
            return true;
        }
        l = l + 1;
    }
    proof {
        let mapped = g@.map_values(|f: FileInfo| f.path@);
        assert forall|a: int| 0 <= a < mapped.len() implies mapped[a] != p@ by {
            assert(mapped[a] == g@[a].path@);
        }
        assert(!mapped.contains(p@));
    }
    false
}

/// Whether two groups hold the same set of member paths.
fn path_set_eq(a: &Vec<FileInfo>, b: &Vec<FileInfo>) -> (r: bool)
    ensures
        r == (path_set(a@) == path_set(b@)),
{
    let mut l: usize = 0;
    while l < a.len()
        invariant
            l <= a@.len(),
            forall|q: int| 0 <= q < l ==> path_set(b@).contains(#[trigger] a@[q].path@),
        decreases a@.len() - l,
    {
        if !contains_path(b, &a[l].path) {
            proof {
                let mapped = a@.map_values(|f: FileInfo| f.path@);
                assert(mapped[l as int] == a@[l as int].path@);
                assert(mapped.contains(a@[l as int].path@));
                assert(path_set(a@).contains(a@[l as int].path@));
            }
            return false;
        }
        l = l + 1;
    }
    let mut l2: usize = 0;
    while l2 < b.len()
        invariant
            l2 <= b@.len(),
            forall|q: int| 0 <= q < a@.len() ==> path_set(b@).contains(#[trigger] a@[q].path@),
            forall|q: int| 0 <= q < l2 ==> path_set(a@).contains(#[trigger] b@[q].path@),
        decreases b@.len() - l2,
    {
        if !contains_path(a, &b[l2].path) {
            proof {
                let mapped = b@.map_values(|f: FileInfo| f.path@);
                assert(mapped[l2 as int] == b@[l2 as int].path@);
                assert(mapped.contains(b@[l2 as int].path@));
                assert(path_set(b@).contains(b@[l2 as int].path@));
            }
            return false;
        }
        l2 = l2 + 1;
    }
    proof {
        let ma = a@.map_values(|f: FileInfo| f.path@);
        let mb = b@.map_values(|f: FileInfo| f.path@);
        assert forall|x: Seq<char>| path_set(a@).contains(x) implies path_set(b@).contains(
            x,
        ) by {
            let q = choose|q: int| 0 <= q < ma.len() && ma[q] == x;
            assert(ma[q] == a@[q].path@);
        }
        assert forall|x: Seq<char>| path_set(b@).contains(x) implies path_set(a@).contains(
            x,
        ) by {
            let q = choose|q: int| 0 <= q < mb.len() && mb[q] == x;
            assert(mb[q] == b@[q].path@);
        }
        assert(path_set(a@) =~= path_set(b@));
    }
    true
}

/// Whether some group among the first `upto` of `gs` has the same path set
/// as `g`.
fn some_group_matches(gs: &Vec<Vec<FileInfo>>, upto: usize, g: &Vec<FileInfo>) -> (r: bool)
    requires
        upto <= gs@.len(),
    ensures
        r == group_sets(gview(gs@).take(upto as int)).contains(path_set(g@)),
{
    let ghost pref = gview(gs@).take(upto as int);
    let ghost mapped = pref.map_values(|gg: Seq<FileInfo>| path_set(gg));
    let mut j: usize = 0;
    while j < upto
        invariant
            j <= upto,
            upto <= gs@.len(),
            pref == gview(gs@).take(upto as int),
            mapped == pref.map_values(|gg: Seq<FileInfo>| path_set(gg)),
            forall|a: int| 0 <= a < j ==> #[trigger] mapped[a] != path_set(g@),
        decreases upto - j,
    {
        if path_set_eq(&gs[j], g) {
            proof {
                assert(pref[j as int] == gs@[j as int]@);
                assert(mapped[j as int] == path_set(g@));
                assert(mapped.contains(path_set(g@)));
            }
            return true;
        }
        proof {
            assert(pref[j as int] == gs@[j as int]@);
            assert(mapped[j as int] == path_set(gs@[j as int]@));
        }
        j = j + 1;
    }
    proof {
        assert(!mapped.contains(path_set(g@)));
    }
    false
}

/// How many distinct path sets of `det` are, respectively are not, path
/// sets of `truth`.
fn set_counts(det: &Vec<Vec<FileInfo>>, truth: &Vec<Vec<FileInfo>>) -> (r: (usize, usize))
    ensures
        r.0 == group_sets(gview(det@)).intersect(group_sets(gview(truth@))).len(),
        r.1 == group_sets(gview(det@)).difference(group_sets(gview(truth@))).len(),
{
    let ghost ts = group_sets(gview(truth@));
    proof {
        assert(gview(det@).take(0) =~= Seq::<Seq<FileInfo>>::empty());
        let m0 = Seq::<Seq<FileInfo>>::empty().map_values(|gg: Seq<FileInfo>| path_set(gg));
        assert(m0.to_set() =~= Set::<Set<Seq<char>>>::empty());
        assert(group_sets(gview(det@).take(0)).intersect(ts) =~= Set::<Set<Seq<char>>>::empty());
        assert(group_sets(gview(det@).take(0)).difference(ts) =~= Set::<Set<Seq<char>>>::empty());
    }
    let mut common: usize = 0;
    let mut extra: usize = 0;
    let mut i: usize = 0;
    while i < det.len()
        invariant
            i <= det@.len(),
            ts == group_sets(gview(truth@)),
            common <= i,
            extra <= i,
            common == group_sets(gview(det@).take(i as int)).intersect(ts).len(),
            extra == group_sets(gview(det@).take(i as int)).difference(ts).len(),
            group_sets(gview(det@).take(i as int)).finite(),
        decreases det@.len() - i,
    {
        let ghost prev = group_sets(gview(det@).take(i as int));
        let ghost ps = path_set(det@[i as int]@);
        proof {
            let mp = gview(det@).take(i + 1).map_values(|gg: Seq<FileInfo>| path_set(gg));
            let mp0 = gview(det@).take(i as int).map_values(|gg: Seq<FileInfo>| path_set(gg));
            assert(mp =~= mp0.push(ps)) by {
                assert forall|a: int| 0 <= a < mp.len() implies mp[a] == mp0.push(ps)[a] by {
                    assert(gview(det@).take(i + 1)[a] == det@[a]@);
                    if a < i {
                        assert(gview(det@).take(i as int)[a] == det@[a]@);
                    }
                }
            }
            Seq::lemma_push_to_set_commute(mp0, ps);
            assert(group_sets(gview(det@).take(i + 1)) == prev.insert(ps));
        }
        let dedup = some_group_matches(det, i, &det[i]);
        if !dedup {
            let in_truth = some_group_matches(truth, truth.len(), &det[i]);
            proof {
                assert(gview(truth@).take(truth@.len() as int) =~= gview(truth@));
                assert(!prev.contains(ps));
                if ts.contains(ps) {
                    assert(prev.insert(ps).intersect(ts) =~= prev.intersect(ts).insert(ps));
                    assert(!prev.intersect(ts).contains(ps));
                    assert(prev.insert(ps).difference(ts) =~= prev.difference(ts));
                } else {
                    assert(prev.insert(ps).intersect(ts) =~= prev.intersect(ts));
                    assert(prev.insert(ps).difference(ts) =~= prev.difference(ts).insert(ps));
                    assert(!prev.difference(ts).contains(ps));
                }
                lemma_subset_finite(prev, prev.intersect(ts));
                lemma_subset_finite(prev, prev.difference(ts));
            }
            if in_truth {
                common = common + 1;
            } else {
                extra = extra + 1;
            }
        } else {
            proof {
                assert(prev.contains(ps));
                assert(prev.insert(ps) =~= prev);
            }
        }
        i = i + 1;
    }
    proof {
        assert(gview(det@).take(det@.len() as int) =~= gview(det@));
    }
    (common, extra)
}

/// A subset of a finite set is finite.
proof fn lemma_subset_finite<A>(big: Set<A>, small: Set<A>)
    requires
        big.finite(),
        small.subset_of(big),
    ensures
        small.finite(),
{
    vstd::set_lib::lemma_len_subset(small, big);
}

/// Compares a detected partition against a reference partition by group
/// path sets: true positives, false positives, false negatives.
pub fn compare_with_ground_truth(det: &Vec<Vec<FileInfo>>, truth: &Vec<Vec<FileInfo>>) -> (r: (
    usize,
    usize,
    usize,
))
    ensures
        r.0 == group_sets(gview(det@)).intersect(group_sets(gview(truth@))).len(),
        r.1 == group_sets(gview(det@)).difference(group_sets(gview(truth@))).len(),
        r.2 == group_sets(gview(truth@)).difference(group_sets(gview(det@))).len(),
{
    let (tp, fp) = set_counts(det, truth);
    let (_, fneg) = set_counts(truth, det);
    (tp, fp, fneg)
}

/// One registered strategy.
pub enum Method {
    SizeOnly(SizeOnlyMethod),
    PartialHash(PartialHashMethod),
    FullHash(FullHashMethod),
    TwoPass(TwoPassMethod),
}

/// The name of a registered strategy.
pub open spec fn method_name_spec(m: Method) -> Seq<char> {
    match m {
        Method::SizeOnly(_) => "size_only"@,
        Method::PartialHash(_) => "partial_hash"@,
        Method::FullHash(_) => "full_hash"@,
        Method::TwoPass(_) => "two_pass"@,
    }
}

/// The duplicate groups a registered strategy finds.
pub open spec fn method_groups_spec(m: Method, files: Seq<FileInfo>, contents: Seq<Seq<u8>>) -> Seq<
    Seq<FileInfo>,
> {
    match m {
        Method::SizeOnly(_) => dup_groups(files, size_keys(files)),
        Method::PartialHash(_) => dup_groups(
            files,
            partial_keys(contents, PARTIAL_HASH_LIMIT as int),
        ),
        Method::FullHash(_) => dup_groups(files, full_keys(contents)),
        Method::TwoPass(_) => two_pass_groups(files, contents),
    }
}

impl Method {
    /// This strategy's name.
    pub fn name(&self) -> (r: &str)
        ensures
            r@ == method_name_spec(*self),
    {
        match self {
            Method::SizeOnly(m) => m.name(),
            Method::PartialHash(m) => m.name(),
            Method::FullHash(m) => m.name(),
            Method::TwoPass(m) => m.name(),
        }
    }

    /// Runs this strategy over the file list and its content buffers.
    pub fn find_duplicates(&self, files: &Vec<FileInfo>, contents: &Vec<Vec<u8>>) -> (r: Vec<
        Vec<FileInfo>,
    >)
        requires
            files@.len() == contents@.len(),
        ensures
            gview(r@) == method_groups_spec(*self, files@, bytes_view(contents@)),
    {
        match self {
            Method::SizeOnly(m) => m.find_duplicates(files, contents),
            Method::PartialHash(m) => m.find_duplicates(files, contents),
            Method::FullHash(m) => m.find_duplicates(files, contents),
            Method::TwoPass(m) => m.find_duplicates(files, contents),
        }
    }
}

/// Every group a strategy reports has at least two members, and the groups'
/// members together never outnumber the input files.
pub proof fn lemma_method_groups_wf(m: Method, files: Seq<FileInfo>, contents: Seq<Seq<u8>>)
    requires
        contents.len() == files.len(),
    ensures
        forall|g: int|
            0 <= g < method_groups_spec(m, files, contents).len() ==> #[trigger] method_groups_spec(
                m,
                files,
                contents,
            )[g].len() >= 2,
        method_groups_spec(m, files, contents).flatten().len() <= files.len(),
{
    let gs = method_groups_spec(m, files, contents);
    match m {
        Method::SizeOnly(_) => {
            crate::laws::lemma_dup_groups_member_bound(files, size_keys(files));
            assert forall|g: int| 0 <= g < gs.len() implies #[trigger] gs[g].len() >= 2 by {
                Seq::lemma_filter_pred(
                    crate::methods::groups_of_indices(
                        files,
                        crate::grouping::index_groups(size_keys(files)),
                    ),
                    (|x: Seq<FileInfo>| x.len() >= 2),
                    g,
                );
            }
        },
        Method::PartialHash(_) => {
            crate::laws::lemma_dup_groups_member_bound(
                files,
                partial_keys(contents, PARTIAL_HASH_LIMIT as int),
            );
            assert forall|g: int| 0 <= g < gs.len() implies #[trigger] gs[g].len() >= 2 by {
                Seq::lemma_filter_pred(
                    crate::methods::groups_of_indices(
                        files,
                        crate::grouping::index_groups(
                            partial_keys(contents, PARTIAL_HASH_LIMIT as int),
                        ),
                    ),
                    (|x: Seq<FileInfo>| x.len() >= 2),
                    g,
                );
            }
        },
        Method::FullHash(_) => {
            crate::laws::lemma_dup_groups_member_bound(files, full_keys(contents));
            assert forall|g: int| 0 <= g < gs.len() implies #[trigger] gs[g].len() >= 2 by {
                Seq::lemma_filter_pred(
                    crate::methods::groups_of_indices(
                        files,
                        crate::grouping::index_groups(full_keys(contents)),
                    ),
                    (|x: Seq<FileInfo>| x.len() >= 2),
                    g,
                );
            }
        },
        Method::TwoPass(_) => {
            crate::laws::lemma_two_pass_member_bound(files, contents);
            let igs = crate::grouping::index_groups(size_keys(files));
            let mapped = igs.map_values(
                |g2: Seq<int>| crate::methods::subgroups_of(files, contents, g2),
            );
            assert forall|g: int| 0 <= g < gs.len() implies #[trigger] gs[g].len() >= 2 by {
                Seq::lemma_index_contains(gs, g);
                assert(mapped.flatten().contains(gs[g]));
                crate::laws::lemma_flatten_elem_origin(mapped, gs[g]);
                let l = choose|l: int| 0 <= l < mapped.len() && #[trigger] mapped[l].contains(
                    gs[g],
                );
                let sb = igs[l];
                assert(mapped[l] == crate::methods::subgroups_of(files, contents, sb));
                if sb.len() < 2 {
                    assert(crate::methods::subgroups_of(files, contents, sb)
                        =~= Seq::<Seq<FileInfo>>::empty());
                    assert(false);
                }
                let pre = crate::grouping::index_groups(
                    crate::methods::sub_keys(contents, sb),
                ).map_values(|sg: Seq<int>| sg.map_values(|a: int| files[sb[a]]));
                let filt = pre.filter(|x: Seq<FileInfo>| x.len() >= 2);
                assert(filt.contains(gs[g]));
                let q = choose|q: int| 0 <= q < filt.len() && #[trigger] filt[q] == gs[g];
                Seq::lemma_filter_pred(pre, (|x: Seq<FileInfo>| x.len() >= 2), q);
            }
        },
    }
}

/// Caps an exact tally at the largest storable value.
pub open spec fn clamp_u64_spec(x: int) -> int {
    if x > u64::MAX {
        u64::MAX as int
    } else {
        x
    }
}

/// The bytes recoverable by deduplicating a list of groups: each group
/// keeps one copy, every further member's bytes are saved, counting the
/// first member's size for each.
pub open spec fn space_saved_spec(gs: Seq<Seq<FileInfo>>) -> int
    decreases gs.len(),
{
    if gs.len() == 0 {
        0
    } else {
        space_saved_spec(gs.drop_last()) + if gs.last().len() >= 1 {
            gs.last()[0].size * (gs.last().len() - 1)
        } else {
            0int
        }
    }
}

/// With only non-empty groups, there are at least as many members as
/// groups.
proof fn lemma_flatten_len_ge_count(s: Seq<Seq<FileInfo>>)
    requires
        forall|l: int| 0 <= l < s.len() ==> #[trigger] s[l].len() >= 1,
    ensures
        s.flatten().len() >= s.len(),
    decreases s.len(),
{
    if s.len() > 0 {
        let sp = s.drop_last();
        assert(forall|l: int| 0 <= l < sp.len() ==> #[trigger] sp[l].len() >= 1) by {
            assert(forall|l: int| 0 <= l < sp.len() ==> sp[l] == s[l]);
        }
        lemma_flatten_len_ge_count(sp);
        assert(s =~= sp.push(s.last()));
        assert(s == sp.push(s.last()));
        Seq::lemma_flatten_push(sp, s.last());
    }
}

/// Measures one strategy's output: counts, saved bytes, and the accuracy
/// tallies against the reference partition.
fn analyze_result(
    method_name: String,
    groups: &Vec<Vec<FileInfo>>,
    all_files: &Vec<FileInfo>,
    truth: &Vec<Vec<FileInfo>>,
    duration_ms: u64,
    memory_used: u64,
) -> (r: BenchmarkResult)
    requires
        forall|g: int| 0 <= g < groups@.len() ==> (#[trigger] groups@[g])@.len() >= 1,
        gview(groups@).flatten().len() <= all_files@.len(),
    ensures
        r.method_name == method_name,
        r.total_files == all_files@.len(),
        r.duplicates_found as int == gview(groups@).flatten().len() - groups@.len(),
        r.unique_files as int == all_files@.len() - gview(groups@).flatten().len()
            + groups@.len(),
        r.space_saved as int == clamp_u64_spec(space_saved_spec(gview(groups@))),
        r.execution_time_ms == duration_ms,
        r.memory_usage == memory_used,
        r.true_positives as int == group_sets(gview(groups@)).intersect(
            group_sets(gview(truth@)),
        ).len(),
        r.false_positives as int == group_sets(gview(groups@)).difference(
            group_sets(gview(truth@)),
        ).len(),
        r.false_negatives as int == group_sets(gview(truth@)).difference(
            group_sets(gview(groups@)),
        ).len(),
{
    let ghost gv = gview(groups@);
    proof {
        assert forall|l: int| 0 <= l < gv.len() implies #[trigger] gv[l].len() >= 1 by {
            assert(gv[l] == groups@[l]@);
        }
        lemma_flatten_len_ge_count(gv);
        assert(gv.skip(0) =~= gv);
    }
    // total members across all groups
    let total_files_count = all_files.len();
    let mut members: usize = 0;
    let mut j: usize = 0;
    while j < groups.len()
        invariant
            j <= groups@.len(),
            gv == gview(groups@),
            total_files_count == all_files@.len(),
            gv.flatten().len() <= total_files_count,
            members + gv.skip(j as int).flatten().len() == gv.flatten().len(),
        decreases groups@.len() - j,
    {
        proof {
            assert(gv.skip(j as int).drop_first() =~= gv.skip(j + 1));
            assert(gv.skip(j as int).first() == gv[j as int]);
            assert(gv.skip(j as int).flatten() == gv.skip(j as int).first() + gv.skip(
                j + 1,
            ).flatten());
            assert(gv[j as int] == groups@[j as int]@);
            assert(members + gv[j as int].len() <= gv.flatten().len());
        }
        members = members + groups[j].len();
        j = j + 1;
    }
    proof {
        assert(gv.skip(groups@.len() as int).flatten() =~= Seq::<FileInfo>::empty());
    }
    let total_duplicates = members - groups.len();
    proof {
        lemma_flatten_len_ge_count(gv);
    }
    let unique_files = all_files.len() - members + groups.len();
    // saved bytes, saturating at the largest storable value
    let cap: u128 = u64::MAX as u128;
    let mut saved: u128 = 0;
    let mut j2: usize = 0;
    while j2 < groups.len()
        invariant
            j2 <= groups@.len(),
            gv == gview(groups@),
            forall|l: int| 0 <= l < gv.len() ==> #[trigger] gv[l].len() >= 1,
            cap == u64::MAX as u128,
            saved as int == clamp_u64_spec(space_saved_spec(gv.take(j2 as int))),
            saved <= cap,
        decreases groups@.len() - j2,
    {
        let g = &groups[j2];
        proof {
            assert(gv[j2 as int] == groups@[j2 as int]@);
        }
        let a: u128 = g[0].size as u128;
        let b: u128 = (g.len() - 1) as u128;
        proof {
            assert(a * b <= u128::MAX) by (nonlinear_arith)
                requires
                    a <= 0xffff_ffff_ffff_ffffu128,
                    b <= 0xffff_ffff_ffff_ffffu128,
            ;
        }
        let term: u128 = a * b;
        proof {
            assert(gv.take(j2 + 1).drop_last() =~= gv.take(j2 as int));
            assert(gv.take(j2 + 1).last() == gv[j2 as int]);
            assert(term as int == gv[j2 as int][0].size * (gv[j2 as int].len() - 1));
        }
        if term > cap - saved {
            saved = cap;
        } else {
            saved = saved + term;
        }
        j2 = j2 + 1;
    }
    proof {
        assert(gv.take(groups@.len() as int) =~= gv);
    }
    let space_saved = saved as u64;
    let (tp, fp, fneg) = compare_with_ground_truth(groups, truth);
    BenchmarkResult {
        method_name,
        total_files: all_files.len(),
        duplicates_found: total_duplicates,
        unique_files,
        space_saved,
        execution_time_ms: duration_ms,
        memory_usage: memory_used,
        true_positives: tp,
        false_positives: fp,
        false_negatives: fneg,
    }
}

/// The ranking score of one result, in thousand-millionth units: forty
/// percent weight on accuracy, thirty on inverse time, twenty on inverse
/// memory, ten on megabytes saved; divisions truncate.
pub open spec fn score_spec(r: BenchmarkResult) -> int {
    let d = r.true_positives + r.false_positives + r.false_negatives;
    let acc_term = if d == 0 {
        400_000_000int
    } else {
        400_000_000 * r.true_positives / d as int
    };
    acc_term + 300_000_000_000int / (r.execution_time_ms + 1) as int + 200_000_000int / (
    r.memory_usage + 1) as int + 100 * r.space_saved
}

/// Computes a result's ranking score.
fn score_of(r: &BenchmarkResult) -> (s: u128)
    ensures
        s as int == score_spec(*r),
{
    let tp = r.true_positives as u128;
    let d = tp + (r.false_positives as u128) + (r.false_negatives as u128);
    let acc_term: u128 = if d == 0 {
        400_000_000
    } else {
        400_000_000 * tp / d
    };
    let time_term: u128 = 300_000_000_000 / ((r.execution_time_ms as u128) + 1);
    let mem_term: u128 = 200_000_000 / ((r.memory_usage as u128) + 1);
    let space_term: u128 = 100 * (r.space_saved as u128);
    proof {
        assert(acc_term <= 400_000_000 * tp + 400_000_000);
    }
    acc_term + time_term + mem_term + space_term
}

/// The position of the winning result among the first `end`: the highest
/// score, earliest registration winning ties.
pub open spec fn best_index_upto(rs: Seq<BenchmarkResult>, end: int) -> int
    decreases end,
{
    if end <= 1 {
        0
    } else {
        let b = best_index_upto(rs, end - 1);
        if score_spec(rs[end - 1]) > score_spec(rs[b]) {
            end - 1
        } else {
            b
        }
    }
}

/// The winning index is in range.
pub proof fn lemma_best_index_bounds(rs: Seq<BenchmarkResult>, end: int)
    requires
        end >= 1,
    ensures
        0 <= best_index_upto(rs, end) < end,
    decreases end,
{
    if end > 1 {
        lemma_best_index_bounds(rs, end - 1);
    }
}

/// The winning strategy's name: that of the highest-scoring result, the
/// first on a tie, or `none` without results.
pub open spec fn best_name_spec(rs: Seq<BenchmarkResult>) -> Seq<char> {
    if rs.len() == 0 {
        "none"@
    } else {
        rs[best_index_upto(rs, rs.len() as int)].method_name@
    }
}

/// Picks the winning strategy of a list of results.
pub fn determine_best_method(results: &Vec<BenchmarkResult>) -> (r: String)
    ensures
        r@ == best_name_spec(results@),
{
    if results.len() == 0 {
        return String::from_str("none");
    }
    let mut bi: usize = 0;
    let mut bscore = score_of(&results[0]);
    let mut i: usize = 1;
    while i < results.len()
        invariant
            1 <= i <= results@.len(),
            bi < i,
            bi as int == best_index_upto(results@, i as int),
            bscore as int == score_spec(results@[bi as int]),
        decreases results@.len() - i,
    {
        let s = score_of(&results[i]);
        if s > bscore {
            bi = i;
            bscore = s;
        }
        i = i + 1;
    }
    results[bi].method_name.clone()
}

/// Clones a list of groups.
fn clone_groups(gs: &Vec<Vec<FileInfo>>) -> (r: Vec<Vec<FileInfo>>)
    ensures
        gview(r@) == gview(gs@),
{
    let mut r: Vec<Vec<FileInfo>> = Vec::new();
    let mut j: usize = 0;
    while j < gs.len()
        invariant
            j <= gs@.len(),
            gview(r@) =~= gview(gs@).take(j as int),
        decreases gs@.len() - j,
    {
        let cloned_group = gs[j].clone();
        proof {
            assert(cloned_group@ =~= gs@[j as int]@) by {
                assert forall|a: int| 0 <= a < gs@[j as int]@.len()
                    implies cloned_group@[a] == gs@[j as int]@[a] by {
                    assert(vstd::pervasive::cloned::<FileInfo>(
                        gs@[j as int]@[a],
                        cloned_group@[a],
                    ));
                }
            }
        }
        let ghost r0 = r@;
        let ghost cg = cloned_group@;
        r.push(cloned_group);
        proof {
            assert(gview(r0).len() == gview(gs@).take(j as int).len());
            assert(r0.len() == j);
            assert(r@[j as int]@ == cg);
            assert forall|a: int| 0 <= a < r@.len() implies gview(r@)[a] == gview(gs@).take(
                j + 1,
            )[a] by {
                assert(gview(r@)[a] == r@[a]@);
                if a < r0.len() {
                    assert(r@[a] == r0[a]);
                    assert(gview(r0)[a] == r0[a]@);
                }
            }
            assert(gview(r@) =~= gview(gs@).take(j + 1));
        }
        j = j + 1;
    }
    proof {
        assert(gview(gs@).take(gs@.len() as int) =~= gview(gs@));
    }
    r
}

/// Relies on sysinfo's `System::new`, `System::refresh_memory` and
/// `System::used_memory`: a best-effort sample of the machine's used
/// memory, in bytes. The value depends on the machine, so nothing is
/// promised of it.
#[verifier::external_body]
fn get_memory_usage() -> u64 {
    let mut system = sysinfo::System::new();
    system.refresh_memory();
    system.used_memory()
}

/// The reference partition strategies are scored against: the supplied
/// ground truth, or the full-hash grouping when none was supplied.
pub open spec fn truth_of(
    gt: Option<Vec<Vec<FileInfo>>>,
    files: Seq<FileInfo>,
    contents: Seq<Seq<u8>>,
) -> Seq<Seq<FileInfo>> {
    match gt {
        Some(t) => gview(t@),
        None => dup_groups(files, full_keys(contents)),
    }
}

/// Whether one benchmark record reports strategy `m` faithfully: every
/// field but the time and memory samples is determined by the input and
/// the reference partition.
pub open spec fn result_matches(
    m: Method,
    files: Seq<FileInfo>,
    contents: Seq<Seq<u8>>,
    ts: Seq<Seq<FileInfo>>,
    r: BenchmarkResult,
) -> bool {
    let gs = method_groups_spec(m, files, contents);
    &&& r.method_name@ == method_name_spec(m)
    &&& r.total_files == files.len()
    &&& r.duplicates_found as int == gs.flatten().len() - gs.len()
    &&& r.unique_files as int == files.len() - gs.flatten().len() + gs.len()
    &&& r.space_saved as int == clamp_u64_spec(space_saved_spec(gs))
    &&& r.true_positives as int == group_sets(gs).intersect(group_sets(ts)).len()
    &&& r.false_positives as int == group_sets(gs).difference(group_sets(ts)).len()
    &&& r.false_negatives as int == group_sets(ts).difference(group_sets(gs)).len()
}

/// Runs registered strategies over one immutable input, measures and scores
/// each against the ground truth, and ranks them.
pub struct MethodComparator {
    pub methods: Vec<Method>,
    pub ground_truth: Option<Vec<Vec<FileInfo>>>,
}

impl MethodComparator {
    /// A comparator with no strategies and no ground truth.
    pub fn new() -> (r: Self)
        ensures
            r.methods@.len() == 0,
            r.ground_truth is None,
    {
        MethodComparator { methods: Vec::new(), ground_truth: None }
    }

    /// Registers one more strategy; already-registered strategies keep
    /// their order.
    pub fn add_method(&mut self, method: Method)
        ensures
            final(self).methods@ == old(self).methods@.push(method),
            final(self).ground_truth == old(self).ground_truth,
    {
        self.methods.push(method);
    }

    /// Supplies the reference partition that accuracy is measured against.
    pub fn set_ground_truth(&mut self, truth: Vec<Vec<FileInfo>>)
        ensures
            final(self).methods@ == old(self).methods@,
            final(self).ground_truth == Some(truth),
    {
        self.ground_truth = Some(truth);
    }

    /// Runs every registered strategy once over the same input, measures
    /// wall-clock time and memory growth, scores each result against the
    /// reference partition, and renders the ranked report. Time and memory
    /// come from the clock and the machine; every other reported figure is
    /// a function of the input.
    pub fn compare_methods(&self, test_files: &Vec<FileInfo>, contents: &Vec<Vec<u8>>) -> (rep:
        ComparisonReport)
        requires
            test_files@.len() == contents@.len(),
        ensures
            rep.results@.len() == self.methods@.len(),
            forall|k: int|
                0 <= k < self.methods@.len() ==> result_matches(
                    self.methods@[k],
                    test_files@,
                    bytes_view(contents@),
                    truth_of(self.ground_truth, test_files@, bytes_view(contents@)),
                    #[trigger] rep.results@[k],
                ),
            rep.best_method@ == best_name_spec(rep.results@),
            rep.comparison_table@ == table_spec(rep.results@),
    {
        let ghost cv = bytes_view(contents@);
        let ghost ts = truth_of(self.ground_truth, test_files@, cv);
        let truth_groups: Vec<Vec<FileInfo>> = match &self.ground_truth {
            Some(t) => clone_groups(t),
            None => {
                let full = FullHashMethod;
                full.find_duplicates(test_files, contents)
            },
        };
        proof {
            assert(gview(truth_groups@) == ts);
        }
        let mut results: Vec<BenchmarkResult> = Vec::new();
        let mut k: usize = 0;
        while k < self.methods.len()
            invariant
                k <= self.methods@.len(),
                test_files@.len() == contents@.len(),
                cv == bytes_view(contents@),
                ts == truth_of(self.ground_truth, test_files@, cv),
                gview(truth_groups@) == ts,
                results@.len() == k,
                forall|a: int|
                    0 <= a < k ==> result_matches(
                        self.methods@[a],
                        test_files@,
                        cv,
                        ts,
                        #[trigger] results@[a],
                    ),
            decreases self.methods@.len() - k,
        {
            let m = &self.methods[k];
            let name = String::from_str(m.name());
            let start = instant_now();
            let memory_before = get_memory_usage();
            let groups = m.find_duplicates(test_files, contents);
            let duration_ms = instant_elapsed_ms(&start);
            let memory_after = get_memory_usage();
            let memory_delta = if memory_after >= memory_before {
                memory_after - memory_before
            } else {
                0
            };
            proof {
                lemma_method_groups_wf(*m, test_files@, cv);
                assert forall|g: int| 0 <= g < groups@.len() implies (
                #[trigger] groups@[g])@.len() >= 1 by {
                    assert(gview(groups@)[g] == groups@[g]@);
                }
            }
            let r = analyze_result(name, &groups, test_files, &truth_groups, duration_ms,
                memory_delta);
            results.push(r);
            k = k + 1;
        }
        let best_method = determine_best_method(&results);
        let comparison_table = generate_comparison_table(&results);
        ComparisonReport { results, best_method, comparison_table }
    }
}

/// Accuracy sanity: a partition scored against itself as ground truth has
/// every detected group a true positive, no false positives, no false
/// negatives, and full accuracy.
pub proof fn lemma_accuracy_self(gs: Seq<Seq<FileInfo>>)
    ensures
        group_sets(gs).intersect(group_sets(gs)) =~= group_sets(gs),
        group_sets(gs).difference(group_sets(gs)) =~= Set::<Set<Seq<char>>>::empty(),
        crate::benchmark::accuracy_millionths_spec(
            group_sets(gs).intersect(group_sets(gs)).len() as int,
            0,
            0,
        ) == 1_000_000,
{
    let tp = group_sets(gs).intersect(group_sets(gs)).len() as int;
    if tp != 0 {
        vstd::arithmetic::div_mod::lemma_div_multiples_vanish(1_000_000, tp);
        assert(tp * 1_000_000 == 1_000_000 * tp) by (nonlinear_arith);
    }
}

} // verus!
