//! The plugin pipeline: a shared result shape in which every input file is
//! tagged unique or duplicate, and the plugins that produce it.

use vstd::prelude::*;
use vstd::string::StrSliceExecFns;
use vstd::string::StringExecFns;
use crate::benchmark::FileInfo;
use crate::grouping::index_groups;
use crate::grouping::group_indices_by_str;
use crate::grouping::groups_view;
use crate::grouping::strs_view;
use crate::hashing::full_hash_key;
use crate::methods::bytes_view;
use crate::methods::compute_full_keys;
use crate::methods::full_keys;
use crate::methods::lemma_index_groups_bounds;

verus! {

/// The membership of one file in a strategy's partition.
#[derive(Debug, Clone, Copy, PartialEq, Eq, Structural)]
pub enum IsUnique {
    Unique,
    Duplicate,
}

/// One file as a plugin reports it: identity, size, the fingerprint the
/// plugin grouped it by, its membership, and the reporting plugin's name.
#[derive(Debug)]
pub struct ResultFileInfo {
    pub path: String,
    pub name: String,
    pub size: u64,
    pub hash: String,
    pub is_unique: IsUnique,
    pub plugin_type: String,
}

impl Clone for ResultFileInfo {
    fn clone(&self) -> (r: Self)
        ensures
            r == *self,
    {
        ResultFileInfo {
            path: self.path.clone(),
            name: self.name.clone(),
            size: self.size,
            hash: self.hash.clone(),
            is_unique: self.is_unique,
            plugin_type: self.plugin_type.clone(),
        }
    }
}

/// A plugin's partition of its input: the files found unique, and the
/// groups of files found duplicate.
#[derive(Debug)]
pub struct PluginResult {
    pub unique_files: Vec<ResultFileInfo>,
    pub duplicate_files: Vec<Vec<ResultFileInfo>>,
}

/// The characters after the last occurrence of `c`; the whole sequence when
/// `c` does not occur.
pub open spec fn suffix_after_last(p: Seq<char>, c: char) -> Seq<char>
    decreases p.len(),
{
    if p.len() == 0 {
        Seq::empty()
    } else if p.last() == c {
        Seq::empty()
    } else {
        suffix_after_last(p.drop_last(), c).push(p.last())
    }
}

/// The file name of a path: what follows the last separator, or `unknown`
/// when that is empty.
pub open spec fn file_name_spec(p: Seq<char>) -> Seq<char> {
    let nm = suffix_after_last(p, '/');
    if nm.len() == 0 {
        "unknown"@
    } else {
        nm
    }
}

/// With a separator at `l` and none after it, the suffix after the last
/// separator is everything past `l`.
proof fn lemma_suffix_after_last_at(p: Seq<char>, c: char, l: int)
    requires
        0 <= l < p.len(),
        p[l] == c,
        forall|m: int| l < m < p.len() ==> p[m] != c,
    ensures
        suffix_after_last(p, c) == p.subrange(l + 1, p.len() as int),
    decreases p.len(),
{
    if l == p.len() - 1 {
        assert(p.last() == c);
        assert(suffix_after_last(p, c) =~= p.subrange(l + 1, p.len() as int));
    } else {
        assert(p.last() != c);
        let pp = p.drop_last();
        assert(pp[l] == c);
        lemma_suffix_after_last_at(pp, c, l);
        assert(pp.subrange(l + 1, pp.len() as int) =~= p.subrange(l + 1, p.len() - 1));
        assert(suffix_after_last(p, c) =~= p.subrange(l + 1, p.len() as int));
    }
}

/// Without any separator, the suffix after the last separator is the whole
/// sequence.
proof fn lemma_suffix_after_last_none(p: Seq<char>, c: char)
    requires
        forall|m: int| 0 <= m < p.len() ==> p[m] != c,
    ensures
        suffix_after_last(p, c) == p,
    decreases p.len(),
{
    if p.len() > 0 {
        assert(p.last() != c);
        let pp = p.drop_last();
        assert(forall|m: int| 0 <= m < pp.len() ==> pp[m] != c);
        lemma_suffix_after_last_none(pp, c);
        assert(suffix_after_last(p, c) =~= p);
    }
}

/// The file name of a path string: the segment after the last `/`, or
/// `unknown` when the path ends in a separator or is empty.
pub fn file_name_of(path: &String) -> (r: String)
    ensures
        r@ == file_name_spec(path@),
{
    let s = path.as_str();
    let n = s.unicode_len();
    let mut last: Option<usize> = None;
    let mut k: usize = 0;
    while k < n
        invariant
            k <= n,
            n == s@.len(),
            s@ == path@,
            match last {
                Some(l) => l < k && s@[l as int] == '/' && forall|m: int|
                    l < m < k ==> s@[m] != '/',
                None => forall|m: int| 0 <= m < k ==> s@[m] != '/',
            },
        decreases n - k,
    {
        if s.get_char(k) == '/' {
            last = Some(k);
        }
        k = k + 1;
    }
    match last {
        Some(l) => {
            proof {
                lemma_suffix_after_last_at(path@, '/', l as int);
            }
            if l + 1 == n {
                String::from_str("unknown")
            } else {
                let nm = s.substring_char(l + 1, n);
                nm.to_owned()
            }
        },
        None => {
            proof {
                lemma_suffix_after_last_none(path@, '/');
            }
            if n == 0 {
                String::from_str("unknown")
            } else {
                proof {
                    assert(path@.subrange(0, path@.len() as int) =~= path@);
                }
                path.clone()
            }
        },
    }
}

/// Whether a reported file record carries exactly a file's identity with
/// the given fingerprint, membership and plugin name.
pub open spec fn rfi_matches(
    r: ResultFileInfo,
    f: FileInfo,
    hash: Seq<char>,
    uniq: IsUnique,
    ptype: Seq<char>,
) -> bool {
    &&& r.path@ == f.path@
    &&& r.name@ == file_name_spec(f.path@)
    &&& r.size == f.size
    &&& r.hash@ == hash
    &&& r.is_unique == uniq
    &&& r.plugin_type@ == ptype
}

/// Builds the report record of one file.
pub fn into_result_file_info(
    path: &String,
    size: u64,
    hash: String,
    is_unique: IsUnique,
    plugin_type: String,
) -> (r: ResultFileInfo)
    ensures
        r.path@ == path@,
        r.name@ == file_name_spec(path@),
        r.size == size,
        r.hash == hash,
        r.is_unique == is_unique,
        r.plugin_type == plugin_type,
{
    let name = file_name_of(path);
    ResultFileInfo { path: path.clone(), name, size, hash, is_unique, plugin_type }
}

/// What a full-hash plugin run reports: one singleton bucket per unique
/// file, tagged unique, and one record per member of each larger bucket,
/// tagged duplicate; every record carries the bucket's hex digest.
pub open spec fn full_hash_plugin_result_spec(
    files: Seq<FileInfo>,
    contents: Seq<Seq<u8>>,
    pr: PluginResult,
) -> bool {
    let keys = full_keys(contents);
    let singles = index_groups(keys).filter(|g: Seq<int>| g.len() == 1);
    let bigs = index_groups(keys).filter(|g: Seq<int>| g.len() >= 2);
    &&& pr.unique_files@.len() == singles.len()
    &&& forall|u: int|
        0 <= u < singles.len() ==> rfi_matches(
            #[trigger] pr.unique_files@[u],
            files[singles[u][0]],
            keys[singles[u][0]],
            IsUnique::Unique,
            "full_hash"@,
        )
    &&& pr.duplicate_files@.len() == bigs.len()
    &&& forall|g: int| 0 <= g < bigs.len() ==> (#[trigger] pr.duplicate_files@[g])@.len()
        == bigs[g].len()
    &&& forall|g: int, m: int|
        0 <= g < bigs.len() && 0 <= m < bigs[g].len() ==> rfi_matches(
            #[trigger] pr.duplicate_files@[g]@[m],
            files[bigs[g][m]],
            keys[bigs[g][m]],
            IsUnique::Duplicate,
            "full_hash"@,
        )
}

/// Groups files by their whole-content digest and reports every file with
/// its membership.
pub struct FullHashPlugin;

impl FullHashPlugin {
    /// This plugin's name.
    pub fn name(&self) -> (r: &str)
        ensures
            r@ == "full_hash"@,
    {
        "full_hash"
    }

    /// Partitions the files by whole-content digest. Every input file is
    /// reported exactly once, tagged unique when its digest bucket holds it
    /// alone and duplicate otherwise.
    pub fn exec(&self, files: &Vec<FileInfo>, contents: &Vec<Vec<u8>>) -> (r: Result<
        PluginResult,
        String,
    >)
        requires
            files@.len() == contents@.len(),
        ensures
            r matches Ok(pr) && full_hash_plugin_result_spec(files@, bytes_view(contents@), pr),
    {
        let ghost cv = bytes_view(contents@);
        let ghost keys_spec = full_keys(cv);
        let ghost singles = index_groups(keys_spec).filter(|g: Seq<int>| g.len() == 1);
        let ghost bigs = index_groups(keys_spec).filter(|g: Seq<int>| g.len() >= 2);
        let keys = compute_full_keys(contents);
        let igs = group_indices_by_str(&keys);
        proof {
            lemma_index_groups_bounds(keys_spec);
            assert(strs_view(keys@) == keys_spec);
            assert forall|j: int, l: int|
                0 <= j < igs@.len() && 0 <= l < igs@[j]@.len() implies #[trigger] igs@[j]@[l]
                < files@.len() by {
                assert(groups_view(igs@)[j][l] == igs@[j]@[l] as int);
            }
        }
        let mut unique_files: Vec<ResultFileInfo> = Vec::new();
        let mut duplicate_files: Vec<Vec<ResultFileInfo>> = Vec::new();
        let mut j: usize = 0;
        while j < igs.len()
            invariant
                j <= igs@.len(),
                files@.len() == contents@.len(),
                cv == bytes_view(contents@),
                keys_spec == full_keys(cv),
                keys_spec.len() == files@.len(),
                strs_view(keys@) == keys_spec,
                keys@.len() == files@.len(),
                singles == index_groups(keys_spec).filter(|g: Seq<int>| g.len() == 1),
                bigs == index_groups(keys_spec).filter(|g: Seq<int>| g.len() >= 2),
                groups_view(igs@) == index_groups(keys_spec),
                forall|a: int, l: int|
                    0 <= a < igs@.len() && 0 <= l < igs@[a]@.len() ==> #[trigger] igs@[a]@[l]
                        < files@.len(),
                ({
                    let sp = index_groups(keys_spec).take(j as int).filter(
                        |g: Seq<int>| g.len() == 1,
                    );
                    &&& unique_files@.len() == sp.len()
                    &&& forall|u: int|
                        0 <= u < sp.len() ==> rfi_matches(
                            #[trigger] unique_files@[u],
                            files@[sp[u][0]],
                            keys_spec[sp[u][0]],
                            IsUnique::Unique,
                            "full_hash"@,
                        )
                }),
                ({
                    let bp = index_groups(keys_spec).take(j as int).filter(
                        |g: Seq<int>| g.len() >= 2,
                    );
                    &&& duplicate_files@.len() == bp.len()
                    &&& forall|g: int| 0 <= g < bp.len() ==> (#[trigger] duplicate_files@[g])@.len()
                        == bp[g].len()
                    &&& forall|g: int, m: int|
                        0 <= g < bp.len() && 0 <= m < bp[g].len() ==> rfi_matches(
                            #[trigger] duplicate_files@[g]@[m],
                            files@[bp[g][m]],
                            keys_spec[bp[g][m]],
                            IsUnique::Duplicate,
                            "full_hash"@,
                        )
                }),
            decreases igs@.len() - j,
        {
            let ghost gj = groups_view(igs@)[j as int];
            proof {
                assert(index_groups(keys_spec).take(j + 1) =~= index_groups(keys_spec).take(
                    j as int,
                ).push(gj));
                Seq::lemma_filter_push(
                    index_groups(keys_spec).take(j as int),
                    gj,
                    (|g: Seq<int>| g.len() == 1),
                );
                Seq::lemma_filter_push(
                    index_groups(keys_spec).take(j as int),
                    gj,
                    (|g: Seq<int>| g.len() >= 2),
                );
            }
            let ig = &igs[j];
            if ig.len() == 1 {
                let idx = ig[0];
                proof {
                    assert(gj[0] == igs@[j as int]@[0] as int);
                    assert(idx < files@.len());
                    assert(strs_view(keys@)[idx as int] == keys@[idx as int]@);
                }
                let ghost u0 = unique_files@;
                let rfi = into_result_file_info(
                    &files[idx].path,
                    files[idx].size,
                    keys[idx].clone(),
                    IsUnique::Unique,
                    String::from_str("full_hash"),
                );
                unique_files.push(rfi);
                proof {
                    let sp = index_groups(keys_spec).take(j + 1).filter(
                        |g: Seq<int>| g.len() == 1,
                    );
                    assert forall|u: int| 0 <= u < sp.len() implies rfi_matches(
                        #[trigger] unique_files@[u],
                        files@[sp[u][0]],
                        keys_spec[sp[u][0]],
                        IsUnique::Unique,
                        "full_hash"@,
                    ) by {
                        if u < u0.len() {
                            assert(unique_files@[u] == u0[u]);
                        } else {
                            assert(sp[u] == gj);
                            assert(unique_files@[u] == unique_files@.last());
                        }
                    }
                }
            } else {
                let mut group: Vec<ResultFileInfo> = Vec::new();
                let mut m: usize = 0;
                while m < ig.len()
                    invariant
                        m <= ig@.len(),
                        ig == igs@[j as int],
                        j < igs@.len(),
                        files@.len() == contents@.len(),
                        keys_spec.len() == files@.len(),
                        strs_view(keys@) == keys_spec,
                        keys@.len() == files@.len(),
                        gj == groups_view(igs@)[j as int],
                        forall|a: int, b: int|
                            0 <= a < igs@.len() && 0 <= b < igs@[a]@.len() ==> #[trigger] igs@[a]@[b]
                                < files@.len(),
                        group@.len() == m,
                        forall|q: int|
                            0 <= q < m ==> rfi_matches(
                                #[trigger] group@[q],
                                files@[gj[q]],
                                keys_spec[gj[q]],
                                IsUnique::Duplicate,
                                "full_hash"@,
                            ),
                    decreases ig@.len() - m,
                {
                    let idx = ig[m];
                    proof {
                        assert(gj[m as int] == igs@[j as int]@[m as int] as int);
                        assert(idx < files@.len());
                        assert(strs_view(keys@)[idx as int] == keys@[idx as int]@);
                    }
                    let rfi = into_result_file_info(
                        &files[idx].path,
                        files[idx].size,
                        keys[idx].clone(),
                        IsUnique::Duplicate,
                        String::from_str("full_hash"),
                    );
                    group.push(rfi);
                    m = m + 1;
                }
                let ghost d0 = duplicate_files@;
                duplicate_files.push(group);
                proof {
                    assert(gj.len() == igs@[j as int]@.len());
                    let k = crate::grouping::distinct_keys(keys_spec)[j as int];
                    assert(index_groups(keys_spec)[j as int] == crate::grouping::key_indices(
                        keys_spec,
                        k,
                    ));
                    crate::grouping::lemma_key_indices_facts(keys_spec, k);
                    crate::grouping::lemma_distinct_keys_contains(keys_spec, k);
                    assert(crate::grouping::distinct_keys(keys_spec).contains(k));
                    assert(gj.len() >= 1);
                    assert(gj.len() >= 2);
                    let bp = index_groups(keys_spec).take(j + 1).filter(
                        |g: Seq<int>| g.len() >= 2,
                    );
                    assert forall|g: int, m2: int|
                        0 <= g < bp.len() && 0 <= m2 < bp[g].len() implies rfi_matches(
                        #[trigger] duplicate_files@[g]@[m2],
                        files@[bp[g][m2]],
                        keys_spec[bp[g][m2]],
                        IsUnique::Duplicate,
                        "full_hash"@,
                    ) by {
                        if g < d0.len() {
                            assert(duplicate_files@[g] == d0[g]);
                        } else {
                            assert(bp[g] == gj);
                            assert(duplicate_files@[g] == duplicate_files@.last());
                        }
                    }
                    assert forall|g: int| 0 <= g < bp.len() implies (
                    #[trigger] duplicate_files@[g])@.len() == bp[g].len() by {
                        if g < d0.len() {
                            assert(duplicate_files@[g] == d0[g]);
                        } else {
                            assert(bp[g] == gj);
                            assert(duplicate_files@[g] == duplicate_files@.last());
                        }
                    }
                }
            }
            j = j + 1;
        }
        proof {
            assert(index_groups(keys_spec).take(index_groups(keys_spec).len() as int)
                =~= index_groups(keys_spec));
            assert(igs@.len() == index_groups(keys_spec).len());
        }
        Ok(PluginResult { unique_files, duplicate_files })
    }
}

/// One registered plugin of the pipeline.
pub enum DedupPlugin {
    FullHash(FullHashPlugin),
    PieceWise(crate::piecewise::PieceWisePlugin),
}

/// The name of a registered plugin.
pub open spec fn plugin_name_spec(p: DedupPlugin) -> Seq<char> {
    match p {
        DedupPlugin::FullHash(_) => "full_hash"@,
        DedupPlugin::PieceWise(_) => "piece_wise"@,
    }
}

/// What a registered plugin reports over the given input.
pub open spec fn plugin_result_spec(
    p: DedupPlugin,
    files: Seq<FileInfo>,
    contents: Seq<Seq<u8>>,
    t: int,
    pr: PluginResult,
) -> bool {
    match p {
        DedupPlugin::FullHash(_) => full_hash_plugin_result_spec(files, contents, pr),
        DedupPlugin::PieceWise(_) => crate::piecewise::piecewise_plugin_result_spec(
            files,
            contents,
            t,
            pr,
        ),
    }
}

impl DedupPlugin {
    /// This plugin's name.
    pub fn name(&self) -> (r: &str)
        ensures
            r@ == plugin_name_spec(*self),
    {
        match self {
            DedupPlugin::FullHash(p) => p.name(),
            DedupPlugin::PieceWise(p) => p.name(),
        }
    }
}

/// The registered plugins that do not carry the given name, in order.
pub open spec fn remove_named(ps: Seq<DedupPlugin>, name: Seq<char>) -> Seq<DedupPlugin>
    decreases ps.len(),
{
    if ps.len() == 0 {
        Seq::empty()
    } else {
        let p = remove_named(ps.drop_last(), name);
        if plugin_name_spec(ps.last()) == name {
            p
        } else {
            p.push(ps.last())
        }
    }
}

/// The plugin pipeline: registered plugins run once each, independently,
/// over the same immutable input list. Registering or listing plugins has
/// no effect on results already produced.
pub struct PluginManager {
    pub plugins: Vec<DedupPlugin>,
}

impl PluginManager {
    /// An empty pipeline.
    pub fn new() -> (r: Self)
        ensures
            r.plugins@.len() == 0,
    {
        PluginManager { plugins: Vec::new() }
    }

    /// Registers one more plugin; earlier registrations keep their order.
    pub fn register_plugin(&mut self, plugin: DedupPlugin)
        ensures
            final(self).plugins@ == old(self).plugins@.push(plugin),
    {
        self.plugins.push(plugin);
    }

    /// Deregisters every plugin carrying the given name; the others keep
    /// their order. Results already produced are unaffected.
    pub fn remove_plugin(&mut self, plugin_name: &String)
        ensures
            final(self).plugins@ == remove_named(old(self).plugins@, plugin_name@),
    {
        let ghost ps = self.plugins@;
        let ghost nm = plugin_name@;
        let mut kept: Vec<DedupPlugin> = Vec::new();
        let mut k: usize = 0;
        while k < self.plugins.len()
            invariant
                k <= ps.len(),
                self.plugins@ == ps,
                nm == plugin_name@,
                kept@ =~= remove_named(ps.take(k as int), nm),
            decreases ps.len() - k,
        {
            proof {
                assert(ps.take(k + 1).drop_last() =~= ps.take(k as int));
                assert(ps.take(k + 1).last() == ps[k as int]);
            }
            let own_name = String::from_str(self.plugins[k].name());
            let keep = !(own_name == *plugin_name);
            if keep {
                let cloned = match &self.plugins[k] {
                    DedupPlugin::FullHash(_) => DedupPlugin::FullHash(FullHashPlugin),
                    DedupPlugin::PieceWise(p) => DedupPlugin::PieceWise(
                        crate::piecewise::PieceWisePlugin::new(p.block_size),
                    ),
                };
                proof {
                    assert(plugin_name_spec(cloned) == plugin_name_spec(ps[k as int]));
                    assert(cloned == ps[k as int]);
                }
                kept.push(cloned);
                proof {
                    assert(kept@ =~= remove_named(ps.take(k + 1), nm));
                }
            } else {
                proof {
                    assert(kept@ =~= remove_named(ps.take(k + 1), nm));
                }
            }
            k = k + 1;
        }
        proof {
            assert(ps.take(ps.len() as int) =~= ps);
        }
        self.plugins = kept;
    }

    /// The names of the registered plugins, in registration order.
    pub fn list_plugins(&self) -> (r: Vec<String>)
        ensures
            r@.len() == self.plugins@.len(),
            forall|k: int|
                0 <= k < r@.len() ==> (#[trigger] r@[k])@ == plugin_name_spec(self.plugins@[k]),
    {
        let mut r: Vec<String> = Vec::new();
        let mut k: usize = 0;
        while k < self.plugins.len()
            invariant
                k <= self.plugins@.len(),
                r@.len() == k,
                forall|a: int|
                    0 <= a < k ==> (#[trigger] r@[a])@ == plugin_name_spec(self.plugins@[a]),
            decreases self.plugins@.len() - k,
        {
            r.push(String::from_str(self.plugins[k].name()));
            k = k + 1;
        }
        r
    }

    /// Runs every registered plugin once over the same input and collects
    /// each plugin's partition, in registration order.
    pub fn execute_all(&self, files: &Vec<FileInfo>, contents: &Vec<Vec<u8>>, threshold: u64) -> (r:
        Vec<Result<PluginResult, String>>)
        requires
            files@.len() == contents@.len(),
            threshold <= 100,
        ensures
            r@.len() == self.plugins@.len(),
            forall|k: int|
                0 <= k < r@.len() ==> ((#[trigger] r@[k]) matches Ok(pr) && plugin_result_spec(
                    self.plugins@[k],
                    files@,
                    bytes_view(contents@),
                    threshold as int,
                    pr,
                )),
    {
        let mut r: Vec<Result<PluginResult, String>> = Vec::new();
        let mut k: usize = 0;
        while k < self.plugins.len()
            invariant
                k <= self.plugins@.len(),
                files@.len() == contents@.len(),
                threshold <= 100,
                r@.len() == k,
                forall|a: int|
                    0 <= a < k ==> ((#[trigger] r@[a]) matches Ok(pr) && plugin_result_spec(
                        self.plugins@[a],
                        files@,
                        bytes_view(contents@),
                        threshold as int,
                        pr,
                    )),
            decreases self.plugins@.len() - k,
        {
            let res = match &self.plugins[k] {
                DedupPlugin::FullHash(p) => p.exec(files, contents),
                DedupPlugin::PieceWise(p) => p.exec(files, contents, threshold),
            };
            r.push(res);
            k = k + 1;
        }
        r
    }
}

} // verus!
