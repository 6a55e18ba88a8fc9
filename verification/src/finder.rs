//! The duplicate finder: validates its directories, splits files by
//! extension, and groups equal-extension files by their content digest.
//! The extension and digest buckets live in defaultdict maps, as ordinary
//! hash maps with a default; bucket emission follows first-occurrence
//! order of the keys.

use vstd::prelude::*;
use vstd::string::StrSliceExecFns;
use vstd::string::StringExecFns;
use crate::grouping::distinct_keys;
use crate::grouping::group_indices_by_str;
use crate::grouping::groups_view;
use crate::grouping::index_groups;
use crate::grouping::key_indices;
use crate::grouping::lemma_distinct_keys_contains;
use crate::grouping::lemma_distinct_keys_no_dup;
use crate::grouping::lemma_key_indices_facts;
use crate::grouping::strs_view;
use crate::hashing::hex_of;
use crate::hashing::ring_sha256_of;
use crate::hashing::get_file_sha256_digest;
use crate::hashing::data_to_hex;
use crate::methods::bytes_view;
use crate::plugins::suffix_after_last;

verus! {

/// The extension of a path: what follows the last dot of its file name,
/// provided that dot is not the name's first character; `unknown`
/// otherwise.
pub open spec fn extension_of(p: Seq<char>) -> Seq<char> {
    let name = suffix_after_last(p, '/');
    if exists|idx: int| 1 <= idx < name.len() && name[idx] == '.' {
        suffix_after_last(name, '.')
    } else {
        "unknown"@
    }
}

/// With a separator at `l` and none after it, the suffix after the last
/// separator is everything past `l`.
proof fn lemma_suffix_at(p: Seq<char>, c: char, l: int)
    requires
        0 <= l < p.len(),
        p[l] == c,
        forall|m: int| l < m < p.len() ==> p[m] != c,
    ensures
        suffix_after_last(p, c) == p.subrange(l + 1, p.len() as int),
    decreases p.len(),
{
    if l == p.len() - 1 {
        assert(suffix_after_last(p, c) =~= p.subrange(l + 1, p.len() as int));
    } else {
        let pp = p.drop_last();
        lemma_suffix_at(pp, c, l);
        assert(pp.subrange(l + 1, pp.len() as int) =~= p.subrange(l + 1, p.len() - 1));
        assert(suffix_after_last(p, c) =~= p.subrange(l + 1, p.len() as int));
    }
}

/// Without the separator, the suffix after it is the whole sequence.
proof fn lemma_suffix_none(p: Seq<char>, c: char)
    requires
        forall|m: int| 0 <= m < p.len() ==> p[m] != c,
    ensures
        suffix_after_last(p, c) == p,
    decreases p.len(),
{
    if p.len() > 0 {
        let pp = p.drop_last();
        assert(forall|m: int| 0 <= m < pp.len() ==> pp[m] != c);
        lemma_suffix_none(pp, c);
        assert(suffix_after_last(p, c) =~= p);
    }
}

/// The extension of a path string.
pub fn extension_of_str(path: &String) -> (r: String)
    ensures
        r@ == extension_of(path@),
{
    let s = path.as_str();
    let n = s.unicode_len();
    let mut last_slash: Option<usize> = None;
    let mut last_dot: Option<usize> = None;
    let mut k: usize = 0;
    while k < n
        invariant
            k <= n,
            n == s@.len(),
            s@ == path@,
            match last_slash {
                Some(l) => l < k && s@[l as int] == '/' && forall|m: int|
                    l < m < k ==> s@[m] != '/',
                None => forall|m: int| 0 <= m < k ==> s@[m] != '/',
            },
            match last_dot {
                Some(l) => l < k && s@[l as int] == '.' && forall|m: int|
                    l < m < k ==> s@[m] != '.',
                None => forall|m: int| 0 <= m < k ==> s@[m] != '.',
            },
        decreases n - k,
    {
        let c = s.get_char(k);
        if c == '/' {
            last_slash = Some(k);
        }
        if c == '.' {
            last_dot = Some(k);
        }
        k = k + 1;
    }
    let ghost name = suffix_after_last(path@, '/');
    let name_start: usize = match last_slash {
        Some(l) => {
            proof {
                lemma_suffix_at(path@, '/', l as int);
            }
            l + 1
        },
        None => {
            proof {
                lemma_suffix_none(path@, '/');
            }
            0
        },
    };
    proof {
        assert(name =~= path@.subrange(name_start as int, n as int));
    }
    let dot_ok = match last_dot {
        Some(d) => d > name_start,
        None => false,
    };
    if dot_ok {
        let d = match last_dot {
            Some(d) => d,
            None => 0,
        };
        proof {
            let di = d - name_start;
            assert(1 <= di < name.len());
            assert(name[di] == path@[d as int]);
            assert(path@[d as int] == '.');
            assert(forall|m: int| di < m < name.len() ==> name[m] == path@[m + name_start]);
            assert(forall|m: int| di < m < name.len() ==> name[m] != '.');
            lemma_suffix_at(name, '.', di);
            assert(name.subrange(di + 1, name.len() as int) =~= path@.subrange(
                d + 1,
                n as int,
            ));
        }
        let ext = s.substring_char(d + 1, n);
        ext.to_owned()
    } else {
        proof {
            assert forall|idx: int| 1 <= idx < name.len() implies name[idx] != '.' by {
                assert(name[idx] == path@[idx + name_start]);
                match last_dot {
                    Some(dd) => {
                        if idx + name_start > dd {
                        } else {
                            assert(idx + name_start <= dd);
                            assert(idx >= 1);
                            assert(dd >= name_start + 1 || !(dd >= name_start + 1));
                        }
                    },
                    None => {},
                }
            }
        }
        String::from_str("unknown")
    }
}

/// The failure message for a path that does not exist.
pub open spec fn not_exist_msg(p: Seq<char>) -> Seq<char> {
    "\""@ + p + "\" does not exist"@
}

/// The failure message for a path that is not a directory.
pub open spec fn not_dir_msg(p: Seq<char>) -> Seq<char> {
    "\""@ + p + "\" is not a directory"@
}

/// The failure message for an input directory without files.
pub open spec fn empty_msg(p: Seq<char>) -> Seq<char> {
    p + " is empty"@
}

/// What the filesystem reports of a path; the engine never looks itself.
#[derive(Debug, Clone, Copy, PartialEq, Eq, Structural)]
pub enum PathKind {
    Missing,
    NotDirectory,
    Directory,
}

/// Finds duplicate files below an input directory; an output directory
/// receives relocated duplicates, outside the engine.
#[derive(Debug)]
pub struct DuplicateFinder {
    pub input_dir: String,
    pub output_dir: String,
}

impl DuplicateFinder {
    /// Accepts a path reported to be a directory and rejects the others,
    /// each with its message.
    pub fn validate_path(path: &str, kind: PathKind) -> (r: Result<String, String>)
        ensures
            match kind {
                PathKind::Missing => r matches Err(e) && e@ == not_exist_msg(path@),
                PathKind::NotDirectory => r matches Err(e) && e@ == not_dir_msg(path@),
                PathKind::Directory => r matches Ok(p) && p@ == path@,
            },
    {
        match kind {
            PathKind::Missing => {
                let mut m = String::from_str("\"");
                m.append(path);
                m.append("\" does not exist");
                Err(m)
            },
            PathKind::NotDirectory => {
                let mut m = String::from_str("\"");
                m.append(path);
                m.append("\" is not a directory");
                Err(m)
            },
            PathKind::Directory => Ok(path.to_owned()),
        }
    }

    /// Builds a finder once the caller has checked both paths against the
    /// filesystem: the input path is validated first, then the output path,
    /// then the input directory must hold at least one file.
    pub fn new(
        input_path: &str,
        output_path: &str,
        input_kind: PathKind,
        output_kind: PathKind,
        input_has_files: bool,
    ) -> (r: Result<DuplicateFinder, String>)
        ensures
            match input_kind {
                PathKind::Missing => r matches Err(e) && e@ == not_exist_msg(input_path@),
                PathKind::NotDirectory => r matches Err(e) && e@ == not_dir_msg(input_path@),
                PathKind::Directory => match output_kind {
                    PathKind::Missing => r matches Err(e) && e@ == not_exist_msg(output_path@),
                    PathKind::NotDirectory => r matches Err(e) && e@ == not_dir_msg(
                        output_path@,
                    ),
                    PathKind::Directory => if input_has_files {
                        r matches Ok(f) && f.input_dir@ == input_path@ && f.output_dir@
                            == output_path@
                    } else {
                        r matches Err(e) && e@ == empty_msg(input_path@)
                    },
                },
            },
    {
        let input_dir = match Self::validate_path(input_path, input_kind) {
            Ok(p) => p,
            Err(e) => {
                return Err(e);
            },
        };
        let output_dir = match Self::validate_path(output_path, output_kind) {
            Ok(p) => p,
            Err(e) => {
                return Err(e);
            },
        };
        if input_has_files {
            Ok(DuplicateFinder { input_dir, output_dir })
        } else {
            let mut m = input_path.to_owned();
            m.append(" is empty");
            Err(m)
        }
    }
}

/// A defaultdict map from a string key to the list of strings filed under
/// it.
pub type StringBuckets = defaultdict::DefaultHashMap<String, Vec<String>>;

/// What a defaultdict map from strings to string lists holds. The map is a
/// hash map whose `get_mut` materializes an empty list for a missing key.
pub uninterp spec fn dd_contents(m: StringBuckets) -> Map<Seq<char>, Seq<Seq<char>>>;

#[verifier::external_type_specification]
#[verifier::external_body]
#[verifier::reject_recursive_types(K)]
#[verifier::reject_recursive_types(V)]
#[verifier::reject_recursive_types(S)]
pub struct ExDefaultHashMap<K: std::cmp::Eq + std::hash::Hash, V: Default, S>(
    defaultdict::DefaultHashMap<K, V, S>,
);

/// Relies on defaultdict's `DefaultHashMap::new`: an empty map.
#[verifier::external_body]
fn dd_new() -> (r: StringBuckets)
    ensures
        (dd_contents(r) == Map::<Seq<char>, Seq<Seq<char>>>::empty()),
{
    defaultdict::DefaultHashMap::new()
}

/// Relies on defaultdict's `DefaultHashMap::get_mut`, which inserts the
/// default empty vector for a missing key, and on std's `Vec::push`:
/// appends `v` to the bucket of `k`.
#[verifier::external_body]
fn dd_push_under(m: &mut StringBuckets, k: &String, v: String)
    ensures
        dd_contents(*final(m)) == dd_contents(*old(m)).insert(
            k@,
            (if dd_contents(*old(m)).dom().contains(k@) {
                dd_contents(*old(m))[k@]
            } else {
                Seq::<Seq<char>>::empty()
            }).push(v@),
        ),
{
    m.get_mut(k).push(v)
}

/// Relies on defaultdict's `DefaultHashMap::contains_key`.
#[verifier::external_body]
fn dd_contains(m: &StringBuckets, k: &String) -> (r: bool)
    ensures
        r == dd_contents(*m).dom().contains(k@),
{
    m.contains_key(k)
}

/// Relies on defaultdict's `DefaultHashMap::get`, which returns the default
/// empty vector for a missing key, and on std's `Vec::clone` for strings.
#[verifier::external_body]
fn dd_get_cloned(m: &StringBuckets, k: &String) -> (r: Vec<String>)
    ensures
        strs_view(r@) == if dd_contents(*m).dom().contains(k@) {
            dd_contents(*m)[k@]
        } else {
            Seq::<Seq<char>>::empty()
        },
{
    m.get(k).clone()
}

/// Groups `values` under their parallel `keys` in a defaultdict map and
/// emits one `(key, bucket)` pair per distinct key, keys in first-occurrence
/// order and bucket members in encounter order.
pub fn dd_group(keys: &Vec<String>, values: &Vec<String>) -> (r: Vec<(String, Vec<String>)>)
    requires
        keys@.len() == values@.len(),
    ensures
        r@.len() == distinct_keys(strs_view(keys@)).len(),
        forall|j: int|
            0 <= j < r@.len() ==> (#[trigger] r@[j]).0@ == distinct_keys(strs_view(keys@))[j],
        forall|j: int|
            0 <= j < r@.len() ==> strs_view((#[trigger] r@[j]).1@) == key_indices(
                strs_view(keys@),
                distinct_keys(strs_view(keys@))[j],
            ).map_values(|x: int| strs_view(values@)[x]),
{
    let ghost kv = strs_view(keys@);
    let ghost vv = strs_view(values@);
    let mut map = dd_new();
    let mut order: Vec<String> = Vec::new();
    let mut i: usize = 0;
    while i < keys.len()
        invariant
            i <= kv.len(),
            kv == strs_view(keys@),
            vv == strs_view(values@),
            keys@.len() == kv.len(),
            values@.len() == kv.len(),
            strs_view(order@) == distinct_keys(kv.take(i as int)),
            forall|kk: Seq<char>| #[trigger]
                dd_contents(map).dom().contains(kk) <==> kv.take(i as int).contains(kk),
            forall|kk: Seq<char>|
                kv.take(i as int).contains(kk) ==> #[trigger] dd_contents(map)[kk] == key_indices(
                    kv.take(i as int),
                    kk,
                ).map_values(|x: int| vv[x]),
        decreases kv.len() - i,
    {
        let k = &keys[i];
        proof {
            let prev = kv.take(i as int);
            let cur = kv.take(i + 1);
            assert(cur.drop_last() =~= prev);
            assert(cur.last() == k@);
            assert forall|kk: Seq<char>| #[trigger] key_indices(cur, kk) == if k@ == kk {
                key_indices(prev, kk).push(i as int)
            } else {
                key_indices(prev, kk)
            } by {
                assert(cur.drop_last() == prev);
            }
            assert(distinct_keys(cur) == if distinct_keys(prev).contains(k@) {
                distinct_keys(prev)
            } else {
                distinct_keys(prev).push(k@)
            }) by {
                assert(cur.drop_last() == prev);
            }
            assert forall|kk: Seq<char>| #[trigger] cur.contains(kk) implies kk == k@
                || prev.contains(kk) by {
                let q = choose|q: int| 0 <= q < cur.len() && cur[q] == kk;
                if q < i {
                    assert(prev[q] == kk);
                }
            }
            assert(forall|kk: Seq<char>| prev.contains(kk) ==> #[trigger] cur.contains(kk)) by {
                assert forall|kk: Seq<char>| prev.contains(kk) implies #[trigger] cur.contains(
                    kk,
                ) by {
                    let q = choose|q: int| 0 <= q < prev.len() && prev[q] == kk;
                    assert(cur[q] == kk);
                }
            }
            assert(cur[i as int] == k@);
            assert(cur.contains(k@));
        }
        let ghost m0 = dd_contents(map);
        let ghost ord0 = order@;
        if !dd_contains(&map, k) {
            order.push(k.clone());
            proof {
                let prev = kv.take(i as int);
                assert(!prev.contains(k@));
                lemma_distinct_keys_contains(prev, k@);
                assert(strs_view(order@) =~= strs_view(ord0).push(k@)) by {
                    assert forall|a: int| 0 <= a < order@.len() implies strs_view(order@)[a]
                        == strs_view(ord0).push(k@)[a] by {
                        if a < ord0.len() {
                            assert(order@[a] == ord0[a]);
                        }
                    }
                }
            }
        } else {
            proof {
                let prev = kv.take(i as int);
                assert(prev.contains(k@));
                lemma_distinct_keys_contains(prev, k@);
            }
        }
        dd_push_under(&mut map, k, values[i].clone());
        proof {
            let prev = kv.take(i as int);
            let cur = kv.take(i + 1);
            assert(vv[i as int] == values@[i as int]@);
            assert forall|kk: Seq<char>| #[trigger]
                dd_contents(map).dom().contains(kk) <==> cur.contains(kk) by {}
            assert forall|kk: Seq<char>| cur.contains(kk) implies #[trigger] dd_contents(
                map,
            )[kk] == key_indices(cur, kk).map_values(|x: int| vv[x]) by {
                lemma_key_indices_facts(prev, kk);
                if kk == k@ {
                    let old_bucket = if m0.dom().contains(kk) {
                        m0[kk]
                    } else {
                        Seq::<Seq<char>>::empty()
                    };
                    if prev.contains(kk) {
                        assert(old_bucket == key_indices(prev, kk).map_values(|x: int| vv[x]));
                    } else {
                        assert(key_indices(prev, kk).len() == 0);
                        assert(old_bucket =~= key_indices(prev, kk).map_values(
                            |x: int| vv[x],
                        ));
                    }
                    assert(dd_contents(map)[kk] == old_bucket.push(vv[i as int]));
                    assert(key_indices(cur, kk) == key_indices(prev, kk).push(i as int));
                    assert(key_indices(cur, kk).map_values(|x: int| vv[x]) =~= key_indices(
                        prev,
                        kk,
                    ).map_values(|x: int| vv[x]).push(vv[i as int]));
                } else {
                    assert(prev.contains(kk));
                    assert(dd_contents(map)[kk] == m0[kk]);
                    assert(key_indices(cur, kk) == key_indices(prev, kk));
                }
            }
        }
        i = i + 1;
    }
    proof {
        assert(kv.take(kv.len() as int) =~= kv);
    }
    // emit the buckets in first-occurrence order of their keys
    let ghost dk = distinct_keys(kv);
    let mut r: Vec<(String, Vec<String>)> = Vec::new();
    let mut j: usize = 0;
    while j < order.len()
        invariant
            j <= order@.len(),
            kv == strs_view(keys@),
            vv == strs_view(values@),
            strs_view(order@) == dk,
            dk == distinct_keys(kv),
            order@.len() == dk.len(),
            forall|kk: Seq<char>| #[trigger] dd_contents(map).dom().contains(kk) <==> kv.contains(
                kk,
            ),
            forall|kk: Seq<char>|
                kv.contains(kk) ==> #[trigger] dd_contents(map)[kk] == key_indices(
                    kv,
                    kk,
                ).map_values(|x: int| vv[x]),
            r@.len() == j,
            forall|a: int| 0 <= a < j ==> (#[trigger] r@[a]).0@ == dk[a],
            forall|a: int|
                0 <= a < j ==> strs_view((#[trigger] r@[a]).1@) == key_indices(kv, dk[a]).map_values(
                    |x: int| vv[x],
                ),
        decreases order@.len() - j,
    {
        let key = &order[j];
        proof {
            assert(strs_view(order@)[j as int] == order@[j as int]@);
            assert(key@ == dk[j as int]);
            lemma_distinct_keys_contains(kv, key@);
            assert(dk.contains(dk[j as int]));
            assert(kv.contains(key@));
        }
        let bucket = dd_get_cloned(&map, key);
        r.push((key.clone(), bucket));
        j = j + 1;
    }
    r
}

/// Splits a list of file paths by extension: one `(extension, paths)` pair
/// per distinct extension, extensions in first-occurrence order.
pub fn split_files_by_extensions(paths: &Vec<String>) -> (r: Vec<(String, Vec<String>)>)
    ensures
        ({
            let ekeys = strs_view(paths@).map_values(|p: Seq<char>| extension_of(p));
            &&& r@.len() == distinct_keys(ekeys).len()
            &&& forall|j: int|
                0 <= j < r@.len() ==> (#[trigger] r@[j]).0@ == distinct_keys(ekeys)[j]
            &&& forall|j: int|
                0 <= j < r@.len() ==> strs_view((#[trigger] r@[j]).1@) == key_indices(
                    ekeys,
                    distinct_keys(ekeys)[j],
                ).map_values(|x: int| strs_view(paths@)[x])
        }),
{
    let ghost pv = strs_view(paths@);
    let ghost ekeys = pv.map_values(|p: Seq<char>| extension_of(p));
    let mut keys: Vec<String> = Vec::new();
    let mut i: usize = 0;
    while i < paths.len()
        invariant
            i <= paths@.len(),
            pv == strs_view(paths@),
            ekeys == pv.map_values(|p: Seq<char>| extension_of(p)),
            strs_view(keys@) =~= ekeys.take(i as int),
            keys@.len() == i,
        decreases paths@.len() - i,
    {
        let ghost k0 = keys@;
        keys.push(extension_of_str(&paths[i]));
        proof {
            assert(pv[i as int] == paths@[i as int]@);
            assert(strs_view(keys@) =~= strs_view(k0).push(keys@.last()@)) by {
                assert forall|a: int| 0 <= a < keys@.len() implies strs_view(keys@)[a]
                    == strs_view(k0).push(keys@.last()@)[a] by {
                    if a < k0.len() {
                        assert(keys@[a] == k0[a]);
                    }
                }
            }
            assert(strs_view(keys@) =~= ekeys.take(i + 1));
        }
        i = i + 1;
    }
    proof {
        assert(ekeys.take(ekeys.len() as int) =~= ekeys);
        assert(strs_view(keys@) == ekeys);
    }
    dd_group(&keys, paths)
}

/// The content digest key of each member of one extension bucket: the
/// ring SHA-256 digest in lowercase hexadecimal.
pub open spec fn digest_keys_of(cv: Seq<Seq<u8>>, g: Seq<int>) -> Seq<Seq<char>> {
    g.map_values(|i: int| hex_of(ring_sha256_of(cv[i])))
}

/// The digest buckets of one extension bucket, as path groups in digest
/// first-occurrence order.
pub open spec fn digest_groups_of(pv: Seq<Seq<char>>, cv: Seq<Seq<u8>>, g: Seq<int>) -> Seq<
    Seq<Seq<char>>,
> {
    index_groups(digest_keys_of(cv, g)).map_values(
        |sg: Seq<int>| sg.map_values(|x: int| pv[g[x]]),
    )
}

/// The grouping keys of the extension split.
pub open spec fn ext_keys(pv: Seq<Seq<char>>) -> Seq<Seq<char>> {
    pv.map_values(|p: Seq<char>| extension_of(p))
}

/// All digest groups, extension bucket by extension bucket: files are first
/// split by extension and then grouped by content digest; every file lands
/// in exactly one group, groups of one member included.
pub open spec fn full_dup_groups(pv: Seq<Seq<char>>, cv: Seq<Seq<u8>>) -> Seq<Seq<Seq<char>>> {
    index_groups(ext_keys(pv)).map_values(|g: Seq<int>| digest_groups_of(pv, cv, g)).flatten()
}

/// Computes the digest buckets of one extension bucket: one
/// `(digest, paths)` pair per distinct digest.
fn digest_buckets(paths: &Vec<String>, contents: &Vec<Vec<u8>>, ig: &Vec<usize>) -> (pairs: Vec<
    (String, Vec<String>),
>)
    requires
        paths@.len() == contents@.len(),
        forall|l: int| 0 <= l < ig@.len() ==> #[trigger] ig@[l] < paths@.len(),
    ensures
        ({
            let gj = ig@.map_values(|u: usize| u as int);
            let dk = digest_keys_of(bytes_view(contents@), gj);
            &&& pairs@.len() == distinct_keys(dk).len()
            &&& forall|x: int|
                0 <= x < pairs@.len() ==> (#[trigger] pairs@[x]).0@ == distinct_keys(dk)[x]
            &&& forall|x: int|
                0 <= x < pairs@.len() ==> strs_view((#[trigger] pairs@[x]).1@) == key_indices(
                    dk,
                    distinct_keys(dk)[x],
                ).map_values(|q: int| strs_view(paths@)[gj[q]])
        }),
{
    let ghost pv = strs_view(paths@);
    let ghost cv = bytes_view(contents@);
    let ghost gj = ig@.map_values(|u: usize| u as int);
    let ghost dk = digest_keys_of(cv, gj);
    let mut bucket_paths: Vec<String> = Vec::new();
    let mut bucket_keys: Vec<String> = Vec::new();
    let mut l: usize = 0;
    while l < ig.len()
        invariant
            l <= ig@.len(),
            pv == strs_view(paths@),
            cv == bytes_view(contents@),
            gj == ig@.map_values(|u: usize| u as int),
            dk == digest_keys_of(cv, gj),
            paths@.len() == contents@.len(),
            forall|a: int| 0 <= a < ig@.len() ==> #[trigger] ig@[a] < paths@.len(),
            bucket_paths@.len() == l,
            bucket_keys@.len() == l,
            strs_view(bucket_paths@) =~= gj.take(l as int).map_values(|i: int| pv[i]),
            strs_view(bucket_keys@) =~= dk.take(l as int),
        decreases ig@.len() - l,
    {
        let idx = ig[l];
        let ghost bp0 = bucket_paths@;
        let ghost bk0 = bucket_keys@;
        bucket_paths.push(paths[idx].clone());
        let digest = get_file_sha256_digest(contents[idx].as_slice());
        bucket_keys.push(data_to_hex(digest.as_slice()));
        proof {
            assert(gj[l as int] == ig@[l as int] as int);
            assert(pv[gj[l as int]] == paths@[ig@[l as int] as int]@);
            assert(cv[gj[l as int]] == contents@[ig@[l as int] as int]@);
            assert(dk[l as int] == hex_of(ring_sha256_of(cv[gj[l as int]])));
            assert(strs_view(bucket_paths@) =~= strs_view(bp0).push(bucket_paths@.last()@)) by {
                assert forall|a: int| 0 <= a < bucket_paths@.len() implies strs_view(
                    bucket_paths@,
                )[a] == strs_view(bp0).push(bucket_paths@.last()@)[a] by {
                    if a < bp0.len() {
                        assert(bucket_paths@[a] == bp0[a]);
                    }
                }
            }
            assert(strs_view(bucket_keys@) =~= strs_view(bk0).push(bucket_keys@.last()@)) by {
                assert forall|a: int| 0 <= a < bucket_keys@.len() implies strs_view(
                    bucket_keys@,
                )[a] == strs_view(bk0).push(bucket_keys@.last()@)[a] by {
                    if a < bk0.len() {
                        assert(bucket_keys@[a] == bk0[a]);
                    }
                }
            }
            assert(strs_view(bucket_paths@) =~= gj.take(l + 1).map_values(|i: int| pv[i]));
            assert(strs_view(bucket_keys@) =~= dk.take(l + 1));
        }
        l = l + 1;
    }
    proof {
        assert(dk.take(dk.len() as int) =~= dk);
        assert(gj.take(gj.len() as int) =~= gj);
        assert(strs_view(bucket_keys@) == dk);
    }
    let pairs = dd_group(&bucket_keys, &bucket_paths);
    proof {
        assert forall|x: int| 0 <= x < pairs@.len() implies strs_view(
            (#[trigger] pairs@[x]).1@,
        ) == key_indices(dk, distinct_keys(dk)[x]).map_values(
            |q: int| strs_view(paths@)[gj[q]],
        ) by {
            let ki = key_indices(dk, distinct_keys(dk)[x]);
            lemma_key_indices_facts(dk, distinct_keys(dk)[x]);
            let lhs = ki.map_values(|q: int| strs_view(bucket_paths@)[q]);
            let rhs = ki.map_values(|q: int| strs_view(paths@)[gj[q]]);
            assert(lhs =~= rhs) by {
                assert forall|b: int| 0 <= b < ki.len() implies #[trigger] lhs[b] == rhs[b] by {
                    assert(0 <= ki[b] < dk.len());
                    assert(strs_view(bucket_paths@)[ki[b]] == gj.map_values(|i: int| pv[i])[
                        ki[b]]);
                }
            }
        }
    }
    pairs
}

impl DuplicateFinder {
    /// Groups the scanned files first by extension and then, inside each
    /// extension, by content digest; every group of equal-digest files is
    /// returned, single files as groups of one.
    pub fn find_full_duplicates(&self, paths: &Vec<String>, contents: &Vec<Vec<u8>>) -> (r: Vec<
        Vec<String>,
    >)
        requires
            paths@.len() == contents@.len(),
        ensures
            r@.map_values(|v: Vec<String>| strs_view(v@)) == full_dup_groups(
                strs_view(paths@),
                bytes_view(contents@),
            ),
    {
        let ghost pv = strs_view(paths@);
        let ghost cv = bytes_view(contents@);
        let ghost mapped = index_groups(ext_keys(pv)).map_values(
            |g: Seq<int>| digest_groups_of(pv, cv, g),
        );
        let mut ekeys: Vec<String> = Vec::new();
        let mut i: usize = 0;
        while i < paths.len()
            invariant
                i <= paths@.len(),
                pv == strs_view(paths@),
                ekeys@.len() == i,
                strs_view(ekeys@) =~= ext_keys(pv).take(i as int),
            decreases paths@.len() - i,
        {
            let ghost k0 = ekeys@;
            ekeys.push(extension_of_str(&paths[i]));
            proof {
                assert(pv[i as int] == paths@[i as int]@);
                assert(strs_view(ekeys@) =~= strs_view(k0).push(ekeys@.last()@)) by {
                    assert forall|a: int| 0 <= a < ekeys@.len() implies strs_view(ekeys@)[a]
                        == strs_view(k0).push(ekeys@.last()@)[a] by {
                        if a < k0.len() {
                            assert(ekeys@[a] == k0[a]);
                        }
                    }
                }
                assert(strs_view(ekeys@) =~= ext_keys(pv).take(i + 1));
            }
            i = i + 1;
        }
        proof {
            assert(ext_keys(pv).take(ext_keys(pv).len() as int) =~= ext_keys(pv));
            assert(strs_view(ekeys@) == ext_keys(pv));
        }
        let igs = group_indices_by_str(&ekeys);
        proof {
            crate::methods::lemma_index_groups_bounds(ext_keys(pv));
            assert forall|j: int, l: int|
                0 <= j < igs@.len() && 0 <= l < igs@[j]@.len() implies #[trigger] igs@[j]@[l]
                < paths@.len() by {
                assert(groups_view(igs@)[j][l] == igs@[j]@[l] as int);
            }
            assert(mapped.len() == igs@.len());
        }
        let mut r: Vec<Vec<String>> = Vec::new();
        let mut j: usize = 0;
        while j < igs.len()
            invariant
                j <= igs@.len(),
                pv == strs_view(paths@),
                cv == bytes_view(contents@),
                paths@.len() == contents@.len(),
                mapped == index_groups(ext_keys(pv)).map_values(
                    |g: Seq<int>| digest_groups_of(pv, cv, g),
                ),
                mapped.len() == igs@.len(),
                groups_view(igs@) == index_groups(ext_keys(pv)),
                forall|a: int, l: int|
                    0 <= a < igs@.len() && 0 <= l < igs@[a]@.len() ==> #[trigger] igs@[a]@[l]
                        < paths@.len(),
                r@.map_values(|v: Vec<String>| strs_view(v@)) =~= mapped.take(
                    j as int,
                ).flatten(),
            decreases igs@.len() - j,
        {
            let ghost gj = groups_view(igs@)[j as int];
            proof {
                assert(mapped.take(j + 1) =~= mapped.take(j as int).push(mapped[j as int]));
                Seq::lemma_flatten_push(mapped.take(j as int), mapped[j as int]);
                assert(mapped[j as int] == digest_groups_of(pv, cv, gj));
            }
            let ig = &igs[j];
            proof {
                assert forall|l: int| 0 <= l < ig@.len() implies #[trigger] ig@[l]
                    < paths@.len() by {
                    assert(igs@[j as int]@[l] < paths@.len());
                }
                assert(gj =~= ig@.map_values(|u: usize| u as int));
            }
            let pairs = digest_buckets(paths, contents, ig);
            let ghost r0 = r@;
            let ghost p0 = pairs@;
            let mut x: usize = 0;
            let mut added: Vec<Vec<String>> = Vec::new();
            while x < pairs.len()
                invariant
                    x <= pairs@.len(),
                    pairs@ == p0,
                    pv == strs_view(paths@),
                    cv == bytes_view(contents@),
                    gj == groups_view(igs@)[j as int],
                    ({
                        let dk = digest_keys_of(cv, gj);
                        &&& p0.len() == distinct_keys(dk).len()
                        &&& forall|a: int|
                            0 <= a < p0.len() ==> strs_view((#[trigger] p0[a]).1@)
                                == key_indices(dk, distinct_keys(dk)[a]).map_values(
                                |q: int| pv[gj[q]],
                            )
                    }),
                    added@.len() == x,
                    forall|a: int|
                        0 <= a < x ==> strs_view((#[trigger] added@[a])@) == digest_groups_of(
                            pv,
                            cv,
                            gj,
                        )[a],
                decreases pairs@.len() - x,
            {
                let cloned: Vec<String> = pairs[x].1.clone();
                proof {
                    assert(strs_view(cloned@) =~= strs_view(p0[x as int].1@)) by {
                        assert forall|b: int| 0 <= b < cloned@.len() implies strs_view(
                            cloned@,
                        )[b] == strs_view(p0[x as int].1@)[b] by {
                            assert(vstd::pervasive::cloned::<String>(
                                pairs@[x as int].1@[b],
                                cloned@[b],
                            ));
                        }
                    }
                    let dk = digest_keys_of(cv, gj);
                    assert(digest_groups_of(pv, cv, gj)[x as int] == index_groups(dk)[x as int]
                        .map_values(|q: int| pv[gj[q]]));
                    assert(index_groups(dk)[x as int] == key_indices(
                        dk,
                        distinct_keys(dk)[x as int],
                    ));
                }
                added.push(cloned);
                x = x + 1;
            }
            let ghost added0 = added@;
            let mut added_mut = added;
            r.append(&mut added_mut);
            proof {
                let rv = |v: Vec<String>| strs_view(v@);
                assert(r@.map_values(rv) =~= r0.map_values(rv) + digest_groups_of(
                    pv,
                    cv,
                    gj,
                )) by {
                    assert forall|a: int| 0 <= a < r@.len() implies r@.map_values(rv)[a] == (
                    r0.map_values(rv) + digest_groups_of(pv, cv, gj))[a] by {
                        if a < r0.len() {
                            assert(r@[a] == r0[a]);
                        } else {
                            assert(r@[a] == added0[a - r0.len()]);
                            assert(strs_view(added0[a - r0.len()]@) == digest_groups_of(
                                pv,
                                cv,
                                gj,
                            )[a - r0.len()]);
                        }
                    }
                    assert(digest_groups_of(pv, cv, gj).len() == added0.len());
                }
                assert(r@.map_values(rv) =~= mapped.take(j + 1).flatten());
            }
            j = j + 1;
        }
        proof {
            assert(mapped.take(mapped.len() as int) =~= mapped);
        }
        r
    }
}

/// The labeled duplicate groups of one extension bucket: each digest
/// bucket of at least two files, labeled `extension_digest`.
pub open spec fn labeled_pairs_of(
    pv: Seq<Seq<char>>,
    cv: Seq<Seq<u8>>,
    ext: Seq<char>,
    g: Seq<int>,
) -> Seq<(Seq<char>, Seq<Seq<char>>)> {
    let dk = digest_keys_of(cv, g);
    Seq::new(
        index_groups(dk).len(),
        |x: int|
            (
                ext + "_"@ + distinct_keys(dk)[x],
                index_groups(dk)[x].map_values(|q: int| pv[g[q]]),
            ),
    ).filter(|pr: (Seq<char>, Seq<Seq<char>>)| pr.1.len() >= 2)
}

/// All labeled duplicate groups: inside every extension bucket, the digest
/// buckets of at least two files, each labeled with its extension and
/// digest.
pub open spec fn dup_info_groups(pv: Seq<Seq<char>>, cv: Seq<Seq<u8>>) -> Seq<
    (Seq<char>, Seq<Seq<char>>),
> {
    let ek = ext_keys(pv);
    Seq::new(
        index_groups(ek).len(),
        |l: int| labeled_pairs_of(pv, cv, distinct_keys(ek)[l], index_groups(ek)[l]),
    ).flatten()
}

impl DuplicateFinder {
    /// Like `find_full_duplicates`, but returns only groups of at least two
    /// files, each labeled `extension_digest`.
    pub fn find_duplicates_with_info(&self, paths: &Vec<String>, contents: &Vec<Vec<u8>>) -> (r:
        Vec<(String, Vec<String>)>)
        requires
            paths@.len() == contents@.len(),
        ensures
            r@.map_values(|pr: (String, Vec<String>)| (pr.0@, strs_view(pr.1@)))
                == dup_info_groups(strs_view(paths@), bytes_view(contents@)),
    {
        let ghost pv = strs_view(paths@);
        let ghost cv = bytes_view(contents@);
        let ghost ek = ext_keys(pv);
        let ghost mapped = Seq::new(
            index_groups(ek).len(),
            |l: int| labeled_pairs_of(pv, cv, distinct_keys(ek)[l], index_groups(ek)[l]),
        );
        let ghost rv = |pr: (String, Vec<String>)| (pr.0@, strs_view(pr.1@));
        let mut ekeys: Vec<String> = Vec::new();
        let mut i: usize = 0;
        while i < paths.len()
            invariant
                i <= paths@.len(),
                pv == strs_view(paths@),
                ekeys@.len() == i,
                strs_view(ekeys@) =~= ext_keys(pv).take(i as int),
            decreases paths@.len() - i,
        {
            let ghost k0 = ekeys@;
            ekeys.push(extension_of_str(&paths[i]));
            proof {
                assert(pv[i as int] == paths@[i as int]@);
                assert(strs_view(ekeys@) =~= strs_view(k0).push(ekeys@.last()@)) by {
                    assert forall|a: int| 0 <= a < ekeys@.len() implies strs_view(ekeys@)[a]
                        == strs_view(k0).push(ekeys@.last()@)[a] by {
                        if a < k0.len() {
                            assert(ekeys@[a] == k0[a]);
                        }
                    }
                }
                assert(strs_view(ekeys@) =~= ext_keys(pv).take(i + 1));
            }
            i = i + 1;
        }
        proof {
            assert(ext_keys(pv).take(ext_keys(pv).len() as int) =~= ext_keys(pv));
            assert(strs_view(ekeys@) == ek);
        }
        let igs = group_indices_by_str(&ekeys);
        proof {
            crate::methods::lemma_index_groups_bounds(ek);
            assert forall|j: int, l: int|
                0 <= j < igs@.len() && 0 <= l < igs@[j]@.len() implies #[trigger] igs@[j]@[l]
                < paths@.len() by {
                assert(groups_view(igs@)[j][l] == igs@[j]@[l] as int);
            }
            assert(mapped.len() == igs@.len());
        }
        let mut r: Vec<(String, Vec<String>)> = Vec::new();
        let mut j: usize = 0;
        while j < igs.len()
            invariant
                j <= igs@.len(),
                pv == strs_view(paths@),
                cv == bytes_view(contents@),
                ek == ext_keys(pv),
                paths@.len() == contents@.len(),
                ekeys@.len() == paths@.len(),
                strs_view(ekeys@) == ek,
                rv == (|pr: (String, Vec<String>)| (pr.0@, strs_view(pr.1@))),
                mapped == Seq::new(
                    index_groups(ek).len(),
                    |l: int| labeled_pairs_of(pv, cv, distinct_keys(ek)[l], index_groups(ek)[l]),
                ),
                mapped.len() == igs@.len(),
                groups_view(igs@) == index_groups(ek),
                forall|a: int, l: int|
                    0 <= a < igs@.len() && 0 <= l < igs@[a]@.len() ==> #[trigger] igs@[a]@[l]
                        < paths@.len(),
                r@.map_values(rv) =~= mapped.take(j as int).flatten(),
            decreases igs@.len() - j,
        {
            let ghost gj = groups_view(igs@)[j as int];
            let ghost extj = distinct_keys(ek)[j as int];
            proof {
                assert(mapped.take(j + 1) =~= mapped.take(j as int).push(mapped[j as int]));
                Seq::lemma_flatten_push(mapped.take(j as int), mapped[j as int]);
                assert(mapped[j as int] == labeled_pairs_of(pv, cv, extj, gj));
                lemma_distinct_keys_no_dup(ek);
                lemma_distinct_keys_contains(ek, extj);
                assert(distinct_keys(ek)[j as int] == extj);
                assert(distinct_keys(ek).contains(extj));
                lemma_key_indices_facts(ek, extj);
                assert(index_groups(ek)[j as int] == key_indices(ek, extj));
                assert(gj.len() >= 1);
            }
            let ig = &igs[j];
            proof {
                assert forall|l: int| 0 <= l < ig@.len() implies #[trigger] ig@[l]
                    < paths@.len() by {
                    assert(igs@[j as int]@[l] < paths@.len());
                }
                assert(gj =~= ig@.map_values(|u: usize| u as int));
                assert(gj[0] == ig@[0] as int);
                assert(ek[gj[0]] == extj);
                assert(strs_view(ekeys@)[gj[0]] == ekeys@[ig@[0] as int]@);
            }
            let ext_str = &ekeys[ig[0]];
            proof {
                assert(ext_str@ == extj);
            }
            let pairs = digest_buckets(paths, contents, ig);
            let ghost p0 = pairs@;
            let ghost dk = digest_keys_of(cv, gj);
            let ghost all_pairs = Seq::new(
                index_groups(dk).len(),
                |x: int|
                    (
                        extj + "_"@ + distinct_keys(dk)[x],
                        index_groups(dk)[x].map_values(|q: int| pv[gj[q]]),
                    ),
            );
            let ghost r0 = r@;
            let mut x: usize = 0;
            while x < pairs.len()
                invariant
                    x <= pairs@.len(),
                    pairs@ == p0,
                    pv == strs_view(paths@),
                    cv == bytes_view(contents@),
                    gj == groups_view(igs@)[j as int],
                    dk == digest_keys_of(cv, gj),
                    ext_str@ == extj,
                    rv == (|pr: (String, Vec<String>)| (pr.0@, strs_view(pr.1@))),
                    all_pairs == Seq::new(
                        index_groups(dk).len(),
                        |x2: int|
                            (
                                extj + "_"@ + distinct_keys(dk)[x2],
                                index_groups(dk)[x2].map_values(|q: int| pv[gj[q]]),
                            ),
                    ),
                    p0.len() == all_pairs.len(),
                    forall|a: int|
                        0 <= a < p0.len() ==> (#[trigger] p0[a]).0@ == distinct_keys(dk)[a],
                    forall|a: int|
                        0 <= a < p0.len() ==> strs_view((#[trigger] p0[a]).1@) == key_indices(
                            dk,
                            distinct_keys(dk)[a],
                        ).map_values(|q: int| pv[gj[q]]),
                    r@.map_values(rv) =~= mapped.take(j as int).flatten() + all_pairs.take(
                        x as int,
                    ).filter(|pr: (Seq<char>, Seq<Seq<char>>)| pr.1.len() >= 2),
                decreases pairs@.len() - x,
            {
                proof {
                    assert(all_pairs.take(x + 1) =~= all_pairs.take(x as int).push(
                        all_pairs[x as int],
                    ));
                    Seq::lemma_filter_push(
                        all_pairs.take(x as int),
                        all_pairs[x as int],
                        (|pr: (Seq<char>, Seq<Seq<char>>)| pr.1.len() >= 2),
                    );
                    assert(index_groups(dk)[x as int] == key_indices(
                        dk,
                        distinct_keys(dk)[x as int],
                    ));
                    assert(all_pairs[x as int].1 == strs_view(p0[x as int].1@));
                }
                if pairs[x].1.len() >= 2 {
                    let mut label = ext_str.clone();
                    label.append("_");
                    label.append(pairs[x].0.as_str());
                    let members = pairs[x].1.clone();
                    proof {
                        reveal_strlit("_");
                        assert(label@ =~= extj + "_"@ + distinct_keys(dk)[x as int]);
                        assert(strs_view(members@) =~= strs_view(p0[x as int].1@)) by {
                            assert forall|b: int| 0 <= b < members@.len() implies strs_view(
                                members@,
                            )[b] == strs_view(p0[x as int].1@)[b] by {
                                assert(vstd::pervasive::cloned::<String>(
                                    pairs@[x as int].1@[b],
                                    members@[b],
                                ));
                            }
                        }
                        assert(all_pairs[x as int].1.len() >= 2);
                    }
                    let ghost rprev = r@;
                    r.push((label, members));
                    proof {
                        assert forall|a: int| 0 <= a < r@.len() implies r@.map_values(rv)[a] == (
                        rprev.map_values(rv).push(all_pairs[x as int]))[a] by {
                            if a < rprev.len() {
                                assert(r@[a] == rprev[a]);
                            }
                        }
                        assert(r@.map_values(rv) =~= rprev.map_values(rv).push(
                            all_pairs[x as int],
                        ));
                        assert(r@.map_values(rv) =~= mapped.take(j as int).flatten()
                            + all_pairs.take(x + 1).filter(
                            |pr: (Seq<char>, Seq<Seq<char>>)| pr.1.len() >= 2,
                        ));
                    }
                } else {
                    proof {
                        assert(all_pairs[x as int].1.len() < 2);
                        assert(r@.map_values(rv) =~= mapped.take(j as int).flatten()
                            + all_pairs.take(x + 1).filter(
                            |pr: (Seq<char>, Seq<Seq<char>>)| pr.1.len() >= 2,
                        ));
                    }
                }
                x = x + 1;
            }
            proof {
                assert(all_pairs.take(all_pairs.len() as int) =~= all_pairs);
                assert(labeled_pairs_of(pv, cv, extj, gj) == all_pairs.filter(
                    |pr: (Seq<char>, Seq<Seq<char>>)| pr.1.len() >= 2,
                ));
                assert(r@.map_values(rv) =~= mapped.take(j + 1).flatten());
            }
            j = j + 1;
        }
        proof {
            assert(mapped.take(mapped.len() as int) =~= mapped);
        }
        r
    }
}

/// The relocated name of one member of a duplicate group: the first member
/// keeps its name behind `original_`, later members get their position in
/// brackets.
pub open spec fn remediation_name_spec(index: int, filename: Seq<char>) -> Seq<char> {
    if index == 0 {
        "original_"@ + filename
    } else {
        "["@ + crate::render::dec_str(index) + "]_"@ + filename
    }
}

/// Builds the relocated name of one member of a duplicate group.
pub fn remediation_name(index: usize, filename: &str) -> (r: String)
    ensures
        r@ == remediation_name_spec(index as int, filename@),
{
    if index == 0 {
        let mut r = String::from_str("original_");
        r.append(filename);
        r
    } else {
        let mut r = String::from_str("[");
        let num = crate::render::usize_to_dec(index);
        r.append(num.as_str());
        r.append("]_");
        r.append(filename);
        proof {
            assert(r@ =~= "["@ + crate::render::dec_str(index as int) + "]_"@ + filename@);
        }
        r
    }
}

} // verus!
