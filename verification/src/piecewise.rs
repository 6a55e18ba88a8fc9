//! Chunk-sampled similarity: fixed-size windows of a buffer are hashed at
//! its head and tail, sequences of window digests are compared position by
//! position, and an all-pairs similarity matrix drives a threshold-based
//! clustering.

use vstd::prelude::*;
use vstd::arithmetic::div_mod::lemma_fundamental_div_mod;
use crate::hashing::hex_of;
use crate::hashing::hex_encode_bytes;
use crate::hashing::sha256_bytes;
use crate::hashing::sha256_of;
use crate::methods::bytes_view;
use crate::benchmark::FileInfo;
use crate::plugins::into_result_file_info;
use crate::plugins::rfi_matches;
use crate::plugins::IsUnique;
use crate::plugins::PluginResult;
use crate::plugins::ResultFileInfo;
use vstd::pervasive::VecAdditionalExecFns;
use vstd::string::StringExecFns;

verus! {

/// The window width of chunk-sampled hashing, in bytes.
pub const CHUNK_SIZE: usize = 4096;

/// How many windows are sampled at each end of a buffer.
pub const NUM_CHUNKS: usize = 200;

/// How many windows of width `cs` cover a buffer of length `len`.
pub open spec fn total_chunks_spec(len: int, cs: int) -> int {
    len / cs + if len % cs == 0 {
        0int
    } else {
        1int
    }
}

/// The bytes of window `i`: a full window, or the shorter final one.
pub open spec fn chunk_of(content: Seq<u8>, cs: int, i: int) -> Seq<u8> {
    content.subrange(
        i * cs,
        if (i + 1) * cs <= content.len() {
            (i + 1) * cs
        } else {
            content.len() as int
        },
    )
}

/// The digests of windows `start..end`, in window order.
pub open spec fn chunk_hash_range(content: Seq<u8>, cs: int, start: int, end: int) -> Seq<
    Seq<u8>,
>
    decreases end - start,
{
    if start >= end {
        Seq::empty()
    } else {
        chunk_hash_range(content, cs, start, end - 1).push(
            sha256_of(chunk_of(content, cs, end - 1)),
        )
    }
}

/// The sampled digests of a buffer: the first `sc` windows, then the last
/// `sc` windows; the two ranges overlap when the buffer has fewer than
/// `2 * sc` windows.
pub open spec fn sampled_chunk_hashes(content: Seq<u8>, cs: int, sc: int) -> Seq<Seq<u8>> {
    let total = total_chunks_spec(content.len() as int, cs);
    let head_end = if sc <= total {
        sc
    } else {
        total
    };
    let tail_start = if total - sc >= 0 {
        total - sc
    } else {
        0int
    };
    chunk_hash_range(content, cs, 0, head_end) + chunk_hash_range(content, cs, tail_start, total)
}

/// Windows with an index below the window count start inside the buffer.
proof fn lemma_chunk_start_in_range(len: int, cs: int, i: int)
    requires
        cs >= 1,
        len >= 0,
        0 <= i < total_chunks_spec(len, cs),
    ensures
        i * cs < len,
        i * cs >= 0,
{
    lemma_fundamental_div_mod(len, cs);
    let q = len / cs;
    let r = len % cs;
    vstd::arithmetic::div_mod::lemma_mod_bound(len, cs);
    assert(i * cs < len && i * cs >= 0) by (nonlinear_arith)
        requires
            cs >= 1,
            len >= 0,
            0 <= i,
            len == cs * q + r,
            0 <= r < cs,
            i < q + (if r == 0 {
                0int
            } else {
                1int
            }),
    ;
}

/// Hashes windows `start..end` of a buffer.
fn hash_chunk_range(content: &[u8], chunk_size: usize, start: usize, end: usize) -> (r: Vec<
    Vec<u8>,
>)
    requires
        chunk_size >= 1,
        start <= end,
        end as int <= total_chunks_spec(content@.len() as int, chunk_size as int),
    ensures
        bytes_view(r@) == chunk_hash_range(
            content@,
            chunk_size as int,
            start as int,
            end as int,
        ),
{
    let clen = content.len();
    let mut r: Vec<Vec<u8>> = Vec::new();
    let mut i: usize = start;
    while i < end
        invariant
            start <= i <= end,
            chunk_size >= 1,
            clen == content@.len(),
            end as int <= total_chunks_spec(content@.len() as int, chunk_size as int),
            bytes_view(r@) =~= chunk_hash_range(
                content@,
                chunk_size as int,
                start as int,
                i as int,
            ),
        decreases end - i,
    {
        proof {
            lemma_chunk_start_in_range(content@.len() as int, chunk_size as int, i as int);
            assert((i + 1) * chunk_size == i * chunk_size + chunk_size) by (nonlinear_arith);
        }
        let offset = i * chunk_size;
        let window_end = if chunk_size <= clen - offset {
            offset + chunk_size
        } else {
            clen
        };
        let window = vstd::slice::slice_subrange(content, offset, window_end);
        proof {
            assert(window@ =~= chunk_of(content@, chunk_size as int, i as int));
        }
        let digest = sha256_bytes(window);
        let ghost r0 = r@;
        r.push(digest);
        proof {
            assert(bytes_view(r@) =~= bytes_view(r0).push(r@.last()@)) by {
                assert forall|a: int| 0 <= a < r@.len() implies bytes_view(r@)[a] == bytes_view(
                    r0,
                ).push(r@.last()@)[a] by {
                    if a < r0.len() {
                        assert(r@[a] == r0[a]);
                    }
                }
            }
            assert(bytes_view(r@) =~= chunk_hash_range(
                content@,
                chunk_size as int,
                start as int,
                i + 1,
            ));
        }
        i = i + 1;
    }
    r
}

/// The sampled window digests of a buffer: up to `NUM_CHUNKS` windows from
/// the head, then up to `NUM_CHUNKS` windows ending at the tail.
pub fn compute_file_hashes(content: &[u8]) -> (r: Vec<Vec<u8>>)
    ensures
        bytes_view(r@) == sampled_chunk_hashes(content@, CHUNK_SIZE as int, NUM_CHUNKS as int),
{
    let len = content.len();
    let total = len / CHUNK_SIZE + if len % CHUNK_SIZE != 0 {
        1
    } else {
        0
    };
    proof {
        assert(total as int == total_chunks_spec(content@.len() as int, CHUNK_SIZE as int));
    }
    let head_end = if NUM_CHUNKS <= total {
        NUM_CHUNKS
    } else {
        total
    };
    let tail_start = if NUM_CHUNKS <= total {
        total - NUM_CHUNKS
    } else {
        0
    };
    let mut head = hash_chunk_range(content, CHUNK_SIZE, 0, head_end);
    let mut tail = hash_chunk_range(content, CHUNK_SIZE, tail_start, total);
    let ghost h0 = head@;
    let ghost t0 = tail@;
    head.append(&mut tail);
    proof {
        assert(bytes_view(head@) =~= bytes_view(h0) + bytes_view(t0)) by {
            assert forall|a: int| 0 <= a < head@.len() implies bytes_view(head@)[a] == (bytes_view(
                h0,
            ) + bytes_view(t0))[a] by {
                if a < h0.len() {
                    assert(head@[a] == h0[a]);
                } else {
                    assert(head@[a] == t0[a - h0.len()]);
                }
            }
        }
    }
    head
}

/// The sampled window digests rendered as lowercase hexadecimal strings.
pub fn compute_file_chunk_hashes_hex(content: &[u8]) -> (r: Vec<String>)
    ensures
        crate::grouping::strs_view(r@) == sampled_chunk_hashes(
            content@,
            CHUNK_SIZE as int,
            NUM_CHUNKS as int,
        ).map_values(|d: Seq<u8>| hex_of(d)),
{
    let hashes = compute_file_hashes(content);
    let ghost goal = sampled_chunk_hashes(content@, CHUNK_SIZE as int, NUM_CHUNKS as int)
        .map_values(|d: Seq<u8>| hex_of(d));
    let mut r: Vec<String> = Vec::new();
    let mut i: usize = 0;
    while i < hashes.len()
        invariant
            i <= hashes@.len(),
            goal == sampled_chunk_hashes(content@, CHUNK_SIZE as int, NUM_CHUNKS as int)
                .map_values(|d: Seq<u8>| hex_of(d)),
            bytes_view(hashes@) == sampled_chunk_hashes(
                content@,
                CHUNK_SIZE as int,
                NUM_CHUNKS as int,
            ),
            crate::grouping::strs_view(r@) =~= goal.take(i as int),
        decreases hashes@.len() - i,
    {
        let ghost r0 = r@;
        r.push(hex_encode_bytes(hashes[i].as_slice()));
        proof {
            assert(bytes_view(hashes@)[i as int] == hashes@[i as int]@);
            assert(crate::grouping::strs_view(r@) =~= crate::grouping::strs_view(r0).push(
                r@.last()@,
            )) by {
                assert forall|a: int| 0 <= a < r@.len() implies crate::grouping::strs_view(
                    r@,
                )[a] == crate::grouping::strs_view(r0).push(r@.last()@)[a] by {
                    if a < r0.len() {
                        assert(r@[a] == r0[a]);
                    }
                }
            }
            assert(crate::grouping::strs_view(r@) =~= goal.take(i + 1));
        }
        i = i + 1;
    }
    proof {
        assert(goal.take(goal.len() as int) =~= goal);
    }
    r
}

/// The outcome of comparing two digest sequences position by position:
/// `identical` matches out of `compared` aligned positions.
#[derive(Debug, Clone, Copy, PartialEq, Eq, Structural)]
pub struct Similarity {
    pub identical: usize,
    pub compared: usize,
}

/// How many of the first `n` aligned positions hold equal digests.
pub open spec fn matching_prefix_count(a: Seq<Seq<u8>>, b: Seq<Seq<u8>>, n: int) -> int
    decreases n,
{
    if n <= 0 {
        0
    } else {
        matching_prefix_count(a, b, n - 1) + if a[n - 1] == b[n - 1] {
            1int
        } else {
            0int
        }
    }
}

/// How many positions two digest sequences have in common.
pub open spec fn sim_compared(a: Seq<Seq<u8>>, b: Seq<Seq<u8>>) -> int {
    if a.len() <= b.len() {
        a.len() as int
    } else {
        b.len() as int
    }
}

/// How many aligned positions of two digest sequences hold equal digests.
pub open spec fn sim_identical(a: Seq<Seq<u8>>, b: Seq<Seq<u8>>) -> int {
    matching_prefix_count(a, b, sim_compared(a, b))
}

/// Similarity is symmetric: comparing `a` against `b` counts the same
/// positions and the same matches as comparing `b` against `a`.
pub proof fn lemma_similarity_symmetric(a: Seq<Seq<u8>>, b: Seq<Seq<u8>>)
    ensures
        sim_compared(a, b) == sim_compared(b, a),
        sim_identical(a, b) == sim_identical(b, a),
{
    lemma_matching_prefix_symmetric(a, b, sim_compared(a, b));
}

proof fn lemma_matching_prefix_symmetric(a: Seq<Seq<u8>>, b: Seq<Seq<u8>>, n: int)
    ensures
        matching_prefix_count(a, b, n) == matching_prefix_count(b, a, n),
    decreases n,
{
    if n > 0 {
        lemma_matching_prefix_symmetric(a, b, n - 1);
    }
}

/// Counted matches never exceed counted positions.
pub proof fn lemma_matching_prefix_bound(a: Seq<Seq<u8>>, b: Seq<Seq<u8>>, n: int)
    ensures
        0 <= matching_prefix_count(a, b, n) <= if n >= 0 {
            n
        } else {
            0int
        },
    decreases n,
{
    if n > 0 {
        lemma_matching_prefix_bound(a, b, n - 1);
    }
}

/// Whether two byte vectors hold the same bytes.
fn bytes_eq(a: &Vec<u8>, b: &Vec<u8>) -> (r: bool)
    ensures
        r == (a@ == b@),
{
    if a.len() != b.len() {
        proof {
            assert(a@ != b@);
        }
        return false;
    }
    let mut i: usize = 0;
    while i < a.len()
        invariant
            i <= a@.len(),
            a@.len() == b@.len(),
            forall|l: int| 0 <= l < i ==> a@[l] == b@[l],
        decreases a@.len() - i,
    {
        if a[i] != b[i] {
            proof {
                assert(a@[i as int] != b@[i as int]);
            }
            return false;
        }
        i = i + 1;
    }
    proof {
        assert(a@ =~= b@);
    }
    true
}

/// Compares two digest sequences position by position over their common
/// prefix and counts the identical positions. Two empty sequences compare
/// as zero positions with zero matches, which downstream scoring treats as
/// fully similar.
pub fn compare_files(f1: &Vec<Vec<u8>>, f2: &Vec<Vec<u8>>) -> (s: Similarity)
    ensures
        s.compared == sim_compared(bytes_view(f1@), bytes_view(f2@)),
        s.identical == sim_identical(bytes_view(f1@), bytes_view(f2@)),
{
    let ghost a = bytes_view(f1@);
    let ghost b = bytes_view(f2@);
    let total = if f1.len() <= f2.len() {
        f1.len()
    } else {
        f2.len()
    };
    let mut identical: usize = 0;
    let mut i: usize = 0;
    while i < total
        invariant
            i <= total,
            a == bytes_view(f1@),
            b == bytes_view(f2@),
            total as int == sim_compared(a, b),
            identical as int == matching_prefix_count(a, b, i as int),
            identical <= i,
        decreases total - i,
    {
        proof {
            assert(a[i as int] == f1@[i as int]@);
            assert(b[i as int] == f2@[i as int]@);
        }
        if bytes_eq(&f1[i], &f2[i]) {
            identical = identical + 1;
        }
        i = i + 1;
    }
    Similarity { identical, compared: total }
}

/// Whether a similarity outcome reaches a percentage threshold. Empty
/// comparisons count as one hundred percent similar.
pub open spec fn meets_threshold_spec(identical: int, compared: int, threshold: int) -> bool {
    if compared == 0 {
        threshold <= 100
    } else {
        100 * identical >= threshold * compared
    }
}

impl Similarity {
    /// Whether this outcome reaches `threshold` percent similarity.
    pub fn meets_threshold(&self, threshold: u64) -> (r: bool)
        requires
            threshold <= 100,
        ensures
            r == meets_threshold_spec(self.identical as int, self.compared as int, threshold as int),
    {
        if self.compared == 0 {
            threshold <= 100
        } else {
            let t = threshold as u128;
            let c = self.compared as u128;
            proof {
                assert(t * c <= 100 * c) by (nonlinear_arith)
                    requires
                        t <= 100,
                ;
            }
            100u128 * (self.identical as u128) >= t * c
        }
    }
}

/// A vector of digest-sequence vectors, seen as a sequence of digest
/// sequences.
pub open spec fn hl_view(s: Seq<Vec<Vec<u8>>>) -> Seq<Seq<Seq<u8>>> {
    s.map_values(|h: Vec<Vec<u8>>| bytes_view(h@))
}

/// The all-pairs similarity matrix of a list of digest sequences. Cell
/// `(i, j)` compares list `i` against list `j`; the matrix is symmetric
/// because the comparison is.
pub fn compare_file_list(hash_lists: &Vec<Vec<Vec<u8>>>) -> (m: Vec<Vec<Similarity>>)
    ensures
        m@.len() == hash_lists@.len(),
        forall|i: int| 0 <= i < m@.len() ==> #[trigger] m@[i]@.len() == hash_lists@.len(),
        forall|i: int, j: int|
            0 <= i < m@.len() && 0 <= j < m@.len() ==> {
                &&& (#[trigger] m@[i]@[j]).compared == sim_compared(
                    hl_view(hash_lists@)[i],
                    hl_view(hash_lists@)[j],
                )
                &&& m@[i]@[j].identical == sim_identical(
                    hl_view(hash_lists@)[i],
                    hl_view(hash_lists@)[j],
                )
            },
        forall|i: int, j: int|
            0 <= i < m@.len() && 0 <= j < m@.len() ==> #[trigger] m@[i]@[j] == m@[j]@[i],
{
    let ghost hl = hl_view(hash_lists@);
    let n = hash_lists.len();
    let mut m: Vec<Vec<Similarity>> = Vec::new();
    let mut i: usize = 0;
    while i < n
        invariant
            i <= n,
            n == hash_lists@.len(),
            hl == hl_view(hash_lists@),
            m@.len() == i,
            forall|a: int| 0 <= a < i ==> #[trigger] m@[a]@.len() == n,
            forall|a: int, b: int|
                0 <= a < i && 0 <= b < n ==> {
                    &&& (#[trigger] m@[a]@[b]).compared == sim_compared(hl[a], hl[b])
                    &&& m@[a]@[b].identical == sim_identical(hl[a], hl[b])
                },
        decreases n - i,
    {
        let mut row: Vec<Similarity> = Vec::new();
        let mut j: usize = 0;
        while j < n
            invariant
                j <= n,
                i < n,
                n == hash_lists@.len(),
                hl == hl_view(hash_lists@),
                row@.len() == j,
                forall|b: int|
                    0 <= b < j ==> {
                        &&& (#[trigger] row@[b]).compared == sim_compared(hl[i as int], hl[b])
                        &&& row@[b].identical == sim_identical(hl[i as int], hl[b])
                    },
            decreases n - j,
        {
            let s = compare_files(&hash_lists[i], &hash_lists[j]);
            proof {
                assert(hl[i as int] == bytes_view(hash_lists@[i as int]@));
                assert(hl[j as int] == bytes_view(hash_lists@[j as int]@));
            }
            row.push(s);
            j = j + 1;
        }
        m.push(row);
        i = i + 1;
    }
    proof {
        assert forall|a: int, b: int| 0 <= a < m@.len() && 0 <= b < m@.len()
            implies #[trigger] m@[a]@[b] == m@[b]@[a] by {
            lemma_similarity_symmetric(hl[a], hl[b]);
            assert(m@[a]@[b].compared == m@[b]@[a].compared);
            assert(m@[a]@[b].identical == m@[b]@[a].identical);
        }
    }
    m
}

/// The positions below `end` of files similar to file `i` at threshold
/// `t`: every other position whose digest sequence meets the threshold
/// against `i`'s, in increasing order.
pub open spec fn similar_positions_upto(hl: Seq<Seq<Seq<u8>>>, t: int, i: int, end: int) -> Seq<
    int,
>
    decreases end,
{
    if end <= 0 {
        Seq::empty()
    } else {
        let p = similar_positions_upto(hl, t, i, end - 1);
        if end - 1 != i && meets_threshold_spec(
            sim_identical(hl[i], hl[end - 1]),
            sim_compared(hl[i], hl[end - 1]),
            t,
        ) {
            p.push(end - 1)
        } else {
            p
        }
    }
}

/// The positions of the files similar to file `i` at threshold `t`.
pub open spec fn similar_positions(hl: Seq<Seq<Seq<u8>>>, t: int, i: int) -> Seq<int> {
    similar_positions_upto(hl, t, i, hl.len() as int)
}

/// Every similar position is a valid file position.
pub proof fn lemma_similar_positions_bounds(hl: Seq<Seq<Seq<u8>>>, t: int, i: int)
    ensures
        forall|q: int|
            0 <= q < similar_positions(hl, t, i).len() ==> 0 <= #[trigger] similar_positions(
                hl,
                t,
                i,
            )[q] < hl.len(),
{
    lemma_similar_positions_upto_bounds(hl, t, i, hl.len() as int);
    assert forall|q: int| 0 <= q < similar_positions(hl, t, i).len() implies 0 <= #[trigger]
        similar_positions(hl, t, i)[q] < hl.len() by {
        assert(similar_positions(hl, t, i)[q] == similar_positions_upto(
            hl,
            t,
            i,
            hl.len() as int,
        )[q]);
    }
}

/// Similar positions below `end` are in range.
pub proof fn lemma_similar_positions_upto_bounds(hl: Seq<Seq<Seq<u8>>>, t: int, i: int, end: int)
    ensures
        forall|q: int|
            0 <= q < similar_positions_upto(hl, t, i, end).len() ==> 0 <= #[trigger]
                similar_positions_upto(hl, t, i, end)[q] < end,
    decreases end,
{
    if end > 0 {
        lemma_similar_positions_upto_bounds(hl, t, i, end - 1);
        let p = similar_positions_upto(hl, t, i, end - 1);
        let c = similar_positions_upto(hl, t, i, end);
        if end - 1 != i && meets_threshold_spec(
            sim_identical(hl[i], hl[end - 1]),
            sim_compared(hl[i], hl[end - 1]),
            t,
        ) {
            assert(c == p.push(end - 1));
            assert forall|q: int| 0 <= q < c.len() implies 0 <= #[trigger] c[q] < end by {
                if q < p.len() {
                    assert(c[q] == p[q]);
                }
            }
        } else {
            assert(c == p);
            assert forall|q: int| 0 <= q < c.len() implies 0 <= #[trigger] c[q] < end by {
                assert(c[q] == p[q]);
            }
        }
    }
}

/// For every file, the other files whose sampled digests meet the
/// similarity threshold against it, with each pair's similarity outcome.
pub fn find_similar_files(paths: &Vec<String>, contents: &Vec<Vec<u8>>, threshold: u64) -> (r:
    Vec<(String, Vec<(String, Similarity)>)>)
    requires
        paths@.len() == contents@.len(),
        threshold <= 100,
    ensures
        r@.len() == paths@.len(),
        forall|i: int| 0 <= i < r@.len() ==> (#[trigger] r@[i]).0@ == paths@[i]@,
        forall|i: int|
            0 <= i < r@.len() ==> {
                let hl = sampled_of(bytes_view(contents@));
                let js = similar_positions(hl, threshold as int, i);
                let lst = (#[trigger] r@[i]).1@;
                &&& lst.len() == js.len()
                &&& forall|q: int|
                    0 <= q < js.len() ==> {
                        &&& (#[trigger] lst[q]).0@ == paths@[js[q]]@
                        &&& lst[q].1.compared == sim_compared(hl[i], hl[js[q]])
                        &&& lst[q].1.identical == sim_identical(hl[i], hl[js[q]])
                    }
            },
{
    let hash_lists = compute_hash_lists(contents);
    let ghost hl = sampled_of(bytes_view(contents@));
    proof {
        assert(hl_view(hash_lists@) == hl);
    }
    let matrix = compare_file_list(&hash_lists);
    let n = paths.len();
    let mut r: Vec<(String, Vec<(String, Similarity)>)> = Vec::new();
    let mut i: usize = 0;
    while i < n
        invariant
            i <= n,
            n == paths@.len(),
            n == hash_lists@.len(),
            hl == hl_view(hash_lists@),
            hl == sampled_of(bytes_view(contents@)),
            hl.len() == n,
            threshold <= 100,
            matrix@.len() == n,
            forall|a: int| 0 <= a < n ==> #[trigger] matrix@[a]@.len() == n,
            forall|a: int, b: int|
                0 <= a < n && 0 <= b < n ==> {
                    &&& (#[trigger] matrix@[a]@[b]).compared == sim_compared(hl[a], hl[b])
                    &&& matrix@[a]@[b].identical == sim_identical(hl[a], hl[b])
                },
            r@.len() == i,
            forall|a: int| 0 <= a < i ==> (#[trigger] r@[a]).0@ == paths@[a]@,
            forall|a: int|
                0 <= a < i ==> {
                    let js = similar_positions(hl, threshold as int, a);
                    let lst = (#[trigger] r@[a]).1@;
                    &&& lst.len() == js.len()
                    &&& forall|q: int|
                        0 <= q < js.len() ==> {
                            &&& (#[trigger] lst[q]).0@ == paths@[js[q]]@
                            &&& lst[q].1.compared == sim_compared(hl[a], hl[js[q]])
                            &&& lst[q].1.identical == sim_identical(hl[a], hl[js[q]])
                        }
                },
        decreases n - i,
    {
        let mut similar: Vec<(String, Similarity)> = Vec::new();
        let mut j: usize = 0;
        while j < n
            invariant
                j <= n,
                i < n,
                n == paths@.len(),
                n == hash_lists@.len(),
                hl == hl_view(hash_lists@),
                hl.len() == n,
                threshold <= 100,
                matrix@.len() == n,
                forall|a: int| 0 <= a < n ==> #[trigger] matrix@[a]@.len() == n,
                forall|a: int, b: int|
                    0 <= a < n && 0 <= b < n ==> {
                        &&& (#[trigger] matrix@[a]@[b]).compared == sim_compared(hl[a], hl[b])
                        &&& matrix@[a]@[b].identical == sim_identical(hl[a], hl[b])
                    },
                ({
                    let js = similar_positions_upto(hl, threshold as int, i as int, j as int);
                    &&& similar@.len() == js.len()
                    &&& forall|q: int|
                        0 <= q < js.len() ==> {
                            &&& (#[trigger] similar@[q]).0@ == paths@[js[q]]@
                            &&& similar@[q].1.compared == sim_compared(hl[i as int], hl[js[q]])
                            &&& similar@[q].1.identical == sim_identical(hl[i as int], hl[js[q]])
                        }
                }),
            decreases n - j,
        {
            let ghost js0 = similar_positions_upto(hl, threshold as int, i as int, j as int);
            let ghost s0 = similar@;
            proof {
                lemma_similar_positions_upto_bounds(hl, threshold as int, i as int, j as int);
                lemma_similar_positions_upto_bounds(hl, threshold as int, i as int, j + 1);
            }
            let cell = matrix[i][j];
            proof {
                assert(cell.compared == sim_compared(hl[i as int], hl[j as int]));
                assert(cell.identical == sim_identical(hl[i as int], hl[j as int]));
            }
            if j != i && cell.meets_threshold(threshold) {
                similar.push((paths[j].clone(), cell));
                proof {
                    let js1 = similar_positions_upto(hl, threshold as int, i as int, j + 1);
                    assert(js1 == js0.push(j as int));
                    assert forall|q: int| 0 <= q < js1.len() implies {
                        &&& (#[trigger] similar@[q]).0@ == paths@[js1[q]]@
                        &&& similar@[q].1.compared == sim_compared(hl[i as int], hl[js1[q]])
                        &&& similar@[q].1.identical == sim_identical(hl[i as int], hl[js1[q]])
                    } by {
                        if q < js0.len() {
                            assert(similar@[q] == s0[q]);
                            assert(js1[q] == js0[q]);
                        } else {
                            assert(js1[q] == j as int);
                            assert(similar@[q] == similar@.last());
                        }
                    }
                }
            } else {
                proof {
                    let js1 = similar_positions_upto(hl, threshold as int, i as int, j + 1);
                    assert(js1 == js0);
                }
            }
            j = j + 1;
        }
        let ghost r0 = r@;
        r.push((paths[i].clone(), similar));
        proof {
            lemma_similar_positions_upto_bounds(hl, threshold as int, i as int, n as int);
            assert(similar_positions(hl, threshold as int, i as int) == similar_positions_upto(
                hl,
                threshold as int,
                i as int,
                n as int,
            ));
            assert((r@[i as int]).0@ == paths@[i as int]@);
            assert forall|a: int| 0 <= a < i implies r@[a] == r0[a] by {}
        }
        i = i + 1;
    }
    r
}

/// The sampled digest sequences of every content buffer, at the spec level.
pub open spec fn sampled_of(cs: Seq<Seq<u8>>) -> Seq<Seq<Seq<u8>>> {
    cs.map_values(|c: Seq<u8>| sampled_chunk_hashes(c, CHUNK_SIZE as int, NUM_CHUNKS as int))
}

/// The positions in `(i, end)` joining file `i`'s cluster: files not yet
/// assigned whose digest sequence meets the threshold against `i`'s, in
/// increasing order.
pub open spec fn cluster_members_upto(
    hl: Seq<Seq<Seq<u8>>>,
    t: int,
    i: int,
    assigned: Set<int>,
    end: int,
) -> Seq<int>
    decreases end - i,
{
    if end <= i + 1 {
        Seq::empty()
    } else {
        let p = cluster_members_upto(hl, t, i, assigned, end - 1);
        if !assigned.contains(end - 1) && meets_threshold_spec(
            sim_identical(hl[i], hl[end - 1]),
            sim_compared(hl[i], hl[end - 1]),
            t,
        ) {
            p.push(end - 1)
        } else {
            p
        }
    }
}

/// Cluster members sit strictly between the seed and `end`.
pub proof fn lemma_cluster_members_bounds(
    hl: Seq<Seq<Seq<u8>>>,
    t: int,
    i: int,
    assigned: Set<int>,
    end: int,
)
    ensures
        forall|q: int|
            0 <= q < cluster_members_upto(hl, t, i, assigned, end).len() ==> i < #[trigger]
                cluster_members_upto(hl, t, i, assigned, end)[q] < end,
    decreases end - i,
{
    if end > i + 1 {
        lemma_cluster_members_bounds(hl, t, i, assigned, end - 1);
        let p = cluster_members_upto(hl, t, i, assigned, end - 1);
        let c = cluster_members_upto(hl, t, i, assigned, end);
        assert forall|q: int| 0 <= q < c.len() implies i < #[trigger] c[q] < end by {
            if c != p {
                if q < p.len() {
                    assert(c[q] == p[q]);
                }
            } else {
                assert(c[q] == p[q]);
            }
        }
    }
}

/// The clusters formed from position `i` on: an unassigned position seeds a
/// cluster of itself and every later unassigned position similar enough to
/// it; an assigned position is skipped. Membership is checked against the
/// seed only, a documented approximation, since similarity is not
/// transitive.
pub open spec fn clusters_from(hl: Seq<Seq<Seq<u8>>>, t: int, i: int, assigned: Set<int>) -> Seq<
    Seq<int>,
>
    decreases hl.len() - i
        when 0 <= i
{
    if i >= hl.len() {
        Seq::empty()
    } else if assigned.contains(i) {
        clusters_from(hl, t, i + 1, assigned)
    } else {
        let c = seq![i] + cluster_members_upto(hl, t, i, assigned, hl.len() as int);
        seq![c] + clusters_from(hl, t, i + 1, assigned.union(c.to_set()))
    }
}

/// The similarity clusters of a list of digest sequences, in seed order.
pub open spec fn clusters_of(hl: Seq<Seq<Seq<u8>>>, t: int) -> Seq<Seq<int>> {
    clusters_from(hl, t, 0, Set::empty())
}

/// Every cluster position is a valid file position.
pub proof fn lemma_clusters_from_bounds(hl: Seq<Seq<Seq<u8>>>, t: int, i: int, assigned: Set<int>)
    requires
        0 <= i,
    ensures
        forall|l: int, q: int|
            0 <= l < clusters_from(hl, t, i, assigned).len() && 0 <= q < clusters_from(
                hl,
                t,
                i,
                assigned,
            )[l].len() ==> 0 <= #[trigger] clusters_from(hl, t, i, assigned)[l][q] < hl.len(),
    decreases hl.len() - i,
{
    if i >= hl.len() {
    } else if assigned.contains(i) {
        lemma_clusters_from_bounds(hl, t, i + 1, assigned);
        assert(clusters_from(hl, t, i, assigned) == clusters_from(hl, t, i + 1, assigned));
        assert forall|l: int, q: int|
            0 <= l < clusters_from(hl, t, i, assigned).len() && 0 <= q < clusters_from(
                hl,
                t,
                i,
                assigned,
            )[l].len() implies 0 <= #[trigger] clusters_from(hl, t, i, assigned)[l][q]
            < hl.len() by {
            assert(clusters_from(hl, t, i, assigned)[l] == clusters_from(
                hl,
                t,
                i + 1,
                assigned,
            )[l]);
        }
    } else {
        let c = seq![i] + cluster_members_upto(hl, t, i, assigned, hl.len() as int);
        lemma_cluster_members_bounds(hl, t, i, assigned, hl.len() as int);
        lemma_clusters_from_bounds(hl, t, i + 1, assigned.union(c.to_set()));
        assert forall|l: int, q: int|
            0 <= l < clusters_from(hl, t, i, assigned).len() && 0 <= q < clusters_from(
                hl,
                t,
                i,
                assigned,
            )[l].len() implies 0 <= #[trigger] clusters_from(hl, t, i, assigned)[l][q]
            < hl.len() by {
            let cs = clusters_from(hl, t, i, assigned);
            assert(cs == seq![c] + clusters_from(hl, t, i + 1, assigned.union(c.to_set())));
            if l == 0 {
                assert(cs[0] == c);
                if q >= 1 {
                    assert(c[q] == cluster_members_upto(hl, t, i, assigned, hl.len() as int)[q
                        - 1]);
                }
            } else {
                assert(cs[l] == clusters_from(hl, t, i + 1, assigned.union(c.to_set()))[l - 1]);
            }
        }
    }
}

/// Computes the sampled digest list of every buffer.
pub fn compute_hash_lists(contents: &Vec<Vec<u8>>) -> (r: Vec<Vec<Vec<u8>>>)
    ensures
        r@.len() == contents@.len(),
        hl_view(r@) == sampled_of(bytes_view(contents@)),
{
    let mut r: Vec<Vec<Vec<u8>>> = Vec::new();
    let mut i: usize = 0;
    while i < contents.len()
        invariant
            i <= contents@.len(),
            r@.len() == i,
            hl_view(r@) =~= sampled_of(bytes_view(contents@)).take(i as int),
        decreases contents@.len() - i,
    {
        let ghost r0 = r@;
        r.push(compute_file_hashes(contents[i].as_slice()));
        proof {
            assert(hl_view(r@) =~= hl_view(r0).push(bytes_view(r@.last()@))) by {
                assert forall|a: int| 0 <= a < r@.len() implies hl_view(r@)[a] == hl_view(
                    r0,
                ).push(bytes_view(r@.last()@))[a] by {
                    if a < r0.len() {
                        assert(r@[a] == r0[a]);
                    }
                }
            }
            assert(bytes_view(contents@)[i as int] == contents@[i as int]@);
            assert(hl_view(r@) =~= sampled_of(bytes_view(contents@)).take(i + 1));
        }
        i = i + 1;
    }
    proof {
        assert(sampled_of(bytes_view(contents@)).take(contents@.len() as int) =~= sampled_of(
            bytes_view(contents@),
        ));
    }
    r
}

/// Cluster members are strictly increasing, so no member repeats.
proof fn lemma_cluster_members_increasing(
    hl: Seq<Seq<Seq<u8>>>,
    t: int,
    i: int,
    assigned: Set<int>,
    end: int,
)
    ensures
        forall|q1: int, q2: int|
            0 <= q1 < q2 < cluster_members_upto(hl, t, i, assigned, end).len()
                ==> #[trigger] cluster_members_upto(hl, t, i, assigned, end)[q1]
                < #[trigger] cluster_members_upto(hl, t, i, assigned, end)[q2],
    decreases end - i,
{
    if end > i + 1 {
        lemma_cluster_members_increasing(hl, t, i, assigned, end - 1);
        lemma_cluster_members_bounds(hl, t, i, assigned, end - 1);
        let p = cluster_members_upto(hl, t, i, assigned, end - 1);
        let c = cluster_members_upto(hl, t, i, assigned, end);
        assert forall|q1: int, q2: int| 0 <= q1 < q2 < c.len() implies #[trigger] c[q1]
            < #[trigger] c[q2] by {
            if c != p {
                if q2 < p.len() {
                    assert(c[q1] == p[q1] && c[q2] == p[q2]);
                } else {
                    assert(c[q2] == end - 1);
                    assert(c[q1] == p[q1]);
                    assert(p[q1] < end - 1);
                }
            } else {
                assert(c[q1] == p[q1] && c[q2] == p[q2]);
            }
        }
    }
}

/// A position joins the cluster exactly when it is in range, unassigned,
/// and similar enough to the seed.
proof fn lemma_cluster_members_contains(
    hl: Seq<Seq<Seq<u8>>>,
    t: int,
    i: int,
    assigned: Set<int>,
    end: int,
    j: int,
)
    ensures
        cluster_members_upto(hl, t, i, assigned, end).contains(j) <==> (i < j < end
            && !assigned.contains(j) && meets_threshold_spec(
            sim_identical(hl[i], hl[j]),
            sim_compared(hl[i], hl[j]),
            t,
        )),
    decreases end - i,
{
    let c = cluster_members_upto(hl, t, i, assigned, end);
    if end <= i + 1 {
        assert(!c.contains(j)) by {
            if c.contains(j) {
                let q = choose|q: int| 0 <= q < c.len() && c[q] == j;
            }
        }
    } else {
        lemma_cluster_members_contains(hl, t, i, assigned, end - 1, j);
        let p = cluster_members_upto(hl, t, i, assigned, end - 1);
        if c != p {
            assert(c == p.push(end - 1));
            assert forall|x: int| #[trigger] c.contains(x) implies p.contains(x) || x == end
                - 1 by {
                let q = choose|q: int| 0 <= q < c.len() && c[q] == x;
                if q < p.len() {
                    assert(p[q] == x);
                }
            }
            assert(c[p.len() as int] == end - 1);
            assert(c.contains(end - 1));
            assert(forall|x: int| p.contains(x) ==> #[trigger] c.contains(x)) by {
                assert forall|x: int| p.contains(x) implies #[trigger] c.contains(x) by {
                    let q = choose|q: int| 0 <= q < p.len() && p[q] == x;
                    assert(c[q] == x);
                }
            }
        }
    }
}

/// Every position from `i` on that is not yet assigned lands in exactly one
/// cluster; every other position lands in none.
proof fn lemma_clusters_from_count(
    hl: Seq<Seq<Seq<u8>>>,
    t: int,
    i: int,
    assigned: Set<int>,
    j: int,
)
    requires
        0 <= i,
    ensures
        clusters_from(hl, t, i, assigned).flatten().to_multiset().count(j) == if i <= j
            < hl.len() && !assigned.contains(j) {
            1int
        } else {
            0int
        },
    decreases hl.len() - i,
{
    broadcast use vstd::multiset::group_multiset_axioms;
    broadcast use vstd::seq_lib::group_to_multiset_ensures;

    let cs = clusters_from(hl, t, i, assigned);
    if i >= hl.len() {
        assert(cs.flatten() =~= Seq::<int>::empty());
        assert(!cs.flatten().contains(j));
    } else if assigned.contains(i) {
        lemma_clusters_from_count(hl, t, i + 1, assigned, j);
        assert(cs == clusters_from(hl, t, i + 1, assigned));
    } else {
        let members = cluster_members_upto(hl, t, i, assigned, hl.len() as int);
        let c = seq![i] + members;
        let rest = clusters_from(hl, t, i + 1, assigned.union(c.to_set()));
        assert(cs == seq![c] + rest);
        vstd::seq_lib::lemma_flatten_concat(seq![c], rest);
        seq![c].lemma_flatten_singleton();
        assert(cs.flatten() =~= c + rest.flatten());
        vstd::seq_lib::lemma_multiset_commutative(c, rest.flatten());
        lemma_clusters_from_count(hl, t, i + 1, assigned.union(c.to_set()), j);
        lemma_cluster_members_bounds(hl, t, i, assigned, hl.len() as int);
        lemma_cluster_members_increasing(hl, t, i, assigned, hl.len() as int);
        lemma_cluster_members_contains(hl, t, i, assigned, hl.len() as int, j);
        // the seed and its members never repeat inside the cluster
        assert(c.no_duplicates()) by {
            assert forall|q1: int, q2: int|
                0 <= q1 < c.len() && 0 <= q2 < c.len() && q1 != q2 implies c[q1] != c[q2] by {
                if q1 >= 1 && q2 >= 1 {
                    assert(c[q1] == members[q1 - 1]);
                    assert(c[q2] == members[q2 - 1]);
                } else if q1 == 0 {
                    assert(c[q2] == members[q2 - 1]);
                    assert(members[q2 - 1] > i);
                } else {
                    assert(c[q1] == members[q1 - 1]);
                    assert(members[q1 - 1] > i);
                }
            }
        }
        c.lemma_multiset_has_no_duplicates();
        // membership of `j` in the new cluster
        assert(c.contains(j) <==> j == i || members.contains(j)) by {
            if c.contains(j) {
                let q = choose|q: int| 0 <= q < c.len() && c[q] == j;
                if q >= 1 {
                    assert(members[q - 1] == j);
                    assert(members.contains(j));
                }
            }
            if j == i {
                assert(c[0] == j);
            }
            if members.contains(j) {
                let q = choose|q: int| 0 <= q < members.len() && members[q] == j;
                assert(c[q + 1] == j);
            }
        }
        assert(c.to_set().contains(j) <==> c.contains(j));
        if c.contains(j) {
            assert(c.to_multiset().count(j) == 1);
            assert(assigned.union(c.to_set()).contains(j));
            assert(rest.flatten().to_multiset().count(j) == 0);
        } else {
            assert(c.to_multiset().count(j) == 0) by {
                if c.to_multiset().count(j) > 0 {
                    assert(c.contains(j));
                }
            }
            assert(!(assigned.union(c.to_set()).contains(j)) <==> !assigned.contains(j));
        }
    }
}

/// Partition invariant of the similarity clustering: every file position
/// lands in exactly one cluster, and clusters hold nothing else.
pub proof fn lemma_clusters_partition(hl: Seq<Seq<Seq<u8>>>, t: int)
    ensures
        forall|j: int|
            clusters_of(hl, t).flatten().to_multiset().count(j) == if 0 <= j < hl.len() {
                1int
            } else {
                0int
            },
{
    assert forall|j: int|
        clusters_of(hl, t).flatten().to_multiset().count(j) == if 0 <= j < hl.len() {
            1int
        } else {
            0int
        } by {
        lemma_clusters_from_count(hl, t, 0, Set::empty(), j);
    }
}

/// The set of positions whose flag is set.
pub open spec fn assigned_set(p: Seq<bool>) -> Set<int> {
    Set::new(|j: int| 0 <= j < p.len() && p[j])
}

/// What a piecewise plugin run reports: one record per file, tagged unique
/// for singleton clusters and duplicate for larger ones. Similarity groups
/// share no single fingerprint, so every record carries an empty one.
pub open spec fn piecewise_plugin_result_spec(
    files: Seq<FileInfo>,
    contents: Seq<Seq<u8>>,
    t: int,
    pr: PluginResult,
) -> bool {
    let hl = sampled_of(contents);
    let cls = clusters_of(hl, t);
    let singles = cls.filter(|c: Seq<int>| c.len() == 1);
    let bigs = cls.filter(|c: Seq<int>| c.len() >= 2);
    &&& pr.unique_files@.len() == singles.len()
    &&& forall|u: int|
        0 <= u < singles.len() ==> rfi_matches(
            #[trigger] pr.unique_files@[u],
            files[singles[u][0]],
            Seq::empty(),
            IsUnique::Unique,
            "piece_wise"@,
        )
    &&& pr.duplicate_files@.len() == bigs.len()
    &&& forall|g: int| 0 <= g < bigs.len() ==> (#[trigger] pr.duplicate_files@[g])@.len()
        == bigs[g].len()
    &&& forall|g: int, m: int|
        0 <= g < bigs.len() && 0 <= m < bigs[g].len() ==> rfi_matches(
            #[trigger] pr.duplicate_files@[g]@[m],
            files[bigs[g][m]],
            Seq::empty(),
            IsUnique::Duplicate,
            "piece_wise"@,
        )
}

/// Groups near-duplicate files by sampled-chunk similarity.
pub struct PieceWisePlugin {
    pub block_size: u8,
}

impl PieceWisePlugin {
    /// A piecewise plugin with the given block size.
    pub fn new(block_size: u8) -> (r: Self)
        ensures
            r.block_size == block_size,
    {
        PieceWisePlugin { block_size }
    }

    /// This plugin's name.
    pub fn name(&self) -> (r: &str)
        ensures
            r@ == "piece_wise"@,
    {
        "piece_wise"
    }

    /// Clusters the files by sampled-chunk similarity at the caller's
    /// threshold and reports every file with its membership. Files are
    /// visited in input order; an unassigned file seeds a cluster holding
    /// every later unassigned file similar enough to the seed.
    pub fn exec(&self, files: &Vec<FileInfo>, contents: &Vec<Vec<u8>>, threshold: u64) -> (r:
        Result<PluginResult, String>)
        requires
            files@.len() == contents@.len(),
            threshold <= 100,
        ensures
            r matches Ok(pr) && piecewise_plugin_result_spec(
                files@,
                bytes_view(contents@),
                threshold as int,
                pr,
            ),
    {
        let ghost cv = bytes_view(contents@);
        let hash_lists = compute_hash_lists(contents);
        let ghost hl = sampled_of(cv);
        proof {
            assert(hl_view(hash_lists@) == hl);
        }
        let n = files.len();
        let mut processed: Vec<bool> = Vec::new();
        let mut z: usize = 0;
        while z < n
            invariant
                z <= n,
                processed@.len() == z,
                forall|a: int| 0 <= a < z ==> !processed@[a],
            decreases n - z,
        {
            processed.push(false);
            z = z + 1;
        }
        proof {
            assert(assigned_set(processed@) =~= Set::<int>::empty());
        }
        let mut clusters: Vec<Vec<usize>> = Vec::new();
        let mut i: usize = 0;
        while i < n
            invariant
                i <= n,
                n == files@.len(),
                n == hash_lists@.len(),
                hl == hl_view(hash_lists@),
                hl.len() == n,
                threshold <= 100,
                processed@.len() == n,
                crate::grouping::groups_view(clusters@) + clusters_from(
                    hl,
                    threshold as int,
                    i as int,
                    assigned_set(processed@),
                ) =~= clusters_of(hl, threshold as int),
                forall|l: int| 0 <= l < clusters@.len() ==> (#[trigger] clusters@[l])@.len() >= 1,
                forall|l: int, q: int|
                    0 <= l < clusters@.len() && 0 <= q < clusters@[l]@.len()
                        ==> #[trigger] clusters@[l]@[q] < n,
            decreases n - i,
        {
            if !processed[i] {
                let ghost a0 = assigned_set(processed@);
                let ghost c0 = clusters@;
                proof {
                    assert(!a0.contains(i as int));
                }
                processed.set(i, true);
                let mut cluster: Vec<usize> = Vec::new();
                cluster.push(i);
                proof {
                    assert(cluster@.map_values(|u: usize| u as int) =~= seq![i as int]
                        + cluster_members_upto(hl, threshold as int, i as int, a0, i + 1));
                    assert(cluster@.map_values(|u: usize| u as int).to_set() =~= Set::<
                        int,
                    >::empty().insert(i as int)) by {
                        let cm = cluster@.map_values(|u: usize| u as int);
                        assert(cm =~= seq![i as int]);
                        assert(cm =~= Seq::<int>::empty().push(i as int));
                        Seq::lemma_push_to_set_commute(Seq::<int>::empty(), i as int);
                        assert(Seq::<int>::empty().to_set() =~= Set::<int>::empty());
                    }
                    assert(assigned_set(processed@) =~= a0.union(
                        cluster@.map_values(|u: usize| u as int).to_set(),
                    ));
                }
                let mut j: usize = i + 1;
                while j < n
                    invariant
                        i < j <= n,
                        i < n,
                        n == files@.len(),
                        n == hash_lists@.len(),
                        hl == hl_view(hash_lists@),
                        hl.len() == n,
                        threshold <= 100,
                        processed@.len() == n,
                        !a0.contains(i as int),
                        cluster@.len() >= 1,
                        cluster@.map_values(|u: usize| u as int) =~= seq![i as int]
                            + cluster_members_upto(
                            hl,
                            threshold as int,
                            i as int,
                            a0,
                            j as int,
                        ),
                        forall|q: int|
                            #![trigger cluster@[q]]
                            0 <= q < cluster@.len() ==> ((i as int) <= (cluster@[q] as int)
                                && (cluster@[q] as int) < (j as int)),
                        assigned_set(processed@) =~= a0.union(
                            cluster@.map_values(|u: usize| u as int).to_set(),
                        ),
                    decreases n - j,
                {
                    let ghost cm0 = cluster@.map_values(|u: usize| u as int);
                    let ghost members0 = cluster_members_upto(
                        hl,
                        threshold as int,
                        i as int,
                        a0,
                        j as int,
                    );
                    proof {
                        assert(hl[i as int] == bytes_view(hash_lists@[i as int]@));
                        assert(hl[j as int] == bytes_view(hash_lists@[j as int]@));
                        // whether `j` is assigned now is whether it was
                        // assigned before this cluster started
                        assert(!cm0.to_set().contains(j as int)) by {
                            if cm0.to_set().contains(j as int) {
                                let q = choose|q: int|
                                    0 <= q < cm0.len() && cm0[q] == j as int;
                                assert(cm0[q] == cluster@[q] as int);
                            }
                        }
                        assert(assigned_set(processed@).contains(j as int) == a0.contains(
                            j as int,
                        ));
                    }
                    let s = compare_files(&hash_lists[i], &hash_lists[j]);
                    let ghost pb = processed@;
                    if !processed[j] && s.meets_threshold(threshold) {
                        processed.set(j, true);
                        cluster.push(j);
                        proof {
                            let cm1 = cluster@.map_values(|u: usize| u as int);
                            assert(cm1 =~= cm0.push(j as int));
                            assert(cluster_members_upto(
                                hl,
                                threshold as int,
                                i as int,
                                a0,
                                j + 1,
                            ) == members0.push(j as int));
                            assert(cm1 =~= seq![i as int] + cluster_members_upto(
                                hl,
                                threshold as int,
                                i as int,
                                a0,
                                j + 1,
                            ));
                            Seq::lemma_push_to_set_commute(cm0, j as int);
                            assert(assigned_set(processed@) =~= assigned_set(pb).insert(
                                j as int,
                            ));
                            assert(assigned_set(pb).insert(j as int) =~= a0.union(
                                cm0.to_set().insert(j as int),
                            ));
                            assert(assigned_set(processed@) =~= a0.union(cm1.to_set()));
                        }
                    } else {
                        proof {
                            assert(cluster_members_upto(
                                hl,
                                threshold as int,
                                i as int,
                                a0,
                                j + 1,
                            ) == members0);
                        }
                    }
                    j = j + 1;
                }
                let ghost cm = cluster@.map_values(|u: usize| u as int);
                clusters.push(cluster);
                proof {
                    let t = threshold as int;
                    let c_spec = seq![i as int] + cluster_members_upto(hl, t, i as int, a0,
                        n as int);
                    assert(cm =~= c_spec);
                    assert(clusters_from(hl, t, i as int, a0) == seq![c_spec] + clusters_from(
                        hl,
                        t,
                        i + 1,
                        a0.union(c_spec.to_set()),
                    ));
                    assert(a0.union(cm.to_set()) =~= a0.union(c_spec.to_set()));
                    assert(crate::grouping::groups_view(clusters@) =~= crate::grouping::groups_view(
                        c0,
                    ).push(cm)) by {
                        assert forall|l: int|
                            0 <= l < clusters@.len() implies crate::grouping::groups_view(
                            clusters@,
                        )[l] == crate::grouping::groups_view(c0).push(cm)[l] by {
                            if l < c0.len() {
                                assert(clusters@[l] == c0[l]);
                            } else {
                                assert(clusters@[l] == clusters@.last());
                            }
                        }
                    }
                    assert(crate::grouping::groups_view(clusters@) + clusters_from(
                        hl,
                        t,
                        i + 1,
                        assigned_set(processed@),
                    ) =~= clusters_of(hl, t));
                    lemma_cluster_members_bounds(hl, t, i as int, a0, n as int);
                }
            } else {
                proof {
                    assert(assigned_set(processed@).contains(i as int));
                    assert(clusters_from(hl, threshold as int, i as int, assigned_set(processed@))
                        == clusters_from(
                        hl,
                        threshold as int,
                        i + 1,
                        assigned_set(processed@),
                    ));
                }
            }
            i = i + 1;
        }
        proof {
            assert(clusters_from(hl, threshold as int, n as int, assigned_set(processed@))
                =~= Seq::<Seq<int>>::empty());
            assert(crate::grouping::groups_view(clusters@) =~= clusters_of(
                hl,
                threshold as int,
            ));
        }
        // materialize the clusters into the reported partition
        let ghost cls = clusters_of(hl, threshold as int);
        let ghost singles = cls.filter(|c: Seq<int>| c.len() == 1);
        let ghost bigs = cls.filter(|c: Seq<int>| c.len() >= 2);
        let mut unique_files: Vec<ResultFileInfo> = Vec::new();
        let mut duplicate_files: Vec<Vec<ResultFileInfo>> = Vec::new();
        let mut x: usize = 0;
        while x < clusters.len()
            invariant
                x <= clusters@.len(),
                n == files@.len(),
                cls == clusters_of(hl, threshold as int),
                singles == cls.filter(|c: Seq<int>| c.len() == 1),
                bigs == cls.filter(|c: Seq<int>| c.len() >= 2),
                crate::grouping::groups_view(clusters@) == cls,
                forall|l: int| 0 <= l < clusters@.len() ==> (#[trigger] clusters@[l])@.len() >= 1,
                forall|l: int, q: int|
                    0 <= l < clusters@.len() && 0 <= q < clusters@[l]@.len()
                        ==> #[trigger] clusters@[l]@[q] < n,
                ({
                    let sp = cls.take(x as int).filter(|c: Seq<int>| c.len() == 1);
                    &&& unique_files@.len() == sp.len()
                    &&& forall|u: int|
                        0 <= u < sp.len() ==> rfi_matches(
                            #[trigger] unique_files@[u],
                            files@[sp[u][0]],
                            Seq::empty(),
                            IsUnique::Unique,
                            "piece_wise"@,
                        )
                }),
                ({
                    let bp = cls.take(x as int).filter(|c: Seq<int>| c.len() >= 2);
                    &&& duplicate_files@.len() == bp.len()
                    &&& forall|g: int| 0 <= g < bp.len() ==> (
                    #[trigger] duplicate_files@[g])@.len() == bp[g].len()
                    &&& forall|g: int, m: int|
                        0 <= g < bp.len() && 0 <= m < bp[g].len() ==> rfi_matches(
                            #[trigger] duplicate_files@[g]@[m],
                            files@[bp[g][m]],
                            Seq::empty(),
                            IsUnique::Duplicate,
                            "piece_wise"@,
                        )
                }),
            decreases clusters@.len() - x,
        {
            let ghost cx = crate::grouping::groups_view(clusters@)[x as int];
            proof {
                assert(cls.take(x + 1) =~= cls.take(x as int).push(cx));
                Seq::lemma_filter_push(cls.take(x as int), cx, (|c: Seq<int>| c.len() == 1));
                Seq::lemma_filter_push(cls.take(x as int), cx, (|c: Seq<int>| c.len() >= 2));
            }
            let cl = &clusters[x];
            if cl.len() == 1 {
                let idx = cl[0];
                proof {
                    assert(cx[0] == clusters@[x as int]@[0] as int);
                    assert(idx < n);
                }
                let ghost u0 = unique_files@;
                let rfi = into_result_file_info(
                    &files[idx].path,
                    files[idx].size,
                    String::new(),
                    IsUnique::Unique,
                    String::from_str("piece_wise"),
                );
                unique_files.push(rfi);
                proof {
                    let sp = cls.take(x + 1).filter(|c: Seq<int>| c.len() == 1);
                    assert forall|u: int| 0 <= u < sp.len() implies rfi_matches(
                        #[trigger] unique_files@[u],
                        files@[sp[u][0]],
                        Seq::empty(),
                        IsUnique::Unique,
                        "piece_wise"@,
                    ) by {
                        if u < u0.len() {
                            assert(unique_files@[u] == u0[u]);
                        } else {
                            assert(sp[u] == cx);
                            assert(unique_files@[u] == unique_files@.last());
                        }
                    }
                }
            } else {
                proof {
                    assert(cx.len() == clusters@[x as int]@.len());
                    assert(cx.len() != 1);
                    assert(clusters@[x as int]@.len() >= 1);
                    assert(cx.len() >= 2);
                }
                let mut group: Vec<ResultFileInfo> = Vec::new();
                let mut m: usize = 0;
                while m < cl.len()
                    invariant
                        m <= cl@.len(),
                        cl == clusters@[x as int],
                        x < clusters@.len(),
                        n == files@.len(),
                        cx == crate::grouping::groups_view(clusters@)[x as int],
                        forall|l: int, q: int|
                            0 <= l < clusters@.len() && 0 <= q < clusters@[l]@.len()
                                ==> #[trigger] clusters@[l]@[q] < n,
                        group@.len() == m,
                        forall|q: int|
                            0 <= q < m ==> rfi_matches(
                                #[trigger] group@[q],
                                files@[cx[q]],
                                Seq::empty(),
                                IsUnique::Duplicate,
                                "piece_wise"@,
                            ),
                    decreases cl@.len() - m,
                {
                    let idx = cl[m];
                    proof {
                        assert(cx[m as int] == clusters@[x as int]@[m as int] as int);
                        assert(idx < n);
                    }
                    let rfi = into_result_file_info(
                        &files[idx].path,
                        files[idx].size,
                        String::new(),
                        IsUnique::Duplicate,
                        String::from_str("piece_wise"),
                    );
                    group.push(rfi);
                    m = m + 1;
                }
                let ghost d0 = duplicate_files@;
                duplicate_files.push(group);
                proof {
                    let bp = cls.take(x + 1).filter(|c: Seq<int>| c.len() >= 2);
                    assert forall|g: int, m2: int|
                        0 <= g < bp.len() && 0 <= m2 < bp[g].len() implies rfi_matches(
                        #[trigger] duplicate_files@[g]@[m2],
                        files@[bp[g][m2]],
                        Seq::empty(),
                        IsUnique::Duplicate,
                        "piece_wise"@,
                    ) by {
                        if g < d0.len() {
                            assert(duplicate_files@[g] == d0[g]);
                        } else {
                            assert(bp[g] == cx);
                            assert(duplicate_files@[g] == duplicate_files@.last());
                        }
                    }
                    assert forall|g: int| 0 <= g < bp.len() implies (
                    #[trigger] duplicate_files@[g])@.len() == bp[g].len() by {
                        if g < d0.len() {
                            assert(duplicate_files@[g] == d0[g]);
                        } else {
                            assert(bp[g] == cx);
                            assert(duplicate_files@[g] == duplicate_files@.last());
                        }
                    }
                }
            }
            x = x + 1;
        }
        proof {
            assert(cls.take(cls.len() as int) =~= cls);
            assert(clusters@.len() == cls.len());
        }
        Ok(PluginResult { unique_files, duplicate_files })
    }
}

} // verus!
