//! Reordering of the triangles of a triangle list for the post-transform vertex cache, after
//! Tom Forsyth's "Linear-Speed Vertex Cache Optimization".
use vstd::prelude::*;
use vstd::multiset::*;
use vstd::seq_lib::*;
use vstd::set_lib::*;

verus! {

broadcast use {group_to_multiset_ensures, group_multiset_axioms};

/// The number of positions `j < n` of `s` that hold `v`.
pub open spec fn count_upto(s: Seq<u32>, n: int, v: int) -> nat
    decreases n,
{
    if n <= 0 {
        0
    } else {
        count_upto(s, n - 1, v) + if s[n - 1] == v { 1nat } else { 0nat }
    }
}

/// The number of positions `j < n` of `s` that hold a value below `m`, counted per value:
/// `count_upto(s, n, 0) + ... + count_upto(s, n, m - 1)`.
pub open spec fn sum_counts(s: Seq<u32>, n: int, m: int) -> nat
    decreases m,
{
    if m <= 0 {
        0
    } else {
        sum_counts(s, n, m - 1) + count_upto(s, n, m - 1)
    }
}

/// The number of corners of triangle `t` of the triangle list `indices` that are vertex `v`.
pub open spec fn corner_count(indices: Seq<u32>, t: int, v: int) -> nat {
    (if indices[3 * t] == v { 1nat } else { 0nat }) + (if indices[3 * t + 1] == v {
        1nat
    } else {
        0nat
    }) + (if indices[3 * t + 2] == v { 1nat } else { 0nat })
}

/// The number of positions `j < n` of `indices` that are a corner of triangle `t` equal to `v`.
pub open spec fn corner_count_upto(indices: Seq<u32>, n: int, t: int, v: int) -> nat
    decreases n,
{
    if n <= 0 {
        0
    } else {
        corner_count_upto(indices, n - 1, t, v) + if indices[n - 1] == v && (n - 1) / 3 == t {
            1nat
        } else {
            0nat
        }
    }
}

/// All the values of `s` are below `bound`.
pub open spec fn all_below(s: Seq<u32>, bound: int) -> bool {
    forall|i: int| 0 <= i < s.len() ==> #[trigger] s[i] < bound
}

proof fn lemma_count_upto_le(s: Seq<u32>, n: int, v: int)
    requires
        0 <= n,
    ensures
        count_upto(s, n, v) <= n,
    decreases n,
{
    if n > 0 {
        lemma_count_upto_le(s, n - 1, v);
    }
}

proof fn lemma_sum_counts_step(s: Seq<u32>, n: int, m: int)
    requires
        0 <= n < s.len(),
        0 <= m,
    ensures
        sum_counts(s, n + 1, m) == sum_counts(s, n, m) + if s[n] < m { 1int } else { 0int },
    decreases m,
{
    if m > 0 {
        lemma_sum_counts_step(s, n, m - 1);
    }
}

/// When all the values of `s` are below `m`, counting them per value counts all of them.
pub(crate) proof fn lemma_sum_counts_total(s: Seq<u32>, n: int, m: int)
    requires
        0 <= n <= s.len(),
        0 <= m,
        all_below(s, m),
    ensures
        sum_counts(s, n, m) == n,
    decreases n,
{
    if n == 0 {
        lemma_sum_counts_zero(s, m);
    } else {
        lemma_sum_counts_total(s, n - 1, m);
        lemma_sum_counts_step(s, n - 1, m);
    }
}

proof fn lemma_sum_counts_zero(s: Seq<u32>, m: int)
    requires
        0 <= m,
    ensures
        sum_counts(s, 0, m) == 0,
    decreases m,
{
    if m > 0 {
        lemma_sum_counts_zero(s, m - 1);
    }
}

pub(crate) proof fn lemma_sum_counts_monotone(s: Seq<u32>, n: int, a: int, b: int)
    requires
        0 <= a <= b,
    ensures
        sum_counts(s, n, a) <= sum_counts(s, n, b),
    decreases b,
{
    if a < b {
        lemma_sum_counts_monotone(s, n, a, b - 1);
    }
}

/// Counts the corners of each vertex, for indices that are all below `vertex_count`.
pub(crate) fn count_corners(indices: &Vec<u32>, vertex_count: usize) -> (counts: Vec<u32>)
    requires
        all_below(indices@, vertex_count as int),
        indices.len() <= u32::MAX,
    ensures
        counts.len() == vertex_count,
        forall|v: int|
            0 <= v < vertex_count ==> #[trigger] counts[v] == count_upto(
                indices@,
                indices.len() as int,
                v,
            ),
{
    let mut counts: Vec<u32> = Vec::new();
    let mut v: usize = 0;
    while v < vertex_count
        invariant
            v <= vertex_count,
            counts.len() == v,
            forall|u: int| 0 <= u < v ==> #[trigger] counts[u] == 0,
        decreases vertex_count - v,
    {
        counts.push(0);
        v = v + 1;
    }
    let mut i: usize = 0;
    while i < indices.len()
        invariant
            i <= indices.len(),
            indices.len() <= u32::MAX,
            all_below(indices@, vertex_count as int),
            counts.len() == vertex_count,
            forall|u: int|
                0 <= u < vertex_count ==> #[trigger] counts[u] == count_upto(
                    indices@,
                    i as int,
                    u,
                ),
        decreases indices.len() - i,
    {
        let vertex = indices[i] as usize;
        proof {
            lemma_count_upto_le(indices@, i as int, vertex as int);
        }
        counts.set(vertex, counts[vertex] + 1);
        i = i + 1;
    }
    counts
}

/// The start of the adjacency range of each vertex: the corners of the lower vertices come first.
pub(crate) fn adjacency_offsets(counts: &Vec<u32>, indices: Ghost<Seq<u32>>) -> (offsets: Vec<usize>)
    requires
        all_below(indices@, counts.len() as int),
        indices@.len() <= usize::MAX,
        forall|v: int|
            0 <= v < counts.len() ==> #[trigger] counts[v] == count_upto(
                indices@,
                indices@.len() as int,
                v,
            ),
    ensures
        offsets.len() == counts.len(),
        forall|v: int|
            0 <= v < counts.len() ==> #[trigger] offsets[v] == sum_counts(
                indices@,
                indices@.len() as int,
                v,
            ),
{
    let ghost n = indices@.len() as int;
    proof {
        lemma_sum_counts_total(indices@, n, counts.len() as int);
    }
    let mut offsets: Vec<usize> = Vec::new();
    let mut offset: usize = 0;
    let mut v: usize = 0;
    while v < counts.len()
        invariant
            v <= counts.len(),
            offsets.len() == v,
            offset == sum_counts(indices@, n, v as int),
            sum_counts(indices@, n, counts.len() as int) == n,
            n == indices@.len(),
            n <= usize::MAX,
            forall|u: int|
                0 <= u < counts.len() ==> #[trigger] counts[u] == count_upto(indices@, n, u),
            forall|u: int| 0 <= u < v ==> #[trigger] offsets[u] == sum_counts(indices@, n, u),
        decreases counts.len() - v,
    {
        offsets.push(offset);
        proof {
            lemma_sum_counts_monotone(indices@, n, v + 1, counts.len() as int);
        }
        offset = offset + counts[v] as usize;
        v = v + 1;
    }
    offsets
}

proof fn lemma_count_upto_monotone(s: Seq<u32>, a: int, b: int, v: int)
    requires
        0 <= a <= b,
    ensures
        count_upto(s, a, v) <= count_upto(s, b, v),
    decreases b,
{
    if a < b {
        lemma_count_upto_monotone(s, a, b - 1, v);
    }
}

/// The corners of triangle `t` among the first `n` indices, as a closed form.
proof fn lemma_corner_count_upto(indices: Seq<u32>, n: int, t: int, v: int)
    requires
        0 <= n,
        0 <= t,
    ensures
        corner_count_upto(indices, n, t, v) == if n <= 3 * t {
            0nat
        } else if n == 3 * t + 1 {
            if indices[3 * t] == v { 1nat } else { 0nat }
        } else if n == 3 * t + 2 {
            (if indices[3 * t] == v { 1nat } else { 0nat }) + (if indices[3 * t + 1] == v {
                1nat
            } else {
                0nat
            })
        } else {
            corner_count(indices, t, v)
        },
    decreases n,
{
    if n > 0 {
        lemma_corner_count_upto(indices, n - 1, t, v);
    }
}

/// The adjacency array and the fill positions after placing the first `i` corners of `indices`:
/// corner `j` puts its triangle at the fill position of its vertex, which then moves on.
pub open spec fn filled_adjacency(indices: Seq<u32>, offsets: Seq<usize>, i: int) -> (
    Seq<u32>,
    Seq<usize>,
)
    decreases i,
{
    if i <= 0 {
        (Seq::new(indices.len(), |j: int| 0u32), offsets)
    } else {
        let (adjacency, fill) = filled_adjacency(indices, offsets, i - 1);
        let v = indices[i - 1] as int;
        (
            adjacency.update(fill[v] as int, ((i - 1) / 3) as u32),
            fill.update(v, (fill[v] + 1) as usize),
        )
    }
}

/// Lists, for each vertex, the triangles that use it: vertex `v` gets the range that starts at
/// `offsets[v]` and holds `counts[v]` entries, and a triangle appears there once per corner that
/// is `v`.
pub(crate) fn build_adjacency(indices: &Vec<u32>, offsets: &Vec<usize>, counts: Ghost<Seq<u32>>) -> (adjacency:
    Vec<u32>)
    requires
        indices.len() % 3 == 0,
        indices.len() <= u32::MAX,
        all_below(indices@, offsets.len() as int),
        counts@.len() == offsets.len(),
        forall|v: int|
            0 <= v < offsets.len() ==> #[trigger] counts@[v] == count_upto(
                indices@,
                indices.len() as int,
                v,
            ),
        forall|v: int|
            0 <= v < offsets.len() ==> #[trigger] offsets[v] == sum_counts(
                indices@,
                indices.len() as int,
                v,
            ),
    ensures
        adjacency.len() == indices.len(),
        all_below(adjacency@, (indices.len() / 3) as int),
        forall|v: int, t: u32|
            0 <= v < offsets.len() ==> #[trigger] adjacency@.subrange(
                offsets[v] as int,
                offsets[v] + counts@[v],
            ).to_multiset().count(t) == if t < indices.len() / 3 {
                corner_count(indices@, t as int, v)
            } else {
                0
            },
        adjacency@ == filled_adjacency(indices@, offsets@, indices.len() as int).0,
{
    let ghost n = indices.len() as int;
    let ghost vc = offsets.len() as int;
    let ghost tc = n / 3;
    proof {
        lemma_sum_counts_total(indices@, n, vc);
        assert forall|v: int| 0 <= v < vc implies #[trigger] offsets[v] + counts@[v] <= n by {
            lemma_sum_counts_monotone(indices@, n, v + 1, vc);
        }
        assert forall|u: int, v: int|
            0 <= u < v < vc implies #[trigger] offsets[u] + counts@[u] <= #[trigger] offsets[v] by {
            lemma_sum_counts_monotone(indices@, n, u + 1, v);
        }
    }
    let mut adjacency: Vec<u32> = Vec::new();
    let mut i: usize = 0;
    while i < indices.len()
        invariant
            i <= indices.len(),
            adjacency.len() == i,
            forall|j: int| 0 <= j < i ==> #[trigger] adjacency@[j] == 0,
        decreases indices.len() - i,
    {
        adjacency.push(0);
        i = i + 1;
    }
    let mut fill: Vec<usize> = offsets.clone();
    assert(adjacency@ =~= Seq::new(n as nat, |j: int| 0u32));
    assert(fill@ =~= offsets@);
    let mut i: usize = 0;
    while i < indices.len()
        invariant
            i <= indices.len(),
            n == indices.len(),
            n % 3 == 0,
            tc == n / 3,
            n <= u32::MAX,
            vc == offsets.len(),
            counts@.len() == vc,
            all_below(indices@, vc),
            adjacency.len() == n,
            fill.len() == vc,
            forall|j: int| 0 <= j < n ==> #[trigger] adjacency@[j] < tc || adjacency@[j] == 0,
            forall|v: int|
                0 <= v < vc ==> #[trigger] counts@[v] == count_upto(indices@, n, v),
            forall|v: int| 0 <= v < vc ==> #[trigger] offsets[v] + counts@[v] <= n,
            forall|u: int, v: int|
                0 <= u < v < vc ==> #[trigger] offsets[u] + counts@[u] <= #[trigger] offsets[v],
            forall|v: int|
                0 <= v < vc ==> #[trigger] fill[v] == offsets[v] + count_upto(indices@, i as int, v),
            forall|v: int, t: u32|
                0 <= v < vc ==> #[trigger] adjacency@.subrange(
                    offsets[v] as int,
                    fill[v] as int,
                ).to_multiset().count(t) == corner_count_upto(indices@, i as int, t as int, v),
            (adjacency@, fill@) == filled_adjacency(indices@, offsets@, i as int),
        decreases indices.len() - i,
    {
        let vertex = indices[i] as usize;
        let position = fill[vertex];
        proof {
            lemma_count_upto_monotone(indices@, i + 1, n, vertex as int);
        }
        let ghost old_adjacency = adjacency@;
        let ghost old_fill = fill@;
        adjacency.set(position, (i / 3) as u32);
        fill.set(vertex, position + 1);
        proof {
            assert forall|v: int, t: u32|
                0 <= v < vc implies #[trigger] adjacency@.subrange(
                    offsets[v] as int,
                    fill[v] as int,
                ).to_multiset().count(t) == corner_count_upto(
                    indices@,
                    i + 1,
                    t as int,
                    v,
                ) by {
                if v == vertex {
                    assert(adjacency@.subrange(offsets[v] as int, fill[v] as int)
                        =~= old_adjacency.subrange(offsets[v] as int, old_fill[v] as int).push(
                        (i / 3) as u32,
                    ));
                } else {
                    if v < vertex {
                        assert(offsets[v] + counts@[v] <= offsets[vertex as int]);
                    } else {
                        assert(offsets[vertex as int] + counts@[vertex as int] <= offsets[v]);
                    }
                    lemma_count_upto_monotone(indices@, i as int, n, v);
                    assert(adjacency@.subrange(offsets[v] as int, fill[v] as int)
                        =~= old_adjacency.subrange(offsets[v] as int, old_fill[v] as int));
                }
            }
        }
        i = i + 1;
    }
    proof {
        assert forall|v: int, t: u32|
            0 <= v < vc implies #[trigger] adjacency@.subrange(
                offsets[v] as int,
                offsets[v] + counts@[v],
            ).to_multiset().count(t) == if t < tc {
                corner_count(indices@, t as int, v)
            } else {
                0
            } by {
            lemma_corner_count_upto(indices@, n, t as int, v);
            assert(fill[v] == offsets[v] + counts@[v]);
        }
        assert forall|j: int| 0 <= j < n implies #[trigger] adjacency@[j] < tc by {
            if adjacency@[j] == 0 && tc == 0 {
                assert(n == 0);
            }
        }
    }
    adjacency
}

/// Size of the LRU cache simulated while reordering triangles.
pub const SIMULATED_CACHE_SIZE: usize = 32;

/// Number of live triangles above which a vertex no longer gets a lower score.
pub const MAX_SCORED_VALENCE: usize = 32;

/// The largest score of a vertex. Scores are fixed-point numbers, in units of 1/65536.
pub const MAX_VERTEX_SCORE: i64 = 196608;

/// Score of a vertex, by its position in the simulated LRU cache, in units of 1/65536.
///
/// The vertices of the most recently emitted triangle (the first 3 positions) score 0.75, lower
/// than the slightly older ones, so that the optimizer fans out around vertices instead of
/// creating long strips. After them, the score decays from 1 as `(1 - (position - 3) / 29)^1.5`.
pub open spec fn cache_scores() -> Seq<i64> {
    seq![
        49152, 49152, 49152, 65536, 62176, 58875, 55634, 52456, 49340, 46289, 43303, 40384, 37534,
        34755, 32047, 29414, 26857, 24379, 21982, 19670, 17444, 15310, 13270, 11330, 9496, 7772,
        6168, 4692, 3357, 2181, 1187, 420,
    ]
}

/// Score of a vertex, by its number of live triangles, in units of 1/65536: `2 / sqrt(count)`,
/// which boosts the vertices with few remaining triangles so that the optimizer finishes the
/// triangles around a vertex instead of leaving lone triangles behind.
pub open spec fn valence_scores() -> Seq<i64> {
    seq![
        0, 131072, 92682, 75674, 65536, 58617, 53510, 49541, 46341, 43691, 41449, 39520, 37837,
        36353, 35030, 33843, 32768, 31790, 30894, 30070, 29309, 28602, 27945, 27330, 26755,
        26214, 25705, 25225, 24770, 24339, 23930, 23541, 23170,
    ]
}

/// The score of a vertex at `cache_position` in the cache (if any) with `live_triangles`
/// triangles left to emit. A vertex without live triangles scores 0: its score isn't used.
pub open spec fn vertex_score(cache_position: Option<usize>, live_triangles: u32) -> int {
    if live_triangles == 0 {
        0
    } else {
        (match cache_position {
            Some(position) => cache_scores()[position as int] as int,
            None => 0,
        }) + valence_scores()[if live_triangles > 32 {
            32
        } else {
            live_triangles as int
        }] as int
    }
}

/// Precomputed vertex scores for Forsyth's algorithm.
struct VertexScoreTable {
    /// Score of a vertex, indexed by its position in the simulated LRU cache.
    cache: Vec<i64>,
    /// Score of a vertex, indexed by its number of live triangles (clamped).
    valence: Vec<i64>,
}

impl VertexScoreTable {
    spec fn wf(&self) -> bool {
        &&& self.cache@ == cache_scores()
        &&& self.valence@ == valence_scores()
    }

    fn new() -> (table: Self)
        ensures
            table.wf(),
    {
        let cache = vec![
            49152, 49152, 49152, 65536, 62176, 58875, 55634, 52456, 49340, 46289, 43303, 40384,
            37534, 34755, 32047, 29414, 26857, 24379, 21982, 19670, 17444, 15310, 13270, 11330,
            9496, 7772, 6168, 4692, 3357, 2181, 1187, 420,
        ];
        let valence = vec![
            0, 131072, 92682, 75674, 65536, 58617, 53510, 49541, 46341, 43691, 41449, 39520,
            37837, 36353, 35030, 33843, 32768, 31790, 30894, 30070, 29309, 28602, 27945, 27330,
            26755, 26214, 25705, 25225, 24770, 24339, 23930, 23541, 23170,
        ];
        let table = VertexScoreTable { cache, valence };
        assert(table.cache@ =~= cache_scores());
        assert(table.valence@ =~= valence_scores());
        table
    }

    fn score(&self, cache_position: Option<usize>, live_triangles: u32) -> (score: i64)
        requires
            self.wf(),
            cache_position matches Some(position) ==> position < SIMULATED_CACHE_SIZE,
        ensures
            score == vertex_score(cache_position, live_triangles),
            0 <= score <= MAX_VERTEX_SCORE,
    {
        if live_triangles == 0 {
            return 0;
        }
        let cache_score = match cache_position {
            Some(position) => self.cache[position],
            None => 0,
        };
        let clamped = if live_triangles as usize > MAX_SCORED_VALENCE {
            MAX_SCORED_VALENCE
        } else {
            live_triangles as usize
        };
        proof {
            let c = cache_scores();
            let v = valence_scores();
            assert(forall|i: int| 0 <= i < 32 ==> 0 <= #[trigger] c[i] <= 65536);
            assert(forall|i: int| 0 <= i < 33 ==> 0 <= #[trigger] v[i] <= 131072);
        }
        cache_score + self.valence[clamped]
    }
}

/// The live triangles of `vertex`: the start of its adjacency range.
pub open spec fn live_list(adjacency: Seq<u32>, offsets: Seq<usize>, live: Seq<u32>, vertex: int) -> Seq<
    u32,
> {
    adjacency.subrange(offsets[vertex] as int, offsets[vertex] + live[vertex])
}

/// The position of the first `x` in `s`, or the length of `s` if it has none.
pub open spec fn position_in(s: Seq<u32>, x: u32) -> int
    decreases s.len(),
{
    if s.len() == 0 {
        0
    } else if s[0] == x {
        0
    } else {
        1 + position_in(s.drop_first(), x)
    }
}

proof fn lemma_position_in(s: Seq<u32>, x: u32, p: int)
    requires
        0 <= p <= s.len(),
        forall|q: int| 0 <= q < p ==> s[q] != x,
        p == s.len() || s[p] == x,
    ensures
        position_in(s, x) == p,
    decreases p,
{
    if p > 0 {
        lemma_position_in(s.drop_first(), x, p - 1);
    }
}

/// The adjacency array and the live counts once the first `triangle` in the live triangles of
/// `vertex`, if any, is swapped with the last live one and the live range shortened.
pub open spec fn removed_live(
    adjacency: Seq<u32>,
    offsets: Seq<usize>,
    live: Seq<u32>,
    vertex: int,
    triangle: u32,
) -> (Seq<u32>, Seq<u32>) {
    let start = offsets[vertex] as int;
    let count = live[vertex] as int;
    let p = position_in(adjacency.subrange(start, start + count), triangle);
    if p >= count {
        (adjacency, live)
    } else {
        let last = start + count - 1;
        (
            adjacency.update(start + p, adjacency[last]).update(last, triangle),
            live.update(vertex, (count - 1) as u32),
        )
    }
}

/// Removes one occurrence of `triangle` from the live triangles of `vertex`, if it has one, by
/// swapping it with the last live triangle and shortening the range.
fn remove_live_triangle(
    adjacency: &mut Vec<u32>,
    offsets: &Vec<usize>,
    live: &mut Vec<u32>,
    vertex: usize,
    triangle: u32,
    Ghost(bound): Ghost<int>,
)
    requires
        vertex < old(live).len() == offsets.len(),
        offsets[vertex as int] + old(live)[vertex as int] <= old(adjacency).len(),
        all_below(old(adjacency)@, bound),
    ensures
        final(adjacency).len() == old(adjacency).len(),
        all_below(final(adjacency)@, bound),
        forall|i: int|
            0 <= i < old(adjacency).len() && !(offsets[vertex as int] <= i < offsets[vertex as int]
                + old(live)[vertex as int]) ==> #[trigger] final(adjacency)@[i] == old(adjacency)@[i],
        ({
            let old_list = live_list(old(adjacency)@, offsets@, old(live)@, vertex as int);
            let new_list = live_list(final(adjacency)@, offsets@, final(live)@, vertex as int);
            if old_list.to_multiset().count(triangle) > 0 {
                &&& final(live)@ == old(live)@.update(vertex as int, (old(live)[vertex as int] - 1) as u32)
                &&& forall|x: u32| #[trigger] new_list.to_multiset().count(x) == old_list.to_multiset().count(x) - if x == triangle { 1int } else { 0int }
            } else {
                &&& final(live)@ == old(live)@
                &&& final(adjacency)@ == old(adjacency)@
            }
        }),
        (final(adjacency)@, final(live)@) == removed_live(
            old(adjacency)@,
            offsets@,
            old(live)@,
            vertex as int,
            triangle,
        ),
{
    let start = offsets[vertex];
    let count = live[vertex] as usize;
    let ghost old_list = live_list(adjacency@, offsets@, live@, vertex as int);
    let mut position: usize = 0;
    while position < count && adjacency[start + position] != triangle
        invariant
            position <= count,
            start + count <= adjacency.len(),
            old_list == adjacency@.subrange(start as int, start + count),
            forall|q: int| 0 <= q < position ==> #[trigger] old_list[q] != triangle,
        decreases count - position,
    {
        position = position + 1;
    }
    proof {
        lemma_position_in(old_list, triangle, position as int);
    }
    if position == count {
        assert(!old_list.contains(triangle));
        return;
    }
    let last = start + count - 1;
    let found = adjacency[start + position];
    let moved = adjacency[last];
    let ghost old_adjacency = adjacency@;
    adjacency.set(start + position, moved);
    adjacency.set(last, found);
    live.set(vertex, (count - 1) as u32);
    proof {
        let swapped = old_list.update(position as int, old_list[count - 1]).update(
            count - 1,
            triangle,
        );
        let new_list = live_list(adjacency@, offsets@, live@, vertex as int);
        assert(adjacency@.subrange(start as int, start + count) =~= swapped);
        assert(swapped =~= new_list.push(triangle));
        assert(swapped.to_multiset() =~= old_list.to_multiset());
        assert forall|i: int| 0 <= i < adjacency.len() implies #[trigger] adjacency@[i] < bound by {
            if i == start + position {
                assert(old_adjacency[last as int] < bound);
            }
            if i == last {
                assert(old_adjacency[start + position] < bound);
            }
        }
    }
}

/// The adjacency ranges of the vertices are disjoint, inside `adjacency`, and each of them starts
/// with the live triangles of its vertex.
pub open spec fn ranges_ok(offsets: Seq<usize>, live: Seq<u32>, counts: Seq<u32>, adjacency_len: int) -> bool {
    &&& live.len() == offsets.len()
    &&& counts.len() == offsets.len()
    &&& forall|v: int|
        0 <= v < offsets.len() ==> #[trigger] live[v] <= counts[v] && offsets[v] + counts[v]
            <= adjacency_len
    &&& forall|u: int, v: int|
        0 <= u < v < offsets.len() ==> #[trigger] offsets[u] + counts[u] <= #[trigger] offsets[v]
}

/// How many times triangle `t` is listed among the live triangles of vertex `v`: once per corner
/// of `t` that is `v`, while `t` hasn't been emitted.
pub open spec fn expected_count(indices: Seq<u32>, emitted: Seq<bool>, t: u32, v: int) -> int {
    if t < emitted.len() && !emitted[t as int] {
        corner_count(indices, t as int, v) as int
    } else {
        0
    }
}

/// The live triangles of each vertex are exactly the triangles that use it and haven't been
/// emitted yet.
pub open spec fn live_lists_ok(
    indices: Seq<u32>,
    adjacency: Seq<u32>,
    offsets: Seq<usize>,
    live: Seq<u32>,
    emitted: Seq<bool>,
) -> bool {
    forall|v: int, t: u32|
        0 <= v < offsets.len() ==> #[trigger] live_list(adjacency, offsets, live, v).to_multiset().count(t)
            == expected_count(indices, emitted, t, v)
}

proof fn lemma_other_list_unchanged(
    adjacency0: Seq<u32>,
    adjacency1: Seq<u32>,
    offsets: Seq<usize>,
    live0: Seq<u32>,
    live1: Seq<u32>,
    counts: Seq<u32>,
    c: int,
    u: int,
)
    requires
        ranges_ok(offsets, live0, counts, adjacency0.len() as int),
        adjacency1.len() == adjacency0.len(),
        0 <= c < offsets.len(),
        0 <= u < offsets.len(),
        u != c,
        live1.len() == live0.len(),
        live1[u] == live0[u],
        forall|i: int|
            0 <= i < adjacency0.len() && !(offsets[c] <= i < offsets[c] + live0[c])
                ==> #[trigger] adjacency1[i] == adjacency0[i],
    ensures
        live_list(adjacency1, offsets, live1, u) == live_list(adjacency0, offsets, live0, u),
{
    if u < c {
        assert(offsets[u] + counts[u] <= offsets[c]);
    } else {
        assert(offsets[c] + counts[c] <= offsets[u]);
    }
    assert(live_list(adjacency1, offsets, live1, u) =~= live_list(adjacency0, offsets, live0, u));
}

/// The number of the first `k` corners that are `v`.
pub open spec fn corners_before(c0: u32, c1: u32, c2: u32, k: int, v: int) -> int {
    (if k > 0 && c0 == v { 1int } else { 0int }) + (if k > 1 && c1 == v { 1int } else { 0int })
        + (if k > 2 && c2 == v { 1int } else { 0int })
}

/// The adjacency array and live counts once `triangle` is removed from the live triangles of its
/// first `k` corners, in order.
pub open spec fn removed_corners(
    indices: Seq<u32>,
    adjacency: Seq<u32>,
    offsets: Seq<usize>,
    live: Seq<u32>,
    triangle: int,
    k: int,
) -> (Seq<u32>, Seq<u32>)
    decreases k,
{
    if k <= 0 {
        (adjacency, live)
    } else {
        let (a, l) = removed_corners(indices, adjacency, offsets, live, triangle, k - 1);
        removed_live(a, offsets, l, indices[3 * triangle + k - 1] as int, triangle as u32)
    }
}

/// Removes the corners of `triangle` from the live triangles of its vertices, once it has been
/// emitted.
fn remove_emitted_triangle(
    adjacency: &mut Vec<u32>,
    offsets: &Vec<usize>,
    live: &mut Vec<u32>,
    indices: &Vec<u32>,
    triangle: usize,
    Ghost(counts): Ghost<Seq<u32>>,
    Ghost(emitted): Ghost<Seq<bool>>,
)
    requires
        indices.len() % 3 == 0,
        indices.len() <= u32::MAX,
        emitted.len() == indices.len() / 3,
        triangle < emitted.len(),
        !emitted[triangle as int],
        all_below(indices@, offsets.len() as int),
        all_below(old(adjacency)@, emitted.len() as int),
        ranges_ok(offsets@, old(live)@, counts, old(adjacency).len() as int),
        live_lists_ok(indices@, old(adjacency)@, offsets@, old(live)@, emitted),
    ensures
        final(adjacency).len() == old(adjacency).len(),
        all_below(final(adjacency)@, emitted.len() as int),
        ranges_ok(offsets@, final(live)@, counts, final(adjacency).len() as int),
        live_lists_ok(
            indices@,
            final(adjacency)@,
            offsets@,
            final(live)@,
            emitted.update(triangle as int, true),
        ),
        forall|v: int|
            0 <= v < offsets.len() ==> #[trigger] final(live)[v] <= old(live)[v],
        (final(adjacency)@, final(live)@) == removed_corners(
            indices@,
            old(adjacency)@,
            offsets@,
            old(live)@,
            triangle as int,
            3,
        ),
{
    let ghost tc = emitted.len() as int;
    let ghost t = triangle as u32;
    let c0 = indices[3 * triangle];
    let c1 = indices[3 * triangle + 1];
    let c2 = indices[3 * triangle + 2];
    let ghost live_start = live@;
    let ghost adjacency_len = adjacency.len();
    let ghost e1 = emitted.update(triangle as int, true);
    let mut k: usize = 0;
    while k < 3
        invariant
            k <= 3,
            c0 == indices@[3 * triangle],
            c1 == indices@[3 * triangle + 1],
            c2 == indices@[3 * triangle + 2],
            t == triangle,
            tc == emitted.len(),
            triangle < tc,
            adjacency.len() == adjacency_len,
            !emitted[triangle as int],
            indices.len() == 3 * tc,
            all_below(indices@, offsets.len() as int),
            all_below(adjacency@, tc),
            ranges_ok(offsets@, live@, counts, adjacency.len() as int),
            live.len() == offsets.len(),
            forall|v: int| 0 <= v < offsets.len() ==> #[trigger] live[v] <= live_start[v],
            forall|v: int, x: u32|
                0 <= v < offsets.len() ==> #[trigger] live_list(
                    adjacency@,
                    offsets@,
                    live@,
                    v,
                ).to_multiset().count(x) == expected_count(indices@, emitted, x, v) - if x == t {
                    corners_before(c0, c1, c2, k as int, v)
                } else {
                    0
                },
            (adjacency@, live@) == removed_corners(
                indices@,
                old(adjacency)@,
                offsets@,
                old(live)@,
                triangle as int,
                k as int,
            ),
        decreases 3 - k,
    {
        let corner = if k == 0 {
            c0
        } else if k == 1 {
            c1
        } else {
            c2
        };
        let ghost adjacency0 = adjacency@;
        let ghost live0 = live@;
        proof {
            assert(live_list(adjacency0, offsets@, live0, corner as int).to_multiset().count(t) > 0);
        }
        remove_live_triangle(adjacency, offsets, live, corner as usize, triangle as u32, Ghost(tc));
        proof {
            assert forall|v: int, x: u32|
                0 <= v < offsets.len() implies #[trigger] live_list(
                    adjacency@,
                    offsets@,
                    live@,
                    v,
                ).to_multiset().count(x) == expected_count(indices@, emitted, x, v) - if x == t {
                    corners_before(c0, c1, c2, k + 1, v)
                } else {
                    0
                } by {
                if v != corner {
                    lemma_other_list_unchanged(
                        adjacency0,
                        adjacency@,
                        offsets@,
                        live0,
                        live@,
                        counts,
                        corner as int,
                        v,
                    );
                }
            }
        }
        k = k + 1;
    }
    proof {
        assert forall|v: int, x: u32|
            0 <= v < offsets.len() implies #[trigger] live_list(
                adjacency@,
                offsets@,
                live@,
                v,
            ).to_multiset().count(x) == expected_count(indices@, e1, x, v) by {
        }
    }
}

/// The score of triangle `t`: the sum of the scores of its corners. A degenerate triangle counts
/// a repeated vertex several times, as it appears several times in that vertex's live triangles.
pub open spec fn triangle_score(indices: Seq<u32>, vertex_scores: Seq<i64>, t: int) -> int {
    vertex_scores[indices[3 * t] as int] + vertex_scores[indices[3 * t + 1] as int]
        + vertex_scores[indices[3 * t + 2] as int]
}

/// The vertex scores are in range, and the score of each live triangle is up to date.
pub open spec fn scores_ok(
    indices: Seq<u32>,
    vertex_scores: Seq<i64>,
    triangle_scores: Seq<i64>,
    emitted: Seq<bool>,
) -> bool {
    &&& triangle_scores.len() == emitted.len()
    &&& forall|v: int|
        0 <= v < vertex_scores.len() ==> 0 <= #[trigger] vertex_scores[v] <= MAX_VERTEX_SCORE
    &&& forall|t: int|
        0 <= t < emitted.len() && !emitted[t] ==> #[trigger] triangle_scores[t] == triangle_score(
            indices,
            vertex_scores,
            t,
        )
}

/// `delta` added `n` times, for `n <= 3`.
pub open spec fn scaled(delta: int, n: int) -> int {
    if n <= 0 {
        0
    } else if n == 1 {
        delta
    } else if n == 2 {
        delta + delta
    } else {
        delta + delta + delta
    }
}

proof fn lemma_prefix_count_le(s: Seq<u32>, j: int, x: u32)
    requires
        0 <= j <= s.len(),
    ensures
        s.take(j).to_multiset().count(x) <= s.to_multiset().count(x),
{
    assert(s =~= s.take(j) + s.skip(j));
    lemma_multiset_commutative(s.take(j), s.skip(j));
}

/// The triangle scores, best score and best triangle after adding `delta` to the scores of the
/// first `j` triangles of `list`, one by one, each triangle whose new score beats the best score
/// becoming the best triangle.
pub open spec fn rescored_list(
    list: Seq<u32>,
    triangle_scores: Seq<i64>,
    delta: int,
    best_score: i64,
    best: Option<usize>,
    j: int,
) -> (Seq<i64>, i64, Option<usize>)
    decreases j,
{
    if j <= 0 {
        (triangle_scores, best_score, best)
    } else {
        let (scores, score, current) = rescored_list(
            list,
            triangle_scores,
            delta,
            best_score,
            best,
            j - 1,
        );
        let t = list[j - 1] as int;
        let value = (scores[t] + delta) as i64;
        let updated = scores.update(t, value);
        if value > score {
            (updated, value, Some(t as usize))
        } else {
            (updated, score, current)
        }
    }
}

/// The vertex scores, triangle scores, best score and best triangle once `vertex` is rescored at
/// `cache_position` and the change is added to its live triangles (see [`rescored_list`]).
pub open spec fn rescored(
    vertex: int,
    cache_position: Option<usize>,
    adjacency: Seq<u32>,
    offsets: Seq<usize>,
    live: Seq<u32>,
    vertex_scores: Seq<i64>,
    triangle_scores: Seq<i64>,
    best_score: i64,
    best: Option<usize>,
) -> (Seq<i64>, Seq<i64>, i64, Option<usize>) {
    let score = vertex_score(cache_position, live[vertex]);
    let list = live_list(adjacency, offsets, live, vertex);
    let (scores, new_best_score, new_best) = rescored_list(
        list,
        triangle_scores,
        score - vertex_scores[vertex],
        best_score,
        best,
        list.len() as int,
    );
    (vertex_scores.update(vertex, score as i64), scores, new_best_score, new_best)
}

/// Updates the score of `vertex`, after it moved to `cache_position` in the cache (if any) or its
/// number of live triangles changed, and propagates the change to its live triangles. Each live
/// triangle whose score becomes higher than `best_score` becomes the `current` candidate.
fn rescore_vertex(
    vertex: usize,
    cache_position: Option<usize>,
    table: &VertexScoreTable,
    indices: &Vec<u32>,
    adjacency: &Vec<u32>,
    offsets: &Vec<usize>,
    live: &Vec<u32>,
    vertex_scores: &mut Vec<i64>,
    triangle_scores: &mut Vec<i64>,
    best_score: &mut i64,
    current: &mut Option<usize>,
    Ghost(counts): Ghost<Seq<u32>>,
    Ghost(emitted): Ghost<Seq<bool>>,
)
    requires
        table.wf(),
        cache_position matches Some(position) ==> position < SIMULATED_CACHE_SIZE,
        vertex < offsets.len(),
        indices.len() == 3 * emitted.len(),
        indices.len() <= u32::MAX,
        all_below(indices@, offsets.len() as int),
        all_below(adjacency@, emitted.len() as int),
        ranges_ok(offsets@, live@, counts, adjacency.len() as int),
        live_lists_ok(indices@, adjacency@, offsets@, live@, emitted),
        old(vertex_scores).len() == offsets.len(),
        scores_ok(indices@, old(vertex_scores)@, old(triangle_scores)@, emitted),
        *old(current) matches Some(t) ==> t < emitted.len() && !emitted[t as int],
    ensures
        final(vertex_scores)@ == old(vertex_scores)@.update(
            vertex as int,
            vertex_score(cache_position, live[vertex as int]) as i64,
        ),
        scores_ok(indices@, final(vertex_scores)@, final(triangle_scores)@, emitted),
        *final(current) matches Some(t) ==> t < emitted.len() && !emitted[t as int],
        *old(current) is Some ==> *final(current) is Some,
        *final(current) != *old(current) ==> (*final(current) matches Some(t) && corner_count(
            indices@,
            t as int,
            vertex as int,
        ) > 0),
        (final(vertex_scores)@, final(triangle_scores)@, *final(best_score), *final(current))
            == rescored(
            vertex as int,
            cache_position,
            adjacency@,
            offsets@,
            live@,
            old(vertex_scores)@,
            old(triangle_scores)@,
            *old(best_score),
            *old(current),
        ),
{
    let ghost tc = emitted.len() as int;
    let ghost pre = vertex_scores@;
    let ghost pre_triangle_scores = triangle_scores@;
    let score = table.score(cache_position, live[vertex]);
    let delta = score - vertex_scores[vertex];
    vertex_scores.set(vertex, score);
    let ghost post = vertex_scores@;
    let start = offsets[vertex];
    let count = live[vertex] as usize;
    let ghost list = live_list(adjacency@, offsets@, live@, vertex as int);
    assert(list =~= adjacency@.subrange(start as int, start + count));
    let mut j: usize = 0;
    while j < count
        invariant
            j <= count,
            start + count <= adjacency.len(),
            list =~= adjacency@.subrange(start as int, start + count),
            tc == emitted.len(),
            indices.len() == 3 * tc,
            tc <= u32::MAX,
            all_below(indices@, offsets.len() as int),
            all_below(adjacency@, tc),
            vertex < offsets.len(),
            pre.len() == offsets.len(),
            triangle_scores.len() == tc,
            delta == post[vertex as int] - pre[vertex as int],
            post == pre.update(vertex as int, post[vertex as int]),
            -MAX_VERTEX_SCORE <= delta <= MAX_VERTEX_SCORE,
            forall|v: int| 0 <= v < pre.len() ==> 0 <= #[trigger] pre[v] <= MAX_VERTEX_SCORE,
            forall|x: u32| #[trigger]
                list.to_multiset().count(x) == expected_count(indices@, emitted, x, vertex as int),
            forall|t: int|
                0 <= t < tc && !emitted[t] ==> #[trigger] triangle_scores@[t] == triangle_score(
                    indices@,
                    pre,
                    t,
                ) + scaled(delta as int, list.take(j as int).to_multiset().count(t as u32) as int),
            *old(current) is Some ==> *current is Some,
            *current matches Some(t) ==> t < tc && !emitted[t as int],
            *current != *old(current) ==> (*current matches Some(t) && corner_count(
                indices@,
                t as int,
                vertex as int,
            ) > 0),
            (triangle_scores@, *best_score, *current) == rescored_list(
                list,
                pre_triangle_scores,
                delta as int,
                *old(best_score),
                *old(current),
                j as int,
            ),
        decreases count - j,
    {
        let adjacent = adjacency[start + j];
        proof {
            let a = adjacent;
            assert(list[j as int] == a);
            assert(list.take(j + 1) =~= list.take(j as int).push(a));
            lemma_prefix_count_le(list, j + 1, a);
            assert(list.to_multiset().count(a) > 0);
            assert(a < tc);
            assert(!emitted[a as int]);
            assert(corner_count(indices@, a as int, vertex as int) <= 3);
        }
        let ghost before = triangle_scores@;
        assert(list[j as int] == adjacent);
        triangle_scores.set(adjacent as usize, triangle_scores[adjacent as usize] + delta);
        if triangle_scores[adjacent as usize] > *best_score {
            *best_score = triangle_scores[adjacent as usize];
            *current = Some(adjacent as usize);
        }
        proof {
            assert forall|t: int|
                0 <= t < tc && !emitted[t] implies #[trigger] triangle_scores@[t] == triangle_score(
                indices@,
                pre,
                t,
            ) + scaled(delta as int, list.take(j + 1).to_multiset().count(t as u32) as int) by {
                assert(list.take(j + 1) =~= list.take(j as int).push(adjacent));
                lemma_prefix_count_le(list, j as int, t as u32);
            }
        }
        j = j + 1;
    }
    proof {
        assert(list.take(count as int) =~= list);
        assert forall|t: int|
            0 <= t < tc && !emitted[t] implies #[trigger] triangle_scores@[t] == triangle_score(
            indices@,
            post,
            t,
        ) by {
            assert(list.to_multiset().count(t as u32) == corner_count(indices@, t, vertex as int));
        }
        assert forall|v: int|
            0 <= v < post.len() implies 0 <= #[trigger] post[v] <= MAX_VERTEX_SCORE by {
            if v != vertex {
                assert(post[v] == pre[v]);
            }
        }
    }
}

/// A sequence of distinct integers in `[0, n)` has at most `n` elements.
pub proof fn lemma_distinct_below(s: Seq<int>, n: int)
    requires
        0 <= n,
        s.no_duplicates(),
        forall|k: int| 0 <= k < s.len() ==> 0 <= #[trigger] s[k] < n,
    ensures
        s.len() <= n,
{
    s.unique_seq_to_set();
    lemma_int_range(0, n);
    assert(s.to_set().subset_of(set_int_range(0, n)));
    lemma_len_subset(s.to_set(), set_int_range(0, n));
}

/// A sequence of distinct integers in `[0, n)` that contains all of them has `n` elements.
proof fn lemma_distinct_covering(s: Seq<int>, n: int)
    requires
        0 <= n,
        s.no_duplicates(),
        forall|k: int| 0 <= k < s.len() ==> 0 <= #[trigger] s[k] < n,
        forall|t: int| 0 <= t < n ==> #[trigger] s.contains(t),
    ensures
        s.len() == n,
{
    lemma_distinct_below(s, n);
    s.unique_seq_to_set();
    lemma_int_range(0, n);
    assert(set_int_range(0, n).subset_of(s.to_set()));
    lemma_len_subset(set_int_range(0, n), s.to_set());
}

/// `order` lists each of the `triangle_count` triangles once.
pub open spec fn is_triangle_order(order: Seq<int>, triangle_count: int) -> bool {
    &&& order.len() == triangle_count
    &&& order.no_duplicates()
    &&& forall|k: int| 0 <= k < order.len() ==> 0 <= #[trigger] order[k] < triangle_count
}

/// `after` holds the triangles of the triangle list `before` in the given `order`, each with its
/// corners in the same order.
pub open spec fn is_reordered(before: Seq<u32>, after: Seq<u32>, order: Seq<int>) -> bool {
    &&& after.len() == 3 * order.len()
    &&& forall|k: int|
        0 <= k < order.len() ==> {
            &&& after[3 * k] == before[3 * #[trigger] order[k]]
            &&& after[3 * k + 1] == before[3 * order[k] + 1]
            &&& after[3 * k + 2] == before[3 * order[k] + 2]
        }
}

/// `after` holds the same triangles as the triangle list `before`, each once, in some order,
/// with the same winding (the corners of each triangle keep their order).
pub open spec fn is_triangle_permutation(before: Seq<u32>, after: Seq<u32>) -> bool {
    exists|order: Seq<int>|
        is_triangle_order(order, (before.len() / 3) as int) && #[trigger] is_reordered(before, after, order)
}

/// Vertex `v` is a corner of one of the triangles listed in `emitted`.
pub open spec fn is_corner_of(indices: Seq<u32>, emitted: Seq<int>, v: int) -> bool {
    exists|j: int| 0 <= j < emitted.len() && #[trigger] corner_count(indices, emitted[j], v) > 0
}

/// Triangle `t` shares a vertex with one of the triangles listed in `emitted`.
pub open spec fn touches(indices: Seq<u32>, emitted: Seq<int>, t: int) -> bool {
    ||| is_corner_of(indices, emitted, indices[3 * t] as int)
    ||| is_corner_of(indices, emitted, indices[3 * t + 1] as int)
    ||| is_corner_of(indices, emitted, indices[3 * t + 2] as int)
}

/// After the triangles listed in `emitted`, triangle `t` comes next in a walk over the mesh: it
/// shares a vertex with one of them, or none of the triangles left does.
pub open spec fn walk_step(indices: Seq<u32>, emitted: Seq<int>, t: int) -> bool {
    ||| touches(indices, emitted, t)
    ||| forall|u: int|
        0 <= u < indices.len() / 3 && !emitted.contains(u) ==> !#[trigger] touches(
            indices,
            emitted,
            u,
        )
}

/// The triangles of `order` form a walk over the mesh: each of them shares a vertex with an
/// earlier one, unless none of the triangles left does.
pub open spec fn is_walk(indices: Seq<u32>, order: Seq<int>) -> bool {
    forall|k: int| 1 <= k < order.len() ==> #[trigger] walk_step(indices, order.take(k), order[k])
}

/// The score of vertex `v` before any triangle is emitted: out of the cache, with all its
/// triangles live.
pub open spec fn initial_vertex_score(indices: Seq<u32>, v: int) -> int {
    vertex_score(None, count_upto(indices, indices.len() as int, v) as u32)
}

/// The score of triangle `t` before any triangle is emitted.
pub open spec fn initial_triangle_score(indices: Seq<u32>, t: int) -> int {
    initial_vertex_score(indices, indices[3 * t] as int) + initial_vertex_score(
        indices,
        indices[3 * t + 1] as int,
    ) + initial_vertex_score(indices, indices[3 * t + 2] as int)
}

/// Triangle `t` is the first of the triangles with the best initial score.
pub open spec fn is_best_start(indices: Seq<u32>, t: int) -> bool {
    &&& 0 <= t < indices.len() / 3
    &&& forall|u: int|
        0 <= u < indices.len() / 3 ==> #[trigger] initial_triangle_score(indices, u)
            <= initial_triangle_score(indices, t)
    &&& forall|u: int|
        0 <= u < t ==> #[trigger] initial_triangle_score(indices, u) < initial_triangle_score(
            indices,
            t,
        )
}

/// `after` holds the triangles of the triangle list `before`, each once with its winding, in the
/// order of a walk over the mesh that starts from the first triangle with the best initial score.
pub open spec fn is_cache_order(before: Seq<u32>, after: Seq<u32>) -> bool {
    exists|order: Seq<int>|
        {
            &&& is_triangle_order(order, (before.len() / 3) as int)
            &&& #[trigger] is_reordered(before, after, order)
            &&& is_walk(before, order)
            &&& order.len() > 0 ==> is_best_start(before, order[0])
        }
}

/// A vertex without live triangles is not a corner of any triangle left to emit.
proof fn lemma_no_live_corner(
    indices: Seq<u32>,
    adjacency: Seq<u32>,
    offsets: Seq<usize>,
    live: Seq<u32>,
    counts: Seq<u32>,
    emitted: Seq<bool>,
    v: int,
    t: int,
)
    requires
        ranges_ok(offsets, live, counts, adjacency.len() as int),
        live_lists_ok(indices, adjacency, offsets, live, emitted),
        0 <= v < offsets.len(),
        live[v] == 0,
        0 <= t < emitted.len(),
        t <= u32::MAX,
        !emitted[t],
    ensures
        corner_count(indices, t, v) == 0,
{
    let list = live_list(adjacency, offsets, live, v);
    assert(list =~= Seq::<u32>::empty());
    assert(list.to_multiset().count(t as u32) == expected_count(indices, emitted, t as u32, v));
}

/// The corners of the triangles of `order` stay corners when a triangle is appended.
proof fn lemma_corner_of_push(indices: Seq<u32>, order: Seq<int>, t: int, v: int)
    requires
        is_corner_of(indices, order, v),
    ensures
        is_corner_of(indices, order.push(t), v),
{
    let j = choose|j: int| 0 <= j < order.len() && #[trigger] corner_count(indices, order[j], v) > 0;
    assert(order.push(t)[j] == order[j]);
}

/// The corners of an appended triangle are corners of the triangles of the new order.
proof fn lemma_corner_of_last(indices: Seq<u32>, order: Seq<int>, t: int, v: int)
    requires
        corner_count(indices, t, v) > 0,
    ensures
        is_corner_of(indices, order.push(t), v),
{
    assert(order.push(t)[order.len() as int] == t);
}

/// A triangle with a corner that is a corner of a triangle of `order` touches them.
proof fn lemma_touches_via(indices: Seq<u32>, order: Seq<int>, t: int, v: int)
    requires
        corner_count(indices, t, v) > 0,
        is_corner_of(indices, order, v),
    ensures
        touches(indices, order, t),
{
}

/// Appending a triangle that comes next in the walk keeps the order a walk.
proof fn lemma_walk_push(indices: Seq<u32>, order: Seq<int>, t: int)
    requires
        is_walk(indices, order),
        order.len() > 0 ==> walk_step(indices, order, t),
    ensures
        is_walk(indices, order.push(t)),
{
    let next = order.push(t);
    assert forall|k: int| 1 <= k < next.len() implies #[trigger] walk_step(
        indices,
        next.take(k),
        next[k],
    ) by {
        if k < order.len() {
            assert(next.take(k) =~= order.take(k));
            assert(walk_step(indices, order.take(k), order[k]));
        } else {
            assert(next.take(k) =~= order);
        }
    }
}

/// Emitting `triangle` and pushing its corners on the stack of recently used vertices keeps every
/// corner of an emitted triangle that has live triangles on that stack.
proof fn lemma_emit_keeps_stack(
    indices: Seq<u32>,
    order: Seq<int>,
    triangle: int,
    old_live: Seq<u32>,
    live: Seq<u32>,
    old_stack: Seq<u32>,
    stack: Seq<u32>,
    vertex_count: int,
)
    requires
        0 <= 3 * triangle + 2 < indices.len(),
        old_live.len() == vertex_count,
        live.len() == vertex_count,
        forall|v: int| 0 <= v < vertex_count ==> #[trigger] live[v] <= old_live[v],
        stack == old_stack.push(indices[3 * triangle]).push(indices[3 * triangle + 1]).push(
            indices[3 * triangle + 2],
        ),
        forall|j: int|
            0 <= j < old_stack.len() ==> is_corner_of(indices, order, #[trigger] old_stack[j] as int),
        forall|v: int|
            0 <= v < vertex_count && #[trigger] is_corner_of(indices, order, v) && old_live[v] > 0
                ==> old_stack.contains(v as u32) || corner_count(indices, triangle, v) > 0,
    ensures
        forall|j: int|
            0 <= j < stack.len() ==> is_corner_of(
                indices,
                order.push(triangle),
                #[trigger] stack[j] as int,
            ),
        forall|v: int|
            0 <= v < vertex_count && #[trigger] is_corner_of(indices, order.push(triangle), v)
                && live[v] > 0 ==> stack.contains(v as u32),
{
    let next = order.push(triangle);
    let c0 = indices[3 * triangle];
    let c1 = indices[3 * triangle + 1];
    let c2 = indices[3 * triangle + 2];
    assert(corner_count(indices, triangle, c0 as int) > 0);
    assert(corner_count(indices, triangle, c1 as int) > 0);
    assert(corner_count(indices, triangle, c2 as int) > 0);
    lemma_corner_of_last(indices, order, triangle, c0 as int);
    lemma_corner_of_last(indices, order, triangle, c1 as int);
    lemma_corner_of_last(indices, order, triangle, c2 as int);
    assert forall|j: int| 0 <= j < stack.len() implies is_corner_of(
        indices,
        next,
        #[trigger] stack[j] as int,
    ) by {
        if j < old_stack.len() {
            assert(stack[j] == old_stack[j]);
            lemma_corner_of_push(indices, order, triangle, old_stack[j] as int);
        }
    }
    assert forall|v: int|
        0 <= v < vertex_count && #[trigger] is_corner_of(indices, next, v) && live[v]
            > 0 implies stack.contains(v as u32) by {
        if corner_count(indices, triangle, v) > 0 {
            if v == c0 {
                assert(stack[old_stack.len() as int] == c0);
            } else if v == c1 {
                assert(stack[old_stack.len() as int + 1] == c1);
            } else {
                assert(stack[old_stack.len() as int + 2] == c2);
            }
        } else {
            let j = choose|j: int| 0 <= j < next.len() && #[trigger] corner_count(indices, next[j], v) > 0;
            assert(j < order.len());
            assert(next[j] == order[j]);
            assert(is_corner_of(indices, order, v));
            assert(old_stack.contains(v as u32));
            let i = choose|i: int| 0 <= i < old_stack.len() && old_stack[i] == v as u32;
            assert(stack[i] == v as u32);
        }
    }
}

/// On a dead end, the triangle picked around the most recently used vertex that has live
/// triangles touches the emitted triangles, and the vertices left on the stack still cover the
/// corners of the emitted triangles with live triangles, but for the corners of that triangle.
proof fn lemma_pick_keeps_stack(
    indices: Seq<u32>,
    order: Seq<int>,
    stack_before: Seq<u32>,
    stack: Seq<u32>,
    live: Seq<u32>,
    vertex_count: int,
    t: int,
)
    requires
        stack.len() < stack_before.len(),
        stack == stack_before.take(stack.len() as int),
        corner_count(indices, t, stack_before[stack.len() as int] as int) > 0,
        forall|i: int|
            stack.len() < i < stack_before.len() ==> live[#[trigger] stack_before[i] as int] == 0,
        forall|j: int|
            0 <= j < stack_before.len() ==> is_corner_of(
                indices,
                order,
                #[trigger] stack_before[j] as int,
            ),
        forall|v: int|
            0 <= v < vertex_count && #[trigger] is_corner_of(indices, order, v) && live[v] > 0
                ==> stack_before.contains(v as u32),
    ensures
        touches(indices, order, t),
        forall|j: int| 0 <= j < stack.len() ==> is_corner_of(indices, order, #[trigger] stack[j] as int),
        forall|v: int|
            0 <= v < vertex_count && #[trigger] is_corner_of(indices, order, v) && live[v] > 0
                ==> stack.contains(v as u32) || corner_count(indices, t, v) > 0,
{
    let n = stack.len() as int;
    let w = stack_before[n] as int;
    assert(is_corner_of(indices, order, w));
    lemma_touches_via(indices, order, t, w);
    assert forall|j: int| 0 <= j < stack.len() implies is_corner_of(
        indices,
        order,
        #[trigger] stack[j] as int,
    ) by {
        assert(stack[j] == stack_before[j]);
    }
    assert forall|v: int|
        0 <= v < vertex_count && #[trigger] is_corner_of(indices, order, v) && live[v]
            > 0 implies stack.contains(v as u32) || corner_count(indices, t, v) > 0 by {
        let i = choose|i: int| 0 <= i < stack_before.len() && stack_before[i] == v as u32;
        if i < n {
            assert(stack[i] == v as u32);
        } else if i > n {
            assert(live[stack_before[i] as int] == 0);
        }
    }
}

/// On a dead end where no vertex of the stack has live triangles, no corner of the emitted
/// triangles has any, so no triangle left touches the emitted ones.
proof fn lemma_dead_end_is_closed(
    indices: Seq<u32>,
    adjacency: Seq<u32>,
    offsets: Seq<usize>,
    live: Seq<u32>,
    counts: Seq<u32>,
    emitted: Seq<bool>,
    order: Seq<int>,
    stack_before: Seq<u32>,
)
    requires
        ranges_ok(offsets, live, counts, adjacency.len() as int),
        live_lists_ok(indices, adjacency, offsets, live, emitted),
        indices.len() == 3 * emitted.len(),
        indices.len() <= u32::MAX,
        all_below(indices, offsets.len() as int),
        forall|s: int| 0 <= s < emitted.len() ==> (#[trigger] emitted[s] <==> order.contains(s)),
        forall|i: int| 0 <= i < stack_before.len() ==> live[#[trigger] stack_before[i] as int] == 0,
        forall|v: int|
            0 <= v < offsets.len() && #[trigger] is_corner_of(indices, order, v) && live[v] > 0
                ==> stack_before.contains(v as u32),
    ensures
        forall|v: int|
            0 <= v < offsets.len() && #[trigger] is_corner_of(indices, order, v) ==> live[v] == 0,
        forall|u: int|
            0 <= u < indices.len() / 3 && !order.contains(u) ==> !#[trigger] touches(
                indices,
                order,
                u,
            ),
{
    assert forall|v: int|
        0 <= v < offsets.len() && #[trigger] is_corner_of(indices, order, v) implies live[v]
        == 0 by {
        if live[v] > 0 {
            let i = choose|i: int| 0 <= i < stack_before.len() && stack_before[i] == v as u32;
            assert(live[stack_before[i] as int] == 0);
        }
    }
    assert forall|u: int| 0 <= u < indices.len() / 3 && !order.contains(u) implies !#[trigger] touches(
        indices,
        order,
        u,
    ) by {
        assert(!emitted[u]);
        let a = indices[3 * u] as int;
        let b = indices[3 * u + 1] as int;
        let c = indices[3 * u + 2] as int;
        if is_corner_of(indices, order, a) {
            lemma_no_live_corner(indices, adjacency, offsets, live, counts, emitted, a, u);
        }
        if is_corner_of(indices, order, b) {
            lemma_no_live_corner(indices, adjacency, offsets, live, counts, emitted, b, u);
        }
        if is_corner_of(indices, order, c) {
            lemma_no_live_corner(indices, adjacency, offsets, live, counts, emitted, c, u);
        }
    }
}

/// The scores of the vertices when no vertex is in the cache, and the scores of the triangles.
fn initial_scores(
    table: &VertexScoreTable,
    indices: &Vec<u32>,
    live: &Vec<u32>,
    Ghost(emitted): Ghost<Seq<bool>>,
) -> (scores: (Vec<i64>, Vec<i64>))
    requires
        table.wf(),
        indices.len() == 3 * emitted.len(),
        all_below(indices@, live.len() as int),
    ensures
        scores.0.len() == live.len(),
        forall|v: int|
            0 <= v < live.len() ==> #[trigger] scores.0@[v] == vertex_score(None, live[v]),
        scores_ok(indices@, scores.0@, scores.1@, emitted),
{
    let mut vertex_scores: Vec<i64> = Vec::new();
    let mut v: usize = 0;
    while v < live.len()
        invariant
            table.wf(),
            v <= live.len(),
            vertex_scores.len() == v,
            forall|u: int| 0 <= u < v ==> #[trigger] vertex_scores@[u] == vertex_score(None, live[u]),
            forall|u: int| 0 <= u < v ==> 0 <= #[trigger] vertex_scores@[u] <= MAX_VERTEX_SCORE,
        decreases live.len() - v,
    {
        let score = table.score(None, live[v]);
        vertex_scores.push(score);
        v = v + 1;
    }
    let mut triangle_scores: Vec<i64> = Vec::new();
    let triangle_count = indices.len() / 3;
    let mut t: usize = 0;
    while t < triangle_count
        invariant
            t <= triangle_count,
            triangle_count == emitted.len(),
            indices.len() == 3 * triangle_count,
            all_below(indices@, live.len() as int),
            vertex_scores.len() == live.len(),
            forall|u: int| 0 <= u < live.len() ==> 0 <= #[trigger] vertex_scores@[u] <= MAX_VERTEX_SCORE,
            triangle_scores.len() == t,
            forall|s: int|
                0 <= s < t ==> #[trigger] triangle_scores@[s] == triangle_score(
                    indices@,
                    vertex_scores@,
                    s,
                ),
        decreases triangle_count - t,
    {
        let a = indices[3 * t] as usize;
        let b = indices[3 * t + 1] as usize;
        let c = indices[3 * t + 2] as usize;
        triangle_scores.push(vertex_scores[a] + vertex_scores[b] + vertex_scores[c]);
        t = t + 1;
    }
    (vertex_scores, triangle_scores)
}

/// The first triangle with the best score.
fn best_triangle(triangle_scores: &Vec<i64>) -> (best: usize)
    requires
        triangle_scores.len() > 0,
    ensures
        best < triangle_scores.len(),
        forall|t: int| 0 <= t < triangle_scores.len() ==> #[trigger] triangle_scores@[t] <= triangle_scores@[best as int],
        forall|t: int| 0 <= t < best ==> #[trigger] triangle_scores@[t] < triangle_scores@[best as int],
        best == best_index(triangle_scores@, triangle_scores.len() as int),
{
    let mut best: usize = 0;
    let mut t: usize = 1;
    while t < triangle_scores.len()
        invariant
            best < t <= triangle_scores.len(),
            forall|s: int| 0 <= s < t ==> #[trigger] triangle_scores@[s] <= triangle_scores@[best as int],
            forall|s: int| 0 <= s < best ==> #[trigger] triangle_scores@[s] < triangle_scores@[best as int],
            best == best_index(triangle_scores@, t as int),
        decreases triangle_scores.len() - t,
    {
        if triangle_scores[t] > triangle_scores[best] {
            best = t;
        }
        t = t + 1;
    }
    best
}

/// Whether `vertex` is among the first `len` entries of `cache`.
fn cache_contains(cache: &Vec<u32>, len: usize, vertex: u32) -> (found: bool)
    requires
        len <= cache.len(),
    ensures
        found == cache@.take(len as int).contains(vertex),
{
    let mut i: usize = 0;
    while i < len
        invariant
            i <= len <= cache.len(),
            forall|j: int| 0 <= j < i ==> #[trigger] cache@[j] != vertex,
        decreases len - i,
    {
        if cache[i] == vertex {
            assert(cache@.take(len as int)[i as int] == vertex);
            return true;
        }
        i = i + 1;
    }
    assert forall|j: int| 0 <= j < len implies #[trigger] cache@.take(len as int)[j] != vertex by {}
    false
}

/// `vertex` is one of the `corners`, or one of the first `cache_len` vertices of `cache`.
spec fn is_corner_or_cached(vertex: u32, corners: (u32, u32, u32), cache: Seq<u32>, cache_len: int) -> bool {
    ||| vertex == corners.0
    ||| vertex == corners.1
    ||| vertex == corners.2
    ||| exists|j: int| 0 <= j < cache_len && #[trigger] cache[j] == vertex
}

/// Corner `k` of `corners`.
pub open spec fn corner_at(corners: (u32, u32, u32), k: int) -> u32 {
    if k == 0 {
        corners.0
    } else if k == 1 {
        corners.1
    } else {
        corners.2
    }
}

/// The first `k` corners, each once, in order.
pub open spec fn distinct_corners(corners: (u32, u32, u32), k: int) -> Seq<u32>
    decreases k,
{
    if k <= 0 {
        Seq::empty()
    } else {
        let previous = distinct_corners(corners, k - 1);
        let corner = corner_at(corners, k - 1);
        if previous.contains(corner) {
            previous
        } else {
            previous.push(corner)
        }
    }
}

/// The vertices of `cache`, in order, without the `corners`.
pub open spec fn cached_except(cache: Seq<u32>, corners: (u32, u32, u32)) -> Seq<u32>
    decreases cache.len(),
{
    if cache.len() == 0 {
        Seq::empty()
    } else {
        let rest = cached_except(cache.drop_last(), corners);
        let vertex = cache.last();
        if vertex != corners.0 && vertex != corners.1 && vertex != corners.2 {
            rest.push(vertex)
        } else {
            rest
        }
    }
}

/// Writes the vertices of the emitted triangle at the front of `new_cache`, each once, followed by
/// the vertices of `cache` that are not corners of the triangle. Returns the number of vertices
/// written.
fn move_to_front(
    cache: &Vec<u32>,
    cache_len: usize,
    corners: (u32, u32, u32),
    new_cache: &mut Vec<u32>,
    Ghost(vertex_count): Ghost<int>,
) -> (new_len: usize)
    requires
        cache.len() == SIMULATED_CACHE_SIZE + 3,
        old(new_cache).len() == SIMULATED_CACHE_SIZE + 3,
        cache_len <= SIMULATED_CACHE_SIZE,
        forall|i: int| 0 <= i < cache_len ==> #[trigger] cache@[i] < vertex_count,
        corners.0 < vertex_count,
        corners.1 < vertex_count,
        corners.2 < vertex_count,
    ensures
        final(new_cache).len() == SIMULATED_CACHE_SIZE + 3,
        new_len <= cache_len + 3,
        forall|i: int| 0 <= i < new_len ==> #[trigger] final(new_cache)@[i] < vertex_count,
        forall|i: int|
            0 <= i < new_len ==> is_corner_or_cached(
                #[trigger] final(new_cache)@[i],
                corners,
                cache@,
                cache_len as int,
            ),
        final(new_cache)@.take(new_len as int) == distinct_corners(corners, 3) + cached_except(
            cache@.take(cache_len as int),
            corners,
        ),
{
    let mut new_len: usize = 0;
    let mut k: usize = 0;
    while k < 3
        invariant
            k <= 3,
            new_len <= k,
            new_cache.len() == SIMULATED_CACHE_SIZE + 3,
            corners.0 < vertex_count,
            corners.1 < vertex_count,
            corners.2 < vertex_count,
            forall|i: int| 0 <= i < new_len ==> #[trigger] new_cache@[i] < vertex_count,
            forall|i: int|
                0 <= i < new_len ==> is_corner_or_cached(
                    #[trigger] new_cache@[i],
                    corners,
                    cache@,
                    cache_len as int,
                ),
            new_cache@.take(new_len as int) == distinct_corners(corners, k as int),
        decreases 3 - k,
    {
        let vertex = if k == 0 {
            corners.0
        } else if k == 1 {
            corners.1
        } else {
            corners.2
        };
        assert(vertex == corner_at(corners, k as int));
        let ghost before = new_cache@.take(new_len as int);
        if !cache_contains(new_cache, new_len, vertex) {
            new_cache.set(new_len, vertex);
            new_len = new_len + 1;
            assert(new_cache@.take(new_len as int) =~= before.push(vertex));
        }
        k = k + 1;
    }
    let mut i: usize = 0;
    while i < cache_len
        invariant
            i <= cache_len <= SIMULATED_CACHE_SIZE,
            cache.len() == SIMULATED_CACHE_SIZE + 3,
            new_len <= i + 3,
            new_cache.len() == SIMULATED_CACHE_SIZE + 3,
            forall|j: int| 0 <= j < cache_len ==> #[trigger] cache@[j] < vertex_count,
            forall|j: int| 0 <= j < new_len ==> #[trigger] new_cache@[j] < vertex_count,
            forall|j: int|
                0 <= j < new_len ==> is_corner_or_cached(
                    #[trigger] new_cache@[j],
                    corners,
                    cache@,
                    cache_len as int,
                ),
            new_cache@.take(new_len as int) == distinct_corners(corners, 3) + cached_except(
                cache@.take(i as int),
                corners,
            ),
        decreases cache_len - i,
    {
        let vertex = cache[i];
        let ghost before = new_cache@.take(new_len as int);
        proof {
            assert(cache@.take(i + 1).drop_last() =~= cache@.take(i as int));
            assert(cache@.take(i + 1).last() == vertex);
        }
        if vertex != corners.0 && vertex != corners.1 && vertex != corners.2 {
            new_cache.set(new_len, vertex);
            new_len = new_len + 1;
            assert(new_cache@.take(new_len as int) =~= before.push(vertex));
        }
        i = i + 1;
    }
    new_len
}

/// The last of the first `j` triangles of `list` with the best score among them.
pub open spec fn best_in_list(list: Seq<u32>, triangle_scores: Seq<i64>, j: int) -> u32
    decreases j,
{
    if j <= 1 {
        list[0]
    } else {
        let best = best_in_list(list, triangle_scores, j - 1);
        let candidate = list[j - 1];
        if triangle_scores[candidate as int] >= triangle_scores[best as int] {
            candidate
        } else {
            best
        }
    }
}

/// The stack of recently used vertices once popped down to the most recent one with live
/// triangles (included), and the last of its live triangles with the best score, if any.
pub open spec fn picked_around(
    stack: Seq<u32>,
    adjacency: Seq<u32>,
    offsets: Seq<usize>,
    live: Seq<u32>,
    triangle_scores: Seq<i64>,
) -> (Seq<u32>, Option<usize>)
    decreases stack.len(),
{
    if stack.len() == 0 {
        (stack, None)
    } else {
        let list = live_list(adjacency, offsets, live, stack.last() as int);
        if list.len() > 0 {
            (stack.drop_last(), Some(best_in_list(list, triangle_scores, list.len() as int) as usize))
        } else {
            picked_around(stack.drop_last(), adjacency, offsets, live, triangle_scores)
        }
    }
}

/// On a dead end, where no vertex of the cache has live triangles: the live triangle with the best
/// score around the most recently used vertex that has one, if any. Ties go to the last of them.
fn pick_around_recent_vertices(
    dead_end_stack: &mut Vec<u32>,
    adjacency: &Vec<u32>,
    offsets: &Vec<usize>,
    live: &Vec<u32>,
    triangle_scores: &Vec<i64>,
    indices: Ghost<Seq<u32>>,
    Ghost(counts): Ghost<Seq<u32>>,
    Ghost(emitted): Ghost<Seq<bool>>,
) -> (picked: Option<usize>)
    requires
        all_below(old(dead_end_stack)@, offsets.len() as int),
        all_below(adjacency@, emitted.len() as int),
        triangle_scores.len() == emitted.len(),
        ranges_ok(offsets@, live@, counts, adjacency.len() as int),
        live_lists_ok(indices@, adjacency@, offsets@, live@, emitted),
    ensures
        all_below(final(dead_end_stack)@, offsets.len() as int),
        picked matches Some(t) ==> t < emitted.len() && !emitted[t as int],
        final(dead_end_stack)@ == old(dead_end_stack)@.take(final(dead_end_stack).len() as int),
        forall|i: int|
            final(dead_end_stack).len() < i < old(dead_end_stack).len() ==> live[#[trigger] old(
                dead_end_stack,
            )@[i] as int] == 0,
        picked is None ==> final(dead_end_stack).len() == 0 && (old(dead_end_stack).len() > 0
            ==> live[old(dead_end_stack)@[0] as int] == 0),
        picked matches Some(t) ==> final(dead_end_stack).len() < old(dead_end_stack).len()
            && corner_count(
            indices@,
            t as int,
            old(dead_end_stack)@[final(dead_end_stack).len() as int] as int,
        ) > 0,
        (final(dead_end_stack)@, picked) == picked_around(
            old(dead_end_stack)@,
            adjacency@,
            offsets@,
            live@,
            triangle_scores@,
        ),
{
    let ghost stack = dead_end_stack@;
    while dead_end_stack.len() > 0
        invariant
            all_below(dead_end_stack@, offsets.len() as int),
            all_below(adjacency@, emitted.len() as int),
            triangle_scores.len() == emitted.len(),
            ranges_ok(offsets@, live@, counts, adjacency.len() as int),
            live_lists_ok(indices@, adjacency@, offsets@, live@, emitted),
            stack == old(dead_end_stack)@,
            dead_end_stack.len() <= stack.len(),
            dead_end_stack@ == stack.take(dead_end_stack.len() as int),
            forall|i: int|
                dead_end_stack.len() <= i < stack.len() ==> live[#[trigger] stack[i] as int] == 0,
            picked_around(stack, adjacency@, offsets@, live@, triangle_scores@) == picked_around(
                dead_end_stack@,
                adjacency@,
                offsets@,
                live@,
                triangle_scores@,
            ),
        decreases dead_end_stack.len(),
    {
        let ghost len = dead_end_stack.len() as int;
        let vertex = dead_end_stack.pop().unwrap() as usize;
        let start = offsets[vertex];
        let count = live[vertex] as usize;
        let ghost list = live_list(adjacency@, offsets@, live@, vertex as int);
        if count > 0 {
            let mut best = adjacency[start];
            assert(list[0] == best);
            let mut j: usize = 1;
            while j < count
                invariant
                    1 <= j <= count,
                    start + count <= adjacency.len(),
                    list =~= adjacency@.subrange(start as int, start + count),
                    list.contains(best),
                    all_below(adjacency@, emitted.len() as int),
                    triangle_scores.len() == emitted.len(),
                    best == best_in_list(list, triangle_scores@, j as int),
                decreases count - j,
            {
                let candidate = adjacency[start + j];
                if triangle_scores[candidate as usize] >= triangle_scores[best as usize] {
                    best = candidate;
                }
                assert(list[j as int] == candidate);
                j = j + 1;
            }
            proof {
                assert(list.to_multiset().count(best) > 0);
                assert(dead_end_stack@ =~= stack.take(dead_end_stack.len() as int));
                assert(stack[dead_end_stack.len() as int] == vertex);
            }
            return Some(best as usize);
        }
        proof {
            assert(dead_end_stack@ =~= stack.take(dead_end_stack.len() as int));
            assert(stack[len - 1] == vertex);
        }
    }
    None
}

/// The index of the first triangle with the best score among the first `n`.
pub open spec fn best_index(triangle_scores: Seq<i64>, n: int) -> int
    decreases n,
{
    if n <= 1 {
        0
    } else {
        let best = best_index(triangle_scores, n - 1);
        if triangle_scores[n - 1] > triangle_scores[best] {
            n - 1
        } else {
            best
        }
    }
}

/// The vertex scores, triangle scores, best score and best triangle once the first `i` vertices
/// of `cache` are rescored in order, at their positions in the cache (see [`rescored`]).
pub open spec fn rescored_cache(
    cache: Seq<u32>,
    adjacency: Seq<u32>,
    offsets: Seq<usize>,
    live: Seq<u32>,
    vertex_scores: Seq<i64>,
    triangle_scores: Seq<i64>,
    best_score: i64,
    best: Option<usize>,
    i: int,
) -> (Seq<i64>, Seq<i64>, i64, Option<usize>)
    decreases i,
{
    if i <= 0 {
        (vertex_scores, triangle_scores, best_score, best)
    } else {
        let (vs, ts, score, current) = rescored_cache(
            cache,
            adjacency,
            offsets,
            live,
            vertex_scores,
            triangle_scores,
            best_score,
            best,
            i - 1,
        );
        let position = if i - 1 < SIMULATED_CACHE_SIZE {
            Some((i - 1) as usize)
        } else {
            None
        };
        rescored(cache[i - 1] as int, position, adjacency, offsets, live, vs, ts, score, current)
    }
}

/// The first triangle at or after `n` that hasn't been emitted, or the number of triangles.
pub open spec fn first_unemitted_from(emitted: Seq<bool>, n: int) -> int
    decreases emitted.len() - n,
{
    if n >= emitted.len() {
        emitted.len() as int
    } else if !emitted[n] {
        n
    } else {
        first_unemitted_from(emitted, n + 1)
    }
}

/// The state of the reordering between two emitted triangles: the live triangles of each vertex
/// (in the ranges of `adjacency`), the scores, which triangles are emitted, the simulated cache,
/// the stack of recently used vertices, where to look for an unemitted triangle on a dead end,
/// the next triangle to emit, and the indices emitted so far.
#[verifier::ext_equal]
pub struct ReorderState {
    pub adjacency: Seq<u32>,
    pub live: Seq<u32>,
    pub vertex_scores: Seq<i64>,
    pub triangle_scores: Seq<i64>,
    pub emitted: Seq<bool>,
    pub cache: Seq<u32>,
    pub stack: Seq<u32>,
    pub next_unemitted: int,
    pub current: Option<usize>,
    pub output: Seq<u32>,
}

/// The start of the adjacency range of each of the `vertex_count` vertices.
pub open spec fn vertex_offsets(indices: Seq<u32>, vertex_count: int) -> Seq<usize> {
    Seq::new(vertex_count as nat, |v: int| sum_counts(indices, indices.len() as int, v) as usize)
}

/// The state before any triangle is emitted: every corner is live, no vertex is in the cache,
/// and the first triangle with the best score comes first.
pub open spec fn initial_reorder_state(indices: Seq<u32>, vertex_count: int) -> ReorderState {
    let n = indices.len() as int;
    let live = Seq::new(vertex_count as nat, |v: int| count_upto(indices, n, v) as u32);
    let vertex_scores = Seq::new(
        vertex_count as nat,
        |v: int| vertex_score(None, live[v]) as i64,
    );
    let triangle_scores = Seq::new(
        (n / 3) as nat,
        |t: int| triangle_score(indices, vertex_scores, t) as i64,
    );
    ReorderState {
        adjacency: filled_adjacency(indices, vertex_offsets(indices, vertex_count), n).0,
        live,
        vertex_scores,
        triangle_scores,
        emitted: Seq::new((n / 3) as nat, |t: int| false),
        cache: Seq::empty(),
        stack: Seq::empty(),
        next_unemitted: 0,
        current: Some(best_index(triangle_scores, n / 3) as usize),
        output: Seq::empty(),
    }
}

/// One step of the reordering: the current triangle is emitted and removed from the live
/// triangles of its vertices, its vertices move to the front of the cache and are pushed on the
/// stack of recently used vertices, and the vertices of the cache are rescored, the best live
/// triangle around them becoming the next one. On a dead end, the next triangle is the best one
/// around the most recently used vertex that still has live triangles, or else the first triangle
/// not emitted yet.
#[verifier::opaque]
pub open spec fn reorder_step(indices: Seq<u32>, offsets: Seq<usize>, state: ReorderState) -> ReorderState {
    let t = state.current->0 as int;
    let corners = (indices[3 * t], indices[3 * t + 1], indices[3 * t + 2]);
    let (adjacency, live) = removed_corners(indices, state.adjacency, offsets, state.live, t, 3);
    let emitted = state.emitted.update(t, true);
    let stack = state.stack.push(corners.0).push(corners.1).push(corners.2);
    let new_cache = distinct_corners(corners, 3) + cached_except(state.cache, corners);
    let (vertex_scores, triangle_scores, best_score, best) = rescored_cache(
        new_cache,
        adjacency,
        offsets,
        live,
        state.vertex_scores,
        state.triangle_scores,
        i64::MIN,
        None,
        new_cache.len() as int,
    );
    let cache = new_cache.take(
        if new_cache.len() < SIMULATED_CACHE_SIZE {
            new_cache.len() as int
        } else {
            SIMULATED_CACHE_SIZE as int
        },
    );
    let output = state.output + seq![corners.0, corners.1, corners.2];
    if best is Some {
        ReorderState {
            adjacency,
            live,
            vertex_scores,
            triangle_scores,
            emitted,
            cache,
            stack,
            next_unemitted: state.next_unemitted,
            current: best,
            output,
        }
    } else {
        let (rest, picked) = picked_around(stack, adjacency, offsets, live, triangle_scores);
        if picked is Some {
            ReorderState {
                adjacency,
                live,
                vertex_scores,
                triangle_scores,
                emitted,
                cache,
                stack: rest,
                next_unemitted: state.next_unemitted,
                current: picked,
                output,
            }
        } else {
            let next = first_unemitted_from(emitted, state.next_unemitted);
            ReorderState {
                adjacency,
                live,
                vertex_scores,
                triangle_scores,
                emitted,
                cache,
                stack: rest,
                next_unemitted: next,
                current: if next < emitted.len() {
                    Some(next as usize)
                } else {
                    None
                },
                output,
            }
        }
    }
}

/// The state of the reordering after `k` steps.
pub open spec fn reorder_state(indices: Seq<u32>, vertex_count: int, k: nat) -> ReorderState
    decreases k,
{
    if k == 0 {
        initial_reorder_state(indices, vertex_count)
    } else {
        reorder_step(
            indices,
            vertex_offsets(indices, vertex_count),
            reorder_state(indices, vertex_count, (k - 1) as nat),
        )
    }
}

/// The triangle list `indices`, over `vertex_count` vertices, in the order of the reordering:
/// unchanged with fewer than two triangles, else the indices emitted after one step per triangle.
pub open spec fn reordered(indices: Seq<u32>, vertex_count: int) -> Seq<u32> {
    if indices.len() / 3 <= 1 {
        indices
    } else {
        reorder_state(indices, vertex_count, (indices.len() / 3) as nat).output
    }
}

/// A state `next` reached from `state` by emitting the current triangle, moving its corners to
/// the front of the cache (giving `new_cache`), rescoring the vertices of `new_cache` (giving
/// `rescored`), pushing the corners on the stack (giving `pushed`) and choosing the next triangle
/// as the reordering does, is the next step of the reordering.
proof fn lemma_reorder_step(
    indices: Seq<u32>,
    offsets: Seq<usize>,
    state: ReorderState,
    next: ReorderState,
    new_cache: Seq<u32>,
    rescored: (Seq<i64>, Seq<i64>, i64, Option<usize>),
    pushed: Seq<u32>,
)
    requires
        state.current is Some,
        ({
            let t = state.current->0 as int;
            let corners = (indices[3 * t], indices[3 * t + 1], indices[3 * t + 2]);
            &&& (next.adjacency, next.live) == removed_corners(
                indices,
                state.adjacency,
                offsets,
                state.live,
                t,
                3,
            )
            &&& next.emitted == state.emitted.update(t, true)
            &&& pushed == state.stack.push(corners.0).push(corners.1).push(corners.2)
            &&& new_cache == distinct_corners(corners, 3) + cached_except(state.cache, corners)
            &&& next.output == state.output + seq![corners.0, corners.1, corners.2]
        }),
        rescored == rescored_cache(
            new_cache,
            next.adjacency,
            offsets,
            next.live,
            state.vertex_scores,
            state.triangle_scores,
            i64::MIN,
            None,
            new_cache.len() as int,
        ),
        next.vertex_scores == rescored.0,
        next.triangle_scores == rescored.1,
        next.cache == new_cache.take(
            if new_cache.len() < SIMULATED_CACHE_SIZE {
                new_cache.len() as int
            } else {
                SIMULATED_CACHE_SIZE as int
            },
        ),
        rescored.3 is Some ==> next.current == rescored.3 && next.stack == pushed
            && next.next_unemitted == state.next_unemitted,
        rescored.3 is None ==> ({
            let (rest, picked) = picked_around(
                pushed,
                next.adjacency,
                offsets,
                next.live,
                next.triangle_scores,
            );
            &&& next.stack == rest
            &&& picked is Some ==> next.current == picked && next.next_unemitted
                == state.next_unemitted
            &&& picked is None ==> next.next_unemitted == first_unemitted_from(
                next.emitted,
                state.next_unemitted,
            ) && next.current == (if next.next_unemitted < next.emitted.len() {
                Some(next.next_unemitted as usize)
            } else {
                None
            })
        }),
    ensures
        next =~= reorder_step(indices, offsets, state),
{
    reveal(reorder_step);
}

/// Reorders the triangles of a triangle list to improve the post-transform vertex cache hit rate,
/// using Tom Forsyth's "Linear-Speed Vertex Cache Optimization" algorithm.
///
/// Only the order of the triangles changes: each triangle is kept once, with its corners in the
/// same order, so the winding of every triangle is preserved. The new order starts with the first
/// triangle with the best score, and walks over the mesh: each triangle shares a vertex with an
/// earlier one, unless none of the triangles left does. It is the order of [`reordered`]: after
/// each triangle, the next one is the first live triangle with the best score around the vertices
/// of the simulated cache; on a dead end, the last best-scoring live triangle of the most recently
/// used vertex that has one; and failing that, the first triangle not emitted yet.
///
/// The scores are fixed-point numbers (in units of 1/65536) read from tables, and the score of a
/// triangle is the exact sum of the scores of its vertices. Where a floating-point computation of
/// the same scores would round two nearly equal scores differently, the order can differ from the
/// one such a computation gives.
///
/// Triangles are numbered with `u32` and so are the corners of each vertex: the list holds at
/// most `u32::MAX` indices.
#[verifier::rlimit(100)]
pub fn optimize_vertex_cache(indices: &mut Vec<u32>, vertex_count: usize)
    requires
        old(indices).len() % 3 == 0,
        old(indices).len() <= u32::MAX,
        all_below(old(indices)@, vertex_count as int),
    ensures
        final(indices).len() == old(indices).len(),
        is_triangle_permutation(old(indices)@, final(indices)@),
        is_cache_order(old(indices)@, final(indices)@),
        final(indices)@ == reordered(old(indices)@, vertex_count as int),
        old(indices).len() <= 3 ==> final(indices)@ == old(indices)@,
{
    let triangle_count = indices.len() / 3;
    let ghost tc = triangle_count as int;
    let ghost input = indices@;
    if triangle_count <= 1 {
        proof {
            let order = Seq::new(tc as nat, |k: int| k);
            assert(is_reordered(input, indices@, order));
            assert(is_triangle_order(order, tc));
            assert(is_walk(input, order));
            assert(order.len() > 0 ==> is_best_start(input, order[0]));
        }
        return;
    }
    let table = VertexScoreTable::new();

    // Number of triangles that still need to be emitted, for each vertex.
    let mut live = count_corners(indices, vertex_count);
    let ghost counts = live@;
    // For each vertex, the list of triangles that use it, stored contiguously. The live triangles
    // of vertex `v` are the first `live[v]` of its range: when a triangle is emitted, it is
    // swapped out of this range.
    let offsets = adjacency_offsets(&live, Ghost(indices@));
    let mut adjacency = build_adjacency(indices, &offsets, Ghost(counts));
    proof {
        lemma_sum_counts_total(indices@, indices.len() as int, vertex_count as int);
        assert forall|v: int| 0 <= v < vertex_count implies #[trigger] live[v] <= counts[v]
            && offsets[v] + counts[v] <= adjacency.len() by {
            lemma_sum_counts_monotone(indices@, indices.len() as int, v + 1, vertex_count as int);
        }
        assert forall|u: int, v: int|
            0 <= u < v < vertex_count implies #[trigger] offsets[u] + counts[u] <= #[trigger] offsets[v] by {
            lemma_sum_counts_monotone(indices@, indices.len() as int, u + 1, v);
        }
    }

    let mut emitted: Vec<bool> = Vec::new();
    let mut t: usize = 0;
    while t < triangle_count
        invariant
            t <= triangle_count,
            emitted.len() == t,
            forall|s: int| 0 <= s < t ==> !#[trigger] emitted@[s],
        decreases triangle_count - t,
    {
        emitted.push(false);
        t = t + 1;
    }
    proof {
        assert forall|v: int, x: u32|
            0 <= v < vertex_count implies #[trigger] live_list(
                adjacency@,
                offsets@,
                live@,
                v,
            ).to_multiset().count(x) == expected_count(indices@, emitted@, x, v) by {
            assert(live[v] == counts[v]);
        }
    }

    let (mut vertex_scores, mut triangle_scores) = initial_scores(
        &table,
        indices,
        &live,
        Ghost(emitted@),
    );
    proof {
        assert forall|s: int| 0 <= s < tc implies #[trigger] triangle_scores@[s]
            == initial_triangle_score(input, s) by {
            assert(!emitted@[s]);
        }
    }

    // The simulated LRU cache, most recently used vertex first. It holds up to 3 extra vertices
    // while being updated, before they get evicted.
    let mut cache: Vec<u32> = Vec::new();
    let mut new_cache: Vec<u32> = Vec::new();
    let mut i: usize = 0;
    while i < SIMULATED_CACHE_SIZE + 3
        invariant
            i <= SIMULATED_CACHE_SIZE + 3,
            cache.len() == i,
            new_cache.len() == i,
        decreases SIMULATED_CACHE_SIZE + 3 - i,
    {
        cache.push(0);
        new_cache.push(0);
        i = i + 1;
    }
    let mut cache_len: usize = 0;

    // Vertices of emitted triangles, used to find a nearby triangle when the cache doesn't contain
    // any vertex with live triangles.
    let mut dead_end_stack: Vec<u32> = Vec::new();
    // All the triangles before this one have been emitted.
    let mut next_unemitted_triangle: usize = 0;

    let mut output: Vec<u32> = Vec::new();
    let ghost mut order: Seq<int> = Seq::empty();

    // Start with the triangle that has the best score, which is on the border of the mesh.
    let best = best_triangle(&triangle_scores);
    proof {
        assert forall|u: int| 0 <= u < tc implies #[trigger] initial_triangle_score(input, u)
            <= initial_triangle_score(input, best as int) by {
            assert(triangle_scores@[u] <= triangle_scores@[best as int]);
        }
        assert forall|u: int| 0 <= u < best implies #[trigger] initial_triangle_score(input, u)
            < initial_triangle_score(input, best as int) by {
            assert(triangle_scores@[u] < triangle_scores@[best as int]);
        }
    }
    let mut current_triangle: Option<usize> = Some(best);
    proof {
        let initial = initial_reorder_state(input, vertex_count as int);
        assert(offsets@ =~= vertex_offsets(input, vertex_count as int));
        assert(live@ =~= initial.live);
        assert(vertex_scores@ =~= initial.vertex_scores);
        assert(triangle_scores@ =~= initial.triangle_scores) by {
            assert forall|t: int| 0 <= t < tc implies triangle_scores@[t]
                == initial.triangle_scores[t] by {
                assert(!emitted@[t]);
            }
        }
        assert(emitted@ =~= initial.emitted);
        assert(cache@.take(0) =~= Seq::<u32>::empty());
        assert(dead_end_stack@ =~= Seq::<u32>::empty());
        assert(output@ =~= Seq::<u32>::empty());
        assert((ReorderState {
            adjacency: adjacency@,
            live: live@,
            vertex_scores: vertex_scores@,
            triangle_scores: triangle_scores@,
            emitted: emitted@,
            cache: cache@.take(cache_len as int),
            stack: dead_end_stack@,
            next_unemitted: next_unemitted_triangle as int,
            current: current_triangle,
            output: output@,
        }) =~= reorder_state(input, vertex_count as int, 0));
    }

    while current_triangle.is_some()
        invariant
            indices@ == input,
            tc == triangle_count,
            indices.len() == 3 * tc,
            indices.len() <= u32::MAX,
            tc <= u32::MAX,
            table.wf(),
            offsets.len() == vertex_count,
            all_below(indices@, vertex_count as int),
            all_below(adjacency@, tc),
            ranges_ok(offsets@, live@, counts, adjacency.len() as int),
            emitted.len() == tc,
            live_lists_ok(indices@, adjacency@, offsets@, live@, emitted@),
            vertex_scores.len() == vertex_count,
            scores_ok(indices@, vertex_scores@, triangle_scores@, emitted@),
            cache.len() == SIMULATED_CACHE_SIZE + 3,
            new_cache.len() == SIMULATED_CACHE_SIZE + 3,
            cache_len <= SIMULATED_CACHE_SIZE,
            forall|j: int| 0 <= j < cache_len ==> #[trigger] cache@[j] < vertex_count,
            all_below(dead_end_stack@, vertex_count as int),
            next_unemitted_triangle <= tc,
            forall|s: int| 0 <= s < next_unemitted_triangle ==> #[trigger] emitted@[s],
            order.no_duplicates(),
            forall|k: int| 0 <= k < order.len() ==> 0 <= #[trigger] order[k] < tc,
            forall|s: int| 0 <= s < tc ==> (#[trigger] emitted@[s] <==> order.contains(s)),
            is_reordered(input, output@, order),
            current_triangle matches Some(s) ==> s < tc && !emitted@[s as int],
            current_triangle is None ==> forall|s: int| 0 <= s < tc ==> #[trigger] emitted@[s],
            is_walk(input, order),
            order.len() == 0 ==> (current_triangle matches Some(s) && is_best_start(input, s as int)),
            order.len() > 0 ==> is_best_start(input, order[0]),
            current_triangle matches Some(s) ==> (order.len() > 0 ==> walk_step(input, order, s as int)),
            forall|j: int| 0 <= j < cache_len ==> is_corner_of(input, order, #[trigger] cache@[j] as int),
            forall|j: int|
                0 <= j < dead_end_stack.len() ==> is_corner_of(
                    input,
                    order,
                    #[trigger] dead_end_stack@[j] as int,
                ),
            forall|v: int|
                0 <= v < vertex_count && #[trigger] is_corner_of(input, order, v) && live[v] > 0
                    ==> dead_end_stack@.contains(v as u32) || (current_triangle matches Some(s)
                    && corner_count(input, s as int, v) > 0),
            offsets@ == vertex_offsets(input, vertex_count as int),
            (ReorderState {
                adjacency: adjacency@,
                live: live@,
                vertex_scores: vertex_scores@,
                triangle_scores: triangle_scores@,
                emitted: emitted@,
                cache: cache@.take(cache_len as int),
                stack: dead_end_stack@,
                next_unemitted: next_unemitted_triangle as int,
                current: current_triangle,
                output: output@,
            }) == reorder_state(input, vertex_count as int, order.len()),
        decreases tc - order.len(),
    {
        let ghost state = reorder_state(input, vertex_count as int, order.len());
        let ghost old_output = output@;
        let triangle = current_triangle.unwrap();
        let c0 = indices[3 * triangle];
        let c1 = indices[3 * triangle + 1];
        let c2 = indices[3 * triangle + 2];
        output.push(c0);
        output.push(c1);
        output.push(c2);
        let ghost old_emitted = emitted@;
        let ghost old_order = order;
        proof {
            order = order.push(triangle as int);
            assert(!old_order.contains(triangle as int));
            assert forall|k: int| 0 <= k < order.len() implies 0 <= #[trigger] order[k] < tc by {}
            assert(order.no_duplicates()) by {
                assert forall|a: int, b: int|
                    0 <= a < b < order.len() implies order[a] != order[b] by {
                    if b == order.len() - 1 {
                        assert(old_order.contains(old_order[a]));
                    }
                }
            }
            lemma_distinct_below(order, tc);
            assert forall|k: int| 0 <= k < order.len() implies {
                &&& output@[3 * k] == input[3 * #[trigger] order[k]]
                &&& output@[3 * k + 1] == input[3 * order[k] + 1]
                &&& output@[3 * k + 2] == input[3 * order[k] + 2]
            } by {
                if k < old_order.len() {
                    assert(order[k] == old_order[k]);
                }
            }
            lemma_walk_push(input, old_order, triangle as int);
            if old_order.len() > 0 {
                assert(order[0] == old_order[0]);
            }
        }
        let ghost old_live = live@;
        let ghost old_stack = dead_end_stack@;
        let ghost old_adjacency = adjacency@;
        // Remove the triangle from the live triangles of its vertices.
        remove_emitted_triangle(
            &mut adjacency,
            &offsets,
            &mut live,
            indices,
            triangle,
            Ghost(counts),
            Ghost(emitted@),
        );
        emitted.set(triangle, true);
        dead_end_stack.push(c0);
        dead_end_stack.push(c1);
        dead_end_stack.push(c2);
        let ghost pushed = dead_end_stack@;
        proof {
            assert forall|s: int| 0 <= s < tc && !emitted@[s] implies #[trigger] triangle_scores@[s]
                == triangle_score(indices@, vertex_scores@, s) by {
                assert(!old_emitted[s]);
            }
            assert forall|s: int| 0 <= s < tc implies (#[trigger] emitted@[s] <==> order.contains(s)) by {
                if s != triangle {
                    if old_order.contains(s) {
                        let k = choose|k: int| 0 <= k < old_order.len() && old_order[k] == s;
                        assert(order[k] == s);
                    }
                    if order.contains(s) {
                        let k = choose|k: int| 0 <= k < order.len() && order[k] == s;
                        assert(k < old_order.len());
                        assert(old_order[k] == s);
                    }
                }
                assert(order[order.len() - 1] == triangle);
            }
            lemma_emit_keeps_stack(
                input,
                old_order,
                triangle as int,
                old_live,
                live@,
                old_stack,
                dead_end_stack@,
                vertex_count as int,
            );
            assert forall|j: int| 0 <= j < cache_len implies is_corner_of(
                input,
                order,
                #[trigger] cache@[j] as int,
            ) by {
                lemma_corner_of_push(input, old_order, triangle as int, cache@[j] as int);
            }
        }

        // Move the vertices of the triangle to the front of the cache.
        let new_cache_len = move_to_front(
            &cache,
            cache_len,
            (c0, c1, c2),
            &mut new_cache,
            Ghost(vertex_count as int),
        );
        proof {
            assert(corner_count(input, triangle as int, c0 as int) > 0);
            assert(corner_count(input, triangle as int, c1 as int) > 0);
            assert(corner_count(input, triangle as int, c2 as int) > 0);
            lemma_corner_of_last(input, old_order, triangle as int, c0 as int);
            lemma_corner_of_last(input, old_order, triangle as int, c1 as int);
            lemma_corner_of_last(input, old_order, triangle as int, c2 as int);
            assert forall|i: int| 0 <= i < new_cache_len implies is_corner_of(
                input,
                order,
                #[trigger] new_cache@[i] as int,
            ) by {
                let v = new_cache@[i];
                assert(is_corner_or_cached(v, (c0, c1, c2), cache@, cache_len as int));
                if v != c0 && v != c1 && v != c2 {
                    let j = choose|j: int| 0 <= j < cache_len && #[trigger] cache@[j] == v;
                    assert(is_corner_of(input, order, cache@[j] as int));
                }
            }
        }

        // Update the scores of the vertices in the cache, including the ones that just got
        // evicted, and propagate the changes to their live triangles. At the same time, pick the
        // live triangle with the best score as the next one. Some triangles are compared before
        // all their vertices have been updated: this makes the choice slightly less accurate, but
        // halves the cost of each step.
        let ghost vertex_scores0 = vertex_scores@;
        let ghost triangle_scores0 = triangle_scores@;
        let ghost moved = new_cache@.take(new_cache_len as int);
        current_triangle = None;
        let mut best_score: i64 = i64::MIN;
        let mut position: usize = 0;
        while position < new_cache_len
            invariant
                position <= new_cache_len <= SIMULATED_CACHE_SIZE + 3,
                new_cache.len() == SIMULATED_CACHE_SIZE + 3,
                forall|j: int| 0 <= j < new_cache_len ==> #[trigger] new_cache@[j] < vertex_count,
                indices@ == input,
                tc == triangle_count,
                indices.len() == 3 * tc,
                indices.len() <= u32::MAX,
                tc <= u32::MAX,
                table.wf(),
                offsets.len() == vertex_count,
                all_below(indices@, vertex_count as int),
                all_below(adjacency@, tc),
                ranges_ok(offsets@, live@, counts, adjacency.len() as int),
                emitted.len() == tc,
                live_lists_ok(indices@, adjacency@, offsets@, live@, emitted@),
                vertex_scores.len() == vertex_count,
                scores_ok(indices@, vertex_scores@, triangle_scores@, emitted@),
                current_triangle matches Some(s) ==> s < tc && !emitted@[s as int],
                forall|j: int|
                    0 <= j < new_cache_len ==> is_corner_of(input, order, #[trigger] new_cache@[j] as int),
                current_triangle matches Some(s) ==> touches(input, order, s as int),
                moved == new_cache@.take(new_cache_len as int),
                (vertex_scores@, triangle_scores@, best_score, current_triangle) == rescored_cache(
                    moved,
                    adjacency@,
                    offsets@,
                    live@,
                    vertex_scores0,
                    triangle_scores0,
                    i64::MIN,
                    None,
                    position as int,
                ),
            decreases new_cache_len - position,
        {
            let vertex = new_cache[position] as usize;
            let cache_position = if position < SIMULATED_CACHE_SIZE {
                Some(position)
            } else {
                None
            };
            let ghost previous = current_triangle;
            assert(moved[position as int] == vertex);
            rescore_vertex(
                vertex,
                cache_position,
                &table,
                indices,
                &adjacency,
                &offsets,
                &live,
                &mut vertex_scores,
                &mut triangle_scores,
                &mut best_score,
                &mut current_triangle,
                Ghost(counts),
                Ghost(emitted@),
            );
            proof {
                if current_triangle != previous {
                    assert(is_corner_of(input, order, new_cache@[position as int] as int));
                    lemma_touches_via(input, order, current_triangle->0 as int, vertex as int);
                }
            }
            position = position + 1;
        }
        let ghost rescored = (vertex_scores@, triangle_scores@, best_score, current_triangle);

        cache_len = if new_cache_len < SIMULATED_CACHE_SIZE {
            new_cache_len
        } else {
            SIMULATED_CACHE_SIZE
        };
        let mut j: usize = 0;
        while j < cache_len
            invariant
                j <= cache_len <= SIMULATED_CACHE_SIZE,
                cache_len <= new_cache_len,
                cache.len() == SIMULATED_CACHE_SIZE + 3,
                new_cache.len() == SIMULATED_CACHE_SIZE + 3,
                forall|k: int| 0 <= k < new_cache_len ==> #[trigger] new_cache@[k] < vertex_count,
                forall|k: int| 0 <= k < j ==> #[trigger] cache@[k] == new_cache@[k],
            decreases cache_len - j,
        {
            cache.set(j, new_cache[j]);
            j = j + 1;
        }
        assert forall|k: int| 0 <= k < cache_len implies #[trigger] cache@[k] < vertex_count
            && is_corner_of(input, order, cache@[k] as int) by {
            assert(cache@[k] == new_cache@[k]);
        }

        if current_triangle.is_none() {
            // Dead end: continue with a triangle adjacent to a recently used vertex, or with the
            // next triangle in the original order.
            let ghost stack_before = dead_end_stack@;
            current_triangle = pick_around_recent_vertices(
                &mut dead_end_stack,
                &adjacency,
                &offsets,
                &live,
                &triangle_scores,
                Ghost(indices@),
                Ghost(counts),
                Ghost(emitted@),
            );
            proof {
                match current_triangle {
                    Some(t) => {
                        lemma_pick_keeps_stack(
                            input,
                            order,
                            stack_before,
                            dead_end_stack@,
                            live@,
                            vertex_count as int,
                            t as int,
                        );
                    },
                    None => {
                        lemma_dead_end_is_closed(
                            input,
                            adjacency@,
                            offsets@,
                            live@,
                            counts,
                            emitted@,
                            order,
                            stack_before,
                        );
                    },
                }
            }
            if current_triangle.is_none() {
                let ghost start = next_unemitted_triangle as int;
                while next_unemitted_triangle < triangle_count && emitted[next_unemitted_triangle]
                    invariant
                        next_unemitted_triangle <= triangle_count,
                        emitted.len() == triangle_count,
                        forall|s: int| 0 <= s < next_unemitted_triangle ==> #[trigger] emitted@[s],
                        first_unemitted_from(emitted@, next_unemitted_triangle as int)
                            == first_unemitted_from(emitted@, start),
                    decreases triangle_count - next_unemitted_triangle,
                {
                    next_unemitted_triangle = next_unemitted_triangle + 1;
                }
                if next_unemitted_triangle < triangle_count {
                    current_triangle = Some(next_unemitted_triangle);
                }
            }
        }
        assert((ReorderState {
            adjacency: adjacency@,
            live: live@,
            vertex_scores: vertex_scores@,
            triangle_scores: triangle_scores@,
            emitted: emitted@,
            cache: cache@.take(cache_len as int),
            stack: dead_end_stack@,
            next_unemitted: next_unemitted_triangle as int,
            current: current_triangle,
            output: output@,
        }) == reorder_state(input, vertex_count as int, order.len())) by {
            assert(cache@.take(cache_len as int) =~= moved.take(cache_len as int));
            let next = ReorderState {
                adjacency: adjacency@,
                live: live@,
                vertex_scores: vertex_scores@,
                triangle_scores: triangle_scores@,
                emitted: emitted@,
                cache: cache@.take(cache_len as int),
                stack: dead_end_stack@,
                next_unemitted: next_unemitted_triangle as int,
                current: current_triangle,
                output: output@,
            };
            assert(output@ =~= old_output + seq![c0, c1, c2]);
            lemma_reorder_step(input, offsets@, state, next, moved, rescored, pushed);
            assert(next == reorder_state(input, vertex_count as int, order.len()));
        }
    }
    proof {
        assert forall|s: int| 0 <= s < tc implies #[trigger] order.contains(s) by {
            assert(emitted@[s]);
        }
        lemma_distinct_covering(order, tc);
        assert(is_triangle_order(order, tc));
        assert(is_reordered(input, output@, order));
    }
    let mut k: usize = 0;
    while k < output.len()
        invariant
            k <= output.len(),
            output.len() == indices.len(),
            forall|j: int| 0 <= j < k ==> #[trigger] indices@[j] == output@[j],
            forall|j: int| k <= j < indices.len() ==> #[trigger] indices@[j] == input[j],
        decreases output.len() - k,
    {
        indices.set(k, output[k]);
        k = k + 1;
    }
    proof {
        assert(indices@ =~= output@);
        assert(is_reordered(input, indices@, order));
    }
}

} // verus!
