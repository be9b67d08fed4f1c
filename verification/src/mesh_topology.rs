//! The connectivity of a triangle mesh, by position, and the topological rules of its
//! simplification: vertices with the same coordinates are welded into positions, the triangles
//! around each position and the directed edges of the triangles decide which positions can move,
//! and a collapse of one position into another must keep the surface manifold, must not duplicate
//! a triangle, and must merge each vertex into a matching one.
//!
//! A triangle list is given by the positions of its corners: triangle `t` goes from
//! `corners[3 * t]` to `corners[3 * t + 1]` to `corners[3 * t + 2]`, and each of its edges is
//! directed along that order. In a manifold surface, each directed edge belongs to one triangle,
//! and the opposite edge belongs to the neighboring triangle, or to none on a border.
use crate::vertex_cache::{
    adjacency_offsets, all_below, build_adjacency, corner_count, count_corners,
    lemma_sum_counts_monotone, lemma_sum_counts_total,
};
use std::collections::HashMap;
use vstd::multiset::*;
use vstd::prelude::*;
use vstd::seq_lib::*;
use vstd::slice::slice_subrange;
use vstd::std_specs::hash::group_hash_axioms;

verus! {

broadcast use {group_to_multiset_ensures, group_multiset_axioms, group_hash_axioms};

/// The number of triangles of the triangle list `corners`.
pub open spec fn triangle_count(corners: Seq<u32>) -> int {
    (corners.len() / 3) as int
}

/// The corners of triangle `t` are three different positions.
pub open spec fn corners_distinct(corners: Seq<u32>, t: int) -> bool {
    &&& corners[3 * t] != corners[3 * t + 1]
    &&& corners[3 * t + 1] != corners[3 * t + 2]
    &&& corners[3 * t + 2] != corners[3 * t]
}

/// No triangle of `corners` has a repeated position.
pub open spec fn is_non_degenerate(corners: Seq<u32>) -> bool {
    forall|t: int| 0 <= t < triangle_count(corners) ==> #[trigger] corners_distinct(corners, t)
}

/// The position that follows `position` in triangle `t`, if it is a corner of `t`.
pub open spec fn next_position(corners: Seq<u32>, t: int, position: u32) -> Option<u32> {
    if corners[3 * t] == position {
        Some(corners[3 * t + 1])
    } else if corners[3 * t + 1] == position {
        Some(corners[3 * t + 2])
    } else if corners[3 * t + 2] == position {
        Some(corners[3 * t])
    } else {
        None
    }
}

/// The position that precedes `position` in triangle `t`, if it is a corner of `t`.
pub open spec fn previous_position(corners: Seq<u32>, t: int, position: u32) -> Option<u32> {
    if corners[3 * t] == position {
        Some(corners[3 * t + 2])
    } else if corners[3 * t + 1] == position {
        Some(corners[3 * t])
    } else if corners[3 * t + 2] == position {
        Some(corners[3 * t + 1])
    } else {
        None
    }
}

/// Some triangle has the directed edge from `a` to `b`.
pub open spec fn has_edge(corners: Seq<u32>, a: u32, b: u32) -> bool {
    exists|t: int| 0 <= t < triangle_count(corners) && #[trigger] next_position(corners, t, a) == Some(b)
}

/// The directed edge from `a` to `b` belongs to two different triangles: the surface isn't
/// manifold there.
pub open spec fn is_shared_edge(corners: Seq<u32>, a: u32, b: u32) -> bool {
    exists|t1: int, t2: int|
        0 <= t1 < t2 < triangle_count(corners) && #[trigger] next_position(corners, t1, a) == Some(b)
            && #[trigger] next_position(corners, t2, a) == Some(b)
}

/// Triangle `t` has `position` as a corner, and the edge that leaves `position` in `t` has no
/// opposite edge: it is on a border of the surface.
pub open spec fn border_out_at(corners: Seq<u32>, t: int, position: u32) -> bool {
    next_position(corners, t, position) matches Some(next) && !has_edge(corners, next, position)
}

/// Triangle `t` has `position` as a corner, and the edge that arrives at `position` in `t` has no
/// opposite edge: it is on a border of the surface.
pub open spec fn border_in_at(corners: Seq<u32>, t: int, position: u32) -> bool {
    previous_position(corners, t, position) matches Some(previous) && !has_edge(
        corners,
        position,
        previous,
    )
}

/// The number of border edges that leave `position`.
pub open spec fn border_edges_out(corners: Seq<u32>, position: u32) -> nat {
    Set::new(|t: int| 0 <= t < triangle_count(corners) && border_out_at(corners, t, position)).len()
}

/// The number of border edges that arrive at `position`.
pub open spec fn border_edges_in(corners: Seq<u32>, position: u32) -> nat {
    Set::new(|t: int| 0 <= t < triangle_count(corners) && border_in_at(corners, t, position)).len()
}

/// `position` is an end of a directed edge that belongs to two triangles.
pub open spec fn is_on_shared_edge(corners: Seq<u32>, position: u32) -> bool {
    exists|other: u32|
        is_shared_edge(corners, position, other) || is_shared_edge(corners, other, position)
}

/// How a position can be collapsed when the mesh is simplified.
#[derive(Clone, Copy, Debug, PartialEq, Eq, Structural)]
pub enum PositionKind {
    /// The position is in the middle of the surface, and can be collapsed onto any neighbor.
    Manifold,
    /// The position is on a border of the surface, and can only be collapsed along the border.
    Border,
    /// The position can't be collapsed.
    Locked,
}

/// How `position` can be collapsed, given the number of vertices at that position (more than one
/// where attribute regions meet, like on UV seams): positions on shared edges, where more than two
/// attribute regions meet, or with a border that doesn't simply pass through them are locked, and
/// so are border positions when borders are locked.
pub open spec fn position_kind(
    corners: Seq<u32>,
    position: u32,
    wedge_count: u32,
    lock_border: bool,
) -> PositionKind {
    if is_on_shared_edge(corners, position) || wedge_count > 2 {
        PositionKind::Locked
    } else if border_edges_out(corners, position) == 0 && border_edges_in(corners, position) == 0 {
        PositionKind::Manifold
    } else if border_edges_out(corners, position) == 1 && border_edges_in(corners, position) == 1
        && !lock_border {
        PositionKind::Border
    } else {
        PositionKind::Locked
    }
}

/// The number of vertices at a position only matters above two: a position split in two by an
/// attribute seam can be collapsed like one that isn't, and a position where more than two
/// attribute regions meet is locked.
pub proof fn lemma_wedges_matter_above_two(
    corners: Seq<u32>,
    position: u32,
    wedge_count: u32,
    other_wedge_count: u32,
    lock_border: bool,
)
    ensures
        wedge_count <= 2 && other_wedge_count <= 2 ==> position_kind(
            corners,
            position,
            wedge_count,
            lock_border,
        ) == position_kind(corners, position, other_wedge_count, lock_border),
        wedge_count > 2 ==> position_kind(corners, position, wedge_count, lock_border)
            == PositionKind::Locked,
{
}

/// A position on an edge shared by more than one triangle in the same direction is locked, and so
/// is one whose border doesn't simply pass through it (more than one border edge leaving or
/// reaching it, or one without the other).
pub proof fn lemma_locked_positions(
    corners: Seq<u32>,
    position: u32,
    wedge_count: u32,
    lock_border: bool,
)
    ensures
        is_on_shared_edge(corners, position) ==> position_kind(
            corners,
            position,
            wedge_count,
            lock_border,
        ) == PositionKind::Locked,
        !(border_edges_out(corners, position) == 0 && border_edges_in(corners, position) == 0)
            && !(border_edges_out(corners, position) == 1 && border_edges_in(corners, position)
            == 1) ==> position_kind(corners, position, wedge_count, lock_border)
            == PositionKind::Locked,
{
}

/// A position with at most two vertices and on no shared edge is in the middle of the surface
/// when no border edge leaves or reaches it, and on a border that passes through it when one
/// border edge leaves it and one reaches it, unless borders are locked.
pub proof fn lemma_free_positions(
    corners: Seq<u32>,
    position: u32,
    wedge_count: u32,
    lock_border: bool,
)
    requires
        !is_on_shared_edge(corners, position),
        wedge_count <= 2,
    ensures
        border_edges_out(corners, position) == 0 && border_edges_in(corners, position) == 0
            ==> position_kind(corners, position, wedge_count, lock_border)
            == PositionKind::Manifold,
        border_edges_out(corners, position) == 1 && border_edges_in(corners, position) == 1
            ==> position_kind(corners, position, wedge_count, lock_border) == if lock_border {
            PositionKind::Locked
        } else {
            PositionKind::Border
        },
{
}

/// Triangle `t` marks `x` while looking for shared edges from `position`: the edge that leaves
/// `position` in `t` is shared, and `x` is one of its ends.
spec fn marks(corners: Seq<u32>, x: u32, position: u32, t: int) -> bool {
    next_position(corners, t, position) matches Some(next) && is_shared_edge(corners, position, next)
        && (x == position || x == next)
}

/// A position is on a shared edge exactly when a triangle marks it while looking for shared edges
/// from one of the positions.
proof fn lemma_marked_positions(corners: Seq<u32>, position_count: int, x: u32)
    requires
        all_below(corners, position_count),
        corners.len() % 3 == 0,
        x < position_count,
    ensures
        is_on_shared_edge(corners, x) <==> exists|q: u32, t: int|
            q < position_count && 0 <= t < triangle_count(corners) && #[trigger] marks(
                corners,
                x,
                q,
                t,
            ),
{
    if is_on_shared_edge(corners, x) {
        let other = choose|other: u32|
            is_shared_edge(corners, x, other) || is_shared_edge(corners, other, x);
        if is_shared_edge(corners, x, other) {
            let (t1, t2) = choose|t1: int, t2: int|
                0 <= t1 < t2 < triangle_count(corners) && #[trigger] next_position(
                    corners,
                    t1,
                    x,
                ) == Some(other) && #[trigger] next_position(corners, t2, x) == Some(other);
            assert(marks(corners, x, x, t1));
        } else {
            let (t1, t2) = choose|t1: int, t2: int|
                0 <= t1 < t2 < triangle_count(corners) && #[trigger] next_position(
                    corners,
                    t1,
                    other,
                ) == Some(x) && #[trigger] next_position(corners, t2, other) == Some(x);
            assert(marks(corners, x, other, t1));
            assert(other < position_count) by {
                assert(corners[3 * t1] < position_count);
                assert(corners[3 * t1 + 1] < position_count);
                assert(corners[3 * t1 + 2] < position_count);
            }
        }
    }
    if exists|q: u32, t: int|
        q < position_count && 0 <= t < triangle_count(corners) && #[trigger] marks(corners, x, q, t) {
        let (q, t) = choose|q: u32, t: int|
            q < position_count && 0 <= t < triangle_count(corners) && #[trigger] marks(
                corners,
                x,
                q,
                t,
            );
        let next = next_position(corners, t, q)->0;
        if x == q {
            assert(is_shared_edge(corners, x, next));
        } else {
            assert(is_shared_edge(corners, q, x));
        }
    }
}

/// `p` is a corner, other than `from`, of a triangle around `from`.
pub open spec fn is_neighbor(corners: Seq<u32>, from: u32, p: u32) -> bool {
    &&& p != from
    &&& exists|t: int|
        0 <= t < triangle_count(corners) && corner_count(corners, t, from as int) > 0
            && #[trigger] corner_count(corners, t, p as int) > 0
}

/// `p` is the third corner of a triangle that has both `from` and `to` as corners.
pub open spec fn is_opposite(corners: Seq<u32>, from: u32, to: u32, p: u32) -> bool {
    &&& p != from
    &&& p != to
    &&& exists|t: int|
        0 <= t < triangle_count(corners) && corner_count(corners, t, from as int) > 0
            && corner_count(corners, t, to as int) > 0 && #[trigger] corner_count(
            corners,
            t,
            p as int,
        ) > 0
}

/// Collapsing `from` into `to` keeps the surface manifold: the triangles around `to` that don't
/// have `from` as a corner only share with `from` the positions on the other side of the
/// triangles that have both as corners.
pub open spec fn collapse_keeps_manifold(corners: Seq<u32>, from: u32, to: u32) -> bool {
    forall|t: int, p: u32|
        0 <= t < triangle_count(corners) && corner_count(corners, t, to as int) > 0
            && corner_count(corners, t, from as int) == 0 && #[trigger] corner_count(
            corners,
            t,
            p as int,
        ) > 0 && p != to && is_neighbor(corners, from, p) ==> is_opposite(corners, from, to, p)
}

/// Triangle `u` has the corners of triangle `t` once `from` is replaced by `to` in `t`.
pub open spec fn becomes(corners: Seq<u32>, t: int, from: u32, to: u32, u: int) -> bool {
    forall|p: u32|
        #[trigger] corner_count(corners, u, p as int) > 0 <==> (p == to || (p != from
            && corner_count(corners, t, p as int) > 0))
}

/// Collapsing `from` into `to` would turn a triangle around `from` that doesn't have `to` as a
/// corner into a copy of a triangle around `to`, as when collapsing a closed tetrahedron into two
/// triangles facing opposite directions.
pub open spec fn collapse_duplicates(corners: Seq<u32>, from: u32, to: u32) -> bool {
    exists|t: int, u: int|
        0 <= t < triangle_count(corners) && 0 <= u < triangle_count(corners) && corner_count(
            corners,
            t,
            from as int,
        ) > 0 && corner_count(corners, t, to as int) == 0 && corner_count(corners, u, to as int)
            > 0 && #[trigger] becomes(corners, t, from, to, u)
}

/// The vertex of the corner of triangle `t` at `position`, if `t` has a corner there, given the
/// vertex of each corner.
pub open spec fn vertex_at(vertices: Seq<u32>, corners: Seq<u32>, t: int, position: u32) -> Option<
    u32,
> {
    if corners[3 * t] == position {
        Some(vertices[3 * t])
    } else if corners[3 * t + 1] == position {
        Some(vertices[3 * t + 1])
    } else if corners[3 * t + 2] == position {
        Some(vertices[3 * t + 2])
    } else {
        None
    }
}

/// `v` is a vertex at `from` that some triangle uses.
pub open spec fn is_vertex_at(vertices: Seq<u32>, corners: Seq<u32>, from: u32, v: u32) -> bool {
    exists|t: int|
        0 <= t < triangle_count(corners) && #[trigger] vertex_at(vertices, corners, t, from) == Some(
            v,
        )
}

/// Vertex `v` at `from` and vertex `w` at `to` are corners of a same triangle.
pub open spec fn share_a_triangle(
    vertices: Seq<u32>,
    corners: Seq<u32>,
    from: u32,
    to: u32,
    v: u32,
    w: u32,
) -> bool {
    exists|t: int|
        0 <= t < triangle_count(corners) && #[trigger] vertex_at(vertices, corners, t, from) == Some(
            v,
        ) && vertex_at(vertices, corners, t, to) == Some(w)
}

/// The vertices at `from` can be merged into the vertices at `to` so that attributes stay
/// continuous: each vertex at `from` shares a triangle with exactly one vertex at `to`, and
/// different vertices at `from` with different vertices at `to`.
pub open spec fn wedges_match(vertices: Seq<u32>, corners: Seq<u32>, from: u32, to: u32) -> bool {
    &&& forall|v: u32|
        #[trigger] is_vertex_at(vertices, corners, from, v) ==> exists|w: u32|
            #[trigger] share_a_triangle(vertices, corners, from, to, v, w)
    &&& forall|v: u32, w1: u32, w2: u32|
        #[trigger] share_a_triangle(vertices, corners, from, to, v, w1) && #[trigger]
            share_a_triangle(vertices, corners, from, to, v, w2) ==> w1 == w2
    &&& forall|v1: u32, v2: u32, w: u32|
        #[trigger] share_a_triangle(vertices, corners, from, to, v1, w) && #[trigger]
            share_a_triangle(vertices, corners, from, to, v2, w) ==> v1 == v2
}

/// Whether `x` is one of the values of `values`.
fn vec_contains(values: &Vec<u32>, x: u32) -> (found: bool)
    ensures
        found == values@.contains(x),
{
    let mut i: usize = 0;
    while i < values.len()
        invariant
            i <= values.len(),
            forall|j: int| 0 <= j < i ==> values@[j] != x,
        decreases values.len() - i,
    {
        if values[i] == x {
            return true;
        }
        i = i + 1;
    }
    false
}

/// Adds `x` to `values` if `condition` holds.
fn add_if(values: &mut Vec<u32>, x: u32, condition: bool)
    ensures
        forall|y: u32|
            #[trigger] final(values)@.contains(y) <==> old(values)@.contains(y) || (condition && y
                == x),
{
    let ghost before = values@;
    if condition && !vec_contains(values, x) {
        values.push(x);
        proof {
            assert forall|y: u32| #[trigger] values@.contains(y) <==> before.contains(y) || y == x by {
                if values@.contains(y) && y != x {
                    let k = choose|k: int| 0 <= k < values@.len() && values@[k] == y;
                    assert(before[k] == y);
                }
                if before.contains(y) {
                    let k = choose|k: int| 0 <= k < before.len() && before[k] == y;
                    assert(values@[k] == y);
                }
                if y == x {
                    assert(values@[before.len() as int] == y);
                }
            }
        }
    }
}

/// `v` has a target in `mapping`.
spec fn has_target(mapping: Seq<(u32, u32)>, v: u32) -> bool {
    exists|w: u32| mapping.contains((v, w))
}

/// The target of `v` in `mapping`, if it has one.
fn find_target(mapping: &Vec<(u32, u32)>, v: u32) -> (target: Option<u32>)
    ensures
        target matches Some(w) ==> mapping@.contains((v, w)),
        target is None ==> forall|w: u32| !mapping@.contains((v, w)),
{
    let mut i: usize = 0;
    while i < mapping.len()
        invariant
            i <= mapping.len(),
            forall|j: int| 0 <= j < i ==> (#[trigger] mapping@[j]).0 != v,
        decreases mapping.len() - i,
    {
        if mapping[i].0 == v {
            assert(mapping@[i as int] == (v, mapping@[i as int].1));
            return Some(mapping[i].1);
        }
        i = i + 1;
    }
    proof {
        assert forall|w: u32| !mapping@.contains((v, w)) by {
            if mapping@.contains((v, w)) {
                let j = choose|j: int| 0 <= j < mapping@.len() && mapping@[j] == (v, w);
            }
        }
    }
    None
}

/// The triangles around each position of a triangle list whose corners are given as positions:
/// for each position, the triangles that have a corner there, each listed once per such corner.
pub struct PositionAdjacency {
    /// The position of each corner of each triangle.
    corners: Vec<u32>,
    /// The number of corners at each position.
    counts: Vec<u32>,
    /// Where the triangles around each position start in `adjacency`.
    offsets: Vec<usize>,
    /// The triangles around each position, one range per position.
    adjacency: Vec<u32>,
}

impl PositionAdjacency {
    /// The positions of the corners of the triangles.
    pub closed spec fn corners(&self) -> Seq<u32> {
        self.corners@
    }

    /// The number of positions.
    pub closed spec fn position_count(&self) -> nat {
        self.offsets.len() as nat
    }

    /// The triangles listed for `position`.
    closed spec fn around(&self, position: int) -> Seq<u32> {
        self.adjacency@.subrange(
            self.offsets[position] as int,
            self.offsets[position] + self.counts[position],
        )
    }

    #[verifier::type_invariant]
    closed spec fn wf(&self) -> bool {
        &&& self.corners.len() % 3 == 0
        &&& self.corners.len() <= u32::MAX
        &&& all_below(self.corners@, self.offsets.len() as int)
        &&& self.offsets.len() <= u32::MAX
        &&& is_non_degenerate(self.corners@)
        &&& self.counts.len() == self.offsets.len()
        &&& forall|v: int|
            0 <= v < self.offsets.len() ==> #[trigger] self.offsets[v] + self.counts[v]
                <= self.adjacency.len()
        &&& forall|v: int, t: u32|
            0 <= v < self.offsets.len() ==> #[trigger] self.around(v).to_multiset().count(t)
                == if t < triangle_count(self.corners@) {
                corner_count(self.corners@, t as int, v)
            } else {
                0
            }
    }

    /// Lists the triangles around each of the `position_count` positions, given the positions of
    /// the corners of the triangles. Returns `None` if a corner isn't a valid position, if the
    /// corners don't make whole triangles, or if a triangle has a repeated position.
    pub fn new(corners: Vec<u32>, position_count: usize) -> (adjacency: Option<Self>)
        requires
            corners.len() <= u32::MAX,
            position_count <= u32::MAX,
        ensures
            adjacency is Some <==> corners.len() % 3 == 0 && all_below(
                corners@,
                position_count as int,
            ) && is_non_degenerate(corners@),
            adjacency matches Some(adjacency) ==> adjacency.corners() == corners@
                && adjacency.position_count() == position_count,
    {
        if corners.len() % 3 != 0 {
            return None;
        }
        let mut i: usize = 0;
        while i < corners.len()
            invariant
                i <= corners.len(),
                forall|j: int| 0 <= j < i ==> #[trigger] corners@[j] < position_count,
            decreases corners.len() - i,
        {
            if corners[i] as usize >= position_count {
                return None;
            }
            i = i + 1;
        }
        let triangle_count = corners.len() / 3;
        let mut t: usize = 0;
        while t < triangle_count
            invariant
                t <= triangle_count,
                triangle_count == corners.len() / 3,
                corners.len() % 3 == 0,
                forall|s: int| 0 <= s < t ==> #[trigger] corners_distinct(corners@, s),
            decreases triangle_count - t,
        {
            let (a, b, c) = (corners[3 * t], corners[3 * t + 1], corners[3 * t + 2]);
            if a == b || b == c || c == a {
                assert(!corners_distinct(corners@, t as int));
                return None;
            }
            t = t + 1;
        }
        let counts = count_corners(&corners, position_count);
        let offsets = adjacency_offsets(&counts, Ghost(corners@));
        let adjacency = build_adjacency(&corners, &offsets, Ghost(counts@));
        proof {
            let n = corners.len() as int;
            lemma_sum_counts_total(corners@, n, position_count as int);
            assert forall|v: int| 0 <= v < position_count implies #[trigger] offsets[v] + counts[v]
                <= adjacency.len() by {
                lemma_sum_counts_monotone(corners@, n, v + 1, position_count as int);
            }
        }
        Some(PositionAdjacency { corners, counts, offsets, adjacency })
    }

    /// The triangles that have `position` as a corner, each once.
    pub fn triangles_around(&self, position: u32) -> (around: &[u32])
        requires
            position < self.position_count(),
        ensures
            around@.no_duplicates(),
            forall|t: u32|
                #[trigger] around@.contains(t) <==> t < triangle_count(self.corners())
                    && corner_count(self.corners(), t as int, position as int) > 0,
    {
        proof {
            use_type_invariant(self);
            let list = self.around(position as int);
            assert forall|t: u32| list.to_multiset().contains(t) implies list.to_multiset().count(
                t,
            ) == 1 by {
                assert(corners_distinct(self.corners@, t as int));
            }
            list.lemma_multiset_has_no_duplicates_conv();
            assert forall|t: u32|
                #[trigger] list.contains(t) <==> t < triangle_count(self.corners())
                    && corner_count(self.corners(), t as int, position as int) > 0 by {
                assert(list.to_multiset().count(t) > 0 <==> list.contains(t));
            }
        }
        let start = self.offsets[position as usize];
        let end = start + self.counts[position as usize] as usize;
        slice_subrange(self.adjacency.as_slice(), start, end)
    }

    /// The position that follows `position` in `triangle`, if it is a corner of it.
    pub fn next_position(&self, triangle: u32, position: u32) -> (next: Option<u32>)
        requires
            triangle < triangle_count(self.corners()),
        ensures
            next == next_position(self.corners(), triangle as int, position),
    {
        proof {
            use_type_invariant(self);
        }
        let t = triangle as usize;
        if self.corners[3 * t] == position {
            Some(self.corners[3 * t + 1])
        } else if self.corners[3 * t + 1] == position {
            Some(self.corners[3 * t + 2])
        } else if self.corners[3 * t + 2] == position {
            Some(self.corners[3 * t])
        } else {
            None
        }
    }

    /// The position that precedes `position` in `triangle`, if it is a corner of it.
    pub fn previous_position(&self, triangle: u32, position: u32) -> (previous: Option<u32>)
        requires
            triangle < triangle_count(self.corners()),
        ensures
            previous == previous_position(self.corners(), triangle as int, position),
    {
        proof {
            use_type_invariant(self);
        }
        let t = triangle as usize;
        if self.corners[3 * t] == position {
            Some(self.corners[3 * t + 2])
        } else if self.corners[3 * t + 1] == position {
            Some(self.corners[3 * t])
        } else if self.corners[3 * t + 2] == position {
            Some(self.corners[3 * t + 1])
        } else {
            None
        }
    }

    /// Whether some triangle has the directed edge from `a` to `b`.
    pub fn has_edge(&self, a: u32, b: u32) -> (found: bool)
        requires
            a < self.position_count(),
        ensures
            found == has_edge(self.corners(), a, b),
    {
        proof {
            use_type_invariant(self);
        }
        let around = self.triangles_around(a);
        let mut j: usize = 0;
        while j < around.len()
            invariant
                j <= around@.len(),
                forall|t: u32|
                    #[trigger] around@.contains(t) <==> t < triangle_count(self.corners())
                        && corner_count(self.corners(), t as int, a as int) > 0,
                forall|i: int|
                    0 <= i < j ==> next_position(self.corners(), #[trigger] around@[i] as int, a)
                        != Some(b),
                self.corners().len() % 3 == 0,
            decreases around@.len() - j,
        {
            let t = around[j];
            assert(around@.contains(t));
            if self.next_position(t, a) == Some(b) {
                return true;
            }
            j = j + 1;
        }
        proof {
            assert forall|t: int| 0 <= t < triangle_count(self.corners()) implies #[trigger] next_position(
                self.corners(),
                t,
                a,
            ) != Some(b) by {
                if next_position(self.corners(), t, a) == Some(b) {
                    assert(corner_count(self.corners(), t, a as int) > 0);
                    assert(around@.contains(t as u32));
                    let i = choose|i: int| 0 <= i < around@.len() && around@[i] == t as u32;
                }
            }
        }
        false
    }

    /// The positions of the corners of `triangle`.
    fn corners_of(&self, triangle: u32) -> (corners: (u32, u32, u32))
        requires
            triangle < triangle_count(self.corners()),
        ensures
            corners.0 == self.corners()[3 * triangle as int],
            corners.1 == self.corners()[3 * triangle + 1],
            corners.2 == self.corners()[3 * triangle + 2],
            corners.0 < self.position_count(),
            corners.1 < self.position_count(),
            corners.2 < self.position_count(),
    {
        proof {
            use_type_invariant(self);
        }
        let t = triangle as usize;
        (self.corners[3 * t], self.corners[3 * t + 1], self.corners[3 * t + 2])
    }

    /// Whether collapsing `from` into `to` keeps the surface manifold (see
    /// [`collapse_keeps_manifold`]).
    pub fn keeps_manifold(&self, from: u32, to: u32) -> (manifold: bool)
        requires
            from < self.position_count(),
            to < self.position_count(),
        ensures
            manifold == collapse_keeps_manifold(self.corners(), from, to),
    {
        proof {
            use_type_invariant(self);
        }
        let ghost c = self.corners();
        let around_from = self.triangles_around(from);
        let mut neighbors: Vec<u32> = Vec::new();
        let mut opposite: Vec<u32> = Vec::new();
        let mut j: usize = 0;
        while j < around_from.len()
            invariant
                c == self.corners(),
                c.len() % 3 == 0,
                c.len() <= u32::MAX,
                j <= around_from@.len(),
                forall|t: u32|
                    #[trigger] around_from@.contains(t) <==> t < triangle_count(c) && corner_count(
                        c,
                        t as int,
                        from as int,
                    ) > 0,
                forall|p: u32|
                    #[trigger] neighbors@.contains(p) <==> p != from && exists|i: int|
                        0 <= i < j && #[trigger] corner_count(c, around_from@[i] as int, p as int)
                            > 0,
                forall|p: u32|
                    #[trigger] opposite@.contains(p) <==> p != from && p != to && exists|i: int|
                        0 <= i < j && corner_count(c, around_from@[i] as int, to as int) > 0
                            && #[trigger] corner_count(c, around_from@[i] as int, p as int) > 0,
            decreases around_from@.len() - j,
        {
            let t = around_from[j];
            assert(around_from@.contains(t));
            let (a, b, d) = self.corners_of(t);
            let has_to = a == to || b == to || d == to;
            let ghost old_neighbors = neighbors@;
            let ghost old_opposite = opposite@;
            add_if(&mut neighbors, a, a != from);
            add_if(&mut neighbors, b, b != from);
            add_if(&mut neighbors, d, d != from);
            add_if(&mut opposite, a, has_to && a != from && a != to);
            add_if(&mut opposite, b, has_to && b != from && b != to);
            add_if(&mut opposite, d, has_to && d != from && d != to);
            proof {
                assert(has_to == (corner_count(c, t as int, to as int) > 0));
                assert forall|p: u32| #[trigger] neighbors@.contains(p) <==> p != from && exists|i: int|
                    0 <= i < j + 1 && #[trigger] corner_count(c, around_from@[i] as int, p as int)
                        > 0 by {
                    assert(around_from@[j as int] == t);
                    if exists|i: int|
                        0 <= i < j + 1 && #[trigger] corner_count(c, around_from@[i] as int, p as int)
                            > 0 {
                        let i = choose|i: int|
                            0 <= i < j + 1 && #[trigger] corner_count(
                                c,
                                around_from@[i] as int,
                                p as int,
                            ) > 0;
                        if i == j {
                            assert(p == a || p == b || p == d);
                        }
                    }
                    if p == a || p == b || p == d {
                        assert(corner_count(c, around_from@[j as int] as int, p as int) > 0);
                    }
                }
                assert forall|p: u32| #[trigger] opposite@.contains(p) <==> p != from && p != to
                    && exists|i: int|
                    0 <= i < j + 1 && corner_count(c, around_from@[i] as int, to as int) > 0
                        && #[trigger] corner_count(c, around_from@[i] as int, p as int) > 0 by {
                    assert(around_from@[j as int] == t);
                    if exists|i: int|
                        0 <= i < j + 1 && corner_count(c, around_from@[i] as int, to as int) > 0
                            && #[trigger] corner_count(c, around_from@[i] as int, p as int) > 0 {
                        let i = choose|i: int|
                            0 <= i < j + 1 && corner_count(c, around_from@[i] as int, to as int)
                                > 0 && #[trigger] corner_count(c, around_from@[i] as int, p as int)
                                > 0;
                        if i == j {
                            assert(p == a || p == b || p == d);
                        }
                    }
                    if has_to && (p == a || p == b || p == d) {
                        assert(corner_count(c, around_from@[j as int] as int, p as int) > 0);
                    }
                }
            }
            j = j + 1;
        }
        proof {
            assert forall|p: u32| #[trigger] neighbors@.contains(p) <==> is_neighbor(c, from, p) by {
                if is_neighbor(c, from, p) {
                    let t = choose|t: int|
                        0 <= t < triangle_count(c) && corner_count(c, t, from as int) > 0
                            && #[trigger] corner_count(c, t, p as int) > 0;
                    assert(around_from@.contains(t as u32));
                    let i = choose|i: int| 0 <= i < around_from@.len() && around_from@[i] == t as u32;
                    assert(corner_count(c, around_from@[i] as int, p as int) > 0);
                }
                if neighbors@.contains(p) {
                    let i = choose|i: int|
                        0 <= i < j && #[trigger] corner_count(c, around_from@[i] as int, p as int)
                            > 0;
                    assert(around_from@.contains(around_from@[i]));
                }
            }
            assert forall|p: u32| #[trigger] opposite@.contains(p) <==> is_opposite(c, from, to, p) by {
                if is_opposite(c, from, to, p) {
                    let t = choose|t: int|
                        0 <= t < triangle_count(c) && corner_count(c, t, from as int) > 0
                            && corner_count(c, t, to as int) > 0 && #[trigger] corner_count(
                            c,
                            t,
                            p as int,
                        ) > 0;
                    assert(around_from@.contains(t as u32));
                    let i = choose|i: int| 0 <= i < around_from@.len() && around_from@[i] == t as u32;
                    assert(corner_count(c, around_from@[i] as int, p as int) > 0);
                }
                if opposite@.contains(p) {
                    let i = choose|i: int|
                        0 <= i < j && corner_count(c, around_from@[i] as int, to as int) > 0
                            && #[trigger] corner_count(c, around_from@[i] as int, p as int) > 0;
                    assert(around_from@.contains(around_from@[i]));
                }
            }
        }
        let around_to = self.triangles_around(to);
        let mut k: usize = 0;
        while k < around_to.len()
            invariant
                c == self.corners(),
                c.len() % 3 == 0,
                c.len() <= u32::MAX,
                k <= around_to@.len(),
                forall|t: u32|
                    #[trigger] around_to@.contains(t) <==> t < triangle_count(c) && corner_count(
                        c,
                        t as int,
                        to as int,
                    ) > 0,
                forall|p: u32| #[trigger] neighbors@.contains(p) <==> is_neighbor(c, from, p),
                forall|p: u32| #[trigger] opposite@.contains(p) <==> is_opposite(c, from, to, p),
                forall|i: int, p: u32|
                    0 <= i < k && corner_count(c, around_to@[i] as int, from as int) == 0
                        && #[trigger] corner_count(c, around_to@[i] as int, p as int) > 0 && p != to
                        && is_neighbor(c, from, p) ==> is_opposite(c, from, to, p),
            decreases around_to@.len() - k,
        {
            let t = around_to[k];
            assert(around_to@.contains(t));
            let (a, b, d) = self.corners_of(t);
            if a != from && b != from && d != from {
                if a != to && vec_contains(&neighbors, a) && !vec_contains(&opposite, a) {
                    assert(corner_count(c, t as int, a as int) > 0);
                    return false;
                }
                if b != to && vec_contains(&neighbors, b) && !vec_contains(&opposite, b) {
                    assert(corner_count(c, t as int, b as int) > 0);
                    return false;
                }
                if d != to && vec_contains(&neighbors, d) && !vec_contains(&opposite, d) {
                    assert(corner_count(c, t as int, d as int) > 0);
                    return false;
                }
            }
            proof {
                assert(around_to@[k as int] == t);
                assert forall|i: int, p: u32|
                    0 <= i < k + 1 && corner_count(c, around_to@[i] as int, from as int) == 0
                        && #[trigger] corner_count(c, around_to@[i] as int, p as int) > 0 && p
                        != to && is_neighbor(c, from, p) implies is_opposite(c, from, to, p) by {
                    if i == k {
                        assert(p == a || p == b || p == d);
                    }
                }
            }
            k = k + 1;
        }
        proof {
            assert forall|t: int, p: u32|
                0 <= t < triangle_count(c) && corner_count(c, t, to as int) > 0 && corner_count(
                    c,
                    t,
                    from as int,
                ) == 0 && #[trigger] corner_count(c, t, p as int) > 0 && p != to && is_neighbor(
                    c,
                    from,
                    p,
                ) implies is_opposite(c, from, to, p) by {
                assert(around_to@.contains(t as u32));
                let i = choose|i: int| 0 <= i < around_to@.len() && around_to@[i] == t as u32;
                assert(corner_count(c, around_to@[i] as int, p as int) > 0);
            }
        }
        true
    }

    /// Whether triangle `u` has the corners of triangle `t` once `from` is replaced by `to`, for
    /// a triangle `t` that has `from` but not `to` as a corner, and a triangle `u` that has `to`.
    fn becomes(&self, t: u32, from: u32, to: u32, u: u32) -> (same: bool)
        requires
            t < triangle_count(self.corners()),
            u < triangle_count(self.corners()),
            corner_count(self.corners(), t as int, from as int) > 0,
            corner_count(self.corners(), t as int, to as int) == 0,
            corner_count(self.corners(), u as int, to as int) > 0,
        ensures
            same == becomes(self.corners(), t as int, from, to, u as int),
    {
        let (a, b, d) = self.corners_of(t);
        let (x, y, z) = self.corners_of(u);
        let x_in = x == to || (x != from && (x == a || x == b || x == d));
        let y_in = y == to || (y != from && (y == a || y == b || y == d));
        let z_in = z == to || (z != from && (z == a || z == b || z == d));
        let a_in = a == from || a == x || a == y || a == z;
        let b_in = b == from || b == x || b == y || b == z;
        let d_in = d == from || d == x || d == y || d == z;
        let same = x_in && y_in && z_in && a_in && b_in && d_in;
        proof {
            let c = self.corners();
            if same {
                assert forall|p: u32| #[trigger] corner_count(c, u as int, p as int) > 0 <==> (p == to
                    || (p != from && corner_count(c, t as int, p as int) > 0)) by {}
            } else {
                if !x_in {
                    assert(corner_count(c, u as int, x as int) > 0);
                } else if !y_in {
                    assert(corner_count(c, u as int, y as int) > 0);
                } else if !z_in {
                    assert(corner_count(c, u as int, z as int) > 0);
                } else if !a_in {
                    assert(corner_count(c, t as int, a as int) > 0);
                    assert(corner_count(c, u as int, a as int) == 0);
                } else if !b_in {
                    assert(corner_count(c, t as int, b as int) > 0);
                    assert(corner_count(c, u as int, b as int) == 0);
                } else {
                    assert(corner_count(c, t as int, d as int) > 0);
                    assert(corner_count(c, u as int, d as int) == 0);
                }
            }
        }
        same
    }

    /// Whether collapsing `from` into `to` would duplicate a triangle (see
    /// [`collapse_duplicates`]).
    pub fn duplicates_triangle(&self, from: u32, to: u32) -> (duplicates: bool)
        requires
            from < self.position_count(),
            to < self.position_count(),
        ensures
            duplicates == collapse_duplicates(self.corners(), from, to),
    {
        proof {
            use_type_invariant(self);
        }
        let ghost c = self.corners();
        let around_from = self.triangles_around(from);
        let around_to = self.triangles_around(to);
        let mut i: usize = 0;
        while i < around_from.len()
            invariant
                c == self.corners(),
                c.len() % 3 == 0,
                c.len() <= u32::MAX,
                i <= around_from@.len(),
                forall|t: u32|
                    #[trigger] around_from@.contains(t) <==> t < triangle_count(c) && corner_count(
                        c,
                        t as int,
                        from as int,
                    ) > 0,
                forall|t: u32|
                    #[trigger] around_to@.contains(t) <==> t < triangle_count(c) && corner_count(
                        c,
                        t as int,
                        to as int,
                    ) > 0,
                forall|i0: int, u: int|
                    0 <= i0 < i && 0 <= u < triangle_count(c) && corner_count(
                        c,
                        around_from@[i0] as int,
                        to as int,
                    ) == 0 && corner_count(c, u, to as int) > 0 ==> !#[trigger] becomes(
                        c,
                        around_from@[i0] as int,
                        from,
                        to,
                        u,
                    ),
            decreases around_from@.len() - i,
        {
            let t = around_from[i];
            assert(around_from@.contains(t));
            let (a, b, d) = self.corners_of(t);
            if a != to && b != to && d != to {
                let mut k: usize = 0;
                while k < around_to.len()
                    invariant
                        c == self.corners(),
                        c.len() % 3 == 0,
                        c.len() <= u32::MAX,
                        k <= around_to@.len(),
                        t < triangle_count(c),
                        corner_count(c, t as int, from as int) > 0,
                        corner_count(c, t as int, to as int) == 0,
                        forall|u: u32|
                            #[trigger] around_to@.contains(u) <==> u < triangle_count(c)
                                && corner_count(c, u as int, to as int) > 0,
                        forall|k0: int|
                            0 <= k0 < k ==> !#[trigger] becomes(
                                c,
                                t as int,
                                from,
                                to,
                                around_to@[k0] as int,
                            ),
                    decreases around_to@.len() - k,
                {
                    let u = around_to[k];
                    assert(around_to@.contains(u));
                    if self.becomes(t, from, to, u) {
                        assert(corner_count(c, u as int, to as int) > 0);
                        assert(becomes(c, t as int, from, to, u as int));
                        return true;
                    }
                    k = k + 1;
                }
                proof {
                    assert forall|u: int|
                        0 <= u < triangle_count(c) && corner_count(c, u, to as int) > 0 implies !#[trigger] becomes(
                        c,
                        t as int,
                        from,
                        to,
                        u,
                    ) by {
                        assert(around_to@.contains(u as u32));
                        let k0 = choose|k0: int| 0 <= k0 < around_to@.len() && around_to@[k0] == u as u32;
                        assert(!becomes(c, t as int, from, to, around_to@[k0] as int));
                    }
                }
            }
            proof {
                assert(around_from@[i as int] == t);
            }
            i = i + 1;
        }
        proof {
            if collapse_duplicates(c, from, to) {
                let (t, u) = choose|t: int, u: int|
                    0 <= t < triangle_count(c) && 0 <= u < triangle_count(c) && corner_count(
                        c,
                        t,
                        from as int,
                    ) > 0 && corner_count(c, t, to as int) == 0 && corner_count(c, u, to as int)
                        > 0 && #[trigger] becomes(c, t, from, to, u);
                assert(around_from@.contains(t as u32));
                let i0 = choose|i0: int| 0 <= i0 < around_from@.len() && around_from@[i0] == t as u32;
                assert(!becomes(c, around_from@[i0] as int, from, to, u));
            }
        }
        false
    }

    /// The vertex of the corner of `triangle` at `position`, if it has a corner there, given the
    /// vertex of each corner.
    fn vertex_at(&self, vertices: &Vec<u32>, triangle: u32, position: u32) -> (vertex: Option<u32>)
        requires
            vertices.len() == self.corners().len(),
            triangle < triangle_count(self.corners()),
        ensures
            vertex == vertex_at(vertices@, self.corners(), triangle as int, position),
    {
        proof {
            use_type_invariant(self);
        }
        let t = triangle as usize;
        if self.corners[3 * t] == position {
            Some(vertices[3 * t])
        } else if self.corners[3 * t + 1] == position {
            Some(vertices[3 * t + 1])
        } else if self.corners[3 * t + 2] == position {
            Some(vertices[3 * t + 2])
        } else {
            None
        }
    }

    /// How the vertices at `from` merge into the vertices at `to` when `from` is collapsed into
    /// `to`, given the vertex of each corner of the triangles: each vertex at `from` goes to the
    /// vertex at `to` it shares a triangle with. Returns `None` if that doesn't make the vertices
    /// match (see [`wedges_match`]).
    pub fn wedge_mapping(&self, vertices: &Vec<u32>, from: u32, to: u32) -> (mapping: Option<
        Vec<(u32, u32)>,
    >)
        requires
            vertices.len() == self.corners().len(),
            from < self.position_count(),
        ensures
            mapping is Some <==> wedges_match(vertices@, self.corners(), from, to),
            mapping matches Some(mapping) ==> forall|v: u32, w: u32|
                #[trigger] mapping@.contains((v, w)) <==> share_a_triangle(
                    vertices@,
                    self.corners(),
                    from,
                    to,
                    v,
                    w,
                ),
    {
        proof {
            use_type_invariant(self);
        }
        let ghost c = self.corners();
        let ghost vs = vertices@;
        let around = self.triangles_around(from);
        let mut from_vertices: Vec<u32> = Vec::new();
        let mut mapping: Vec<(u32, u32)> = Vec::new();
        let mut i: usize = 0;
        while i < around.len()
            invariant
                c == self.corners(),
                vs == vertices@,
                vertices.len() == c.len(),
                c.len() % 3 == 0,
                c.len() <= u32::MAX,
                i <= around@.len(),
                forall|t: u32|
                    #[trigger] around@.contains(t) <==> t < triangle_count(c) && corner_count(
                        c,
                        t as int,
                        from as int,
                    ) > 0,
                forall|x: u32|
                    #[trigger] from_vertices@.contains(x) <==> exists|k: int|
                        0 <= k < i && #[trigger] vertex_at(vs, c, around@[k] as int, from) == Some(
                            x,
                        ),
                forall|x: u32, y: u32|
                    #[trigger] mapping@.contains((x, y)) <==> exists|k: int|
                        0 <= k < i && #[trigger] vertex_at(vs, c, around@[k] as int, from) == Some(
                            x,
                        ) && vertex_at(vs, c, around@[k] as int, to) == Some(y),
                forall|a: int, b: int|
                    0 <= a < b < mapping.len() ==> (#[trigger] mapping@[a]).0 != (
                    #[trigger] mapping@[b]).0,
            decreases around@.len() - i,
        {
            let t = around[i];
            assert(around@.contains(t));
            let ghost old_from_vertices = from_vertices@;
            let ghost old_mapping = mapping@;
            let v = self.vertex_at(vertices, t, from).unwrap();
            add_if(&mut from_vertices, v, true);
            let target = self.vertex_at(vertices, t, to);
            if let Some(w) = target {
                match find_target(&mapping, v) {
                    Some(previous) => {
                        if previous != w {
                            proof {
                                let k = choose|k: int|
                                    0 <= k < i && #[trigger] vertex_at(
                                        vs,
                                        c,
                                        around@[k] as int,
                                        from,
                                    ) == Some(v) && vertex_at(vs, c, around@[k] as int, to) == Some(
                                        previous,
                                    );
                                assert(around@.contains(around@[k]));
                                assert(share_a_triangle(vs, c, from, to, v, previous));
                                assert(share_a_triangle(vs, c, from, to, v, w));
                            }
                            return None;
                        }
                    },
                    None => {
                        mapping.push((v, w));
                        proof {
                            assert forall|a: int, b: int|
                                0 <= a < b < mapping.len() implies (#[trigger] mapping@[a]).0 != (
                                #[trigger] mapping@[b]).0 by {
                                if b == mapping.len() - 1 {
                                    let pair = mapping@[a];
                                    assert(old_mapping[a] == pair);
                                    assert(old_mapping.contains(pair));
                                    assert(!old_mapping.contains((v, pair.1)));
                                }
                            }
                        }
                    },
                }
            }
            proof {
                assert(around@[i as int] == t);
                assert forall|x: u32|
                    #[trigger] from_vertices@.contains(x) <==> exists|k: int|
                        0 <= k < i + 1 && #[trigger] vertex_at(vs, c, around@[k] as int, from)
                            == Some(x) by {
                    if exists|k: int|
                        0 <= k < i + 1 && #[trigger] vertex_at(vs, c, around@[k] as int, from)
                            == Some(x) {
                        let k = choose|k: int|
                            0 <= k < i + 1 && #[trigger] vertex_at(vs, c, around@[k] as int, from)
                                == Some(x);
                        if k == i {
                            assert(x == v);
                        }
                    }
                }
                assert forall|x: u32, y: u32|
                    #[trigger] mapping@.contains((x, y)) <==> exists|k: int|
                        0 <= k < i + 1 && #[trigger] vertex_at(vs, c, around@[k] as int, from)
                            == Some(x) && vertex_at(vs, c, around@[k] as int, to) == Some(y) by {
                    if mapping@.contains((x, y)) && !old_mapping.contains((x, y)) {
                        let j = choose|j: int| 0 <= j < mapping@.len() && mapping@[j] == (x, y);
                        if j < old_mapping.len() {
                            assert(old_mapping[j] == (x, y));
                        }
                        assert(x == v && target == Some(y));
                    }
                    if old_mapping.contains((x, y)) {
                        let j = choose|j: int| 0 <= j < old_mapping.len() && old_mapping[j] == (x, y);
                        assert(mapping@[j] == (x, y));
                    }
                    if exists|k: int|
                        0 <= k < i + 1 && #[trigger] vertex_at(vs, c, around@[k] as int, from)
                            == Some(x) && vertex_at(vs, c, around@[k] as int, to) == Some(y) {
                        let k = choose|k: int|
                            0 <= k < i + 1 && #[trigger] vertex_at(vs, c, around@[k] as int, from)
                                == Some(x) && vertex_at(vs, c, around@[k] as int, to) == Some(y);
                        if k == i {
                            assert(x == v && target == Some(y));
                            if !old_mapping.contains((x, y)) {
                                assert(mapping@[mapping@.len() - 1] == (x, y));
                            }
                        }
                    }
                }
            }
            i = i + 1;
        }
        proof {
            assert forall|x: u32| #[trigger] from_vertices@.contains(x) <==> is_vertex_at(vs, c, from, x) by {
                if is_vertex_at(vs, c, from, x) {
                    let t = choose|t: int|
                        0 <= t < triangle_count(c) && #[trigger] vertex_at(vs, c, t, from) == Some(x);
                    assert(corner_count(c, t, from as int) > 0);
                    assert(around@.contains(t as u32));
                    let k = choose|k: int| 0 <= k < around@.len() && around@[k] == t as u32;
                    assert(vertex_at(vs, c, around@[k] as int, from) == Some(x));
                }
                if from_vertices@.contains(x) {
                    let k = choose|k: int|
                        0 <= k < i && #[trigger] vertex_at(vs, c, around@[k] as int, from) == Some(x);
                    assert(around@.contains(around@[k]));
                }
            }
            assert forall|x: u32, y: u32| #[trigger] mapping@.contains((x, y)) <==> share_a_triangle(
                vs,
                c,
                from,
                to,
                x,
                y,
            ) by {
                if share_a_triangle(vs, c, from, to, x, y) {
                    let t = choose|t: int|
                        0 <= t < triangle_count(c) && #[trigger] vertex_at(vs, c, t, from) == Some(x)
                            && vertex_at(vs, c, t, to) == Some(y);
                    assert(corner_count(c, t, from as int) > 0);
                    assert(around@.contains(t as u32));
                    let k = choose|k: int| 0 <= k < around@.len() && around@[k] == t as u32;
                    assert(vertex_at(vs, c, around@[k] as int, from) == Some(x));
                }
                if mapping@.contains((x, y)) {
                    let k = choose|k: int|
                        0 <= k < i && #[trigger] vertex_at(vs, c, around@[k] as int, from) == Some(x)
                            && vertex_at(vs, c, around@[k] as int, to) == Some(y);
                    assert(around@.contains(around@[k]));
                }
            }
            assert forall|x: u32, y1: u32, y2: u32|
                #[trigger] share_a_triangle(vs, c, from, to, x, y1) && #[trigger] share_a_triangle(
                    vs,
                    c,
                    from,
                    to,
                    x,
                    y2,
                ) implies y1 == y2 by {
                assert(mapping@.contains((x, y1)));
                assert(mapping@.contains((x, y2)));
                let a = choose|a: int| 0 <= a < mapping@.len() && mapping@[a] == (x, y1);
                let b = choose|b: int| 0 <= b < mapping@.len() && mapping@[b] == (x, y2);
                if a < b {
                    assert(mapping@[a].0 != mapping@[b].0);
                } else if b < a {
                    assert(mapping@[b].0 != mapping@[a].0);
                }
            }
        }
        // Every vertex at `from` must go somewhere.
        let mut k: usize = 0;
        while k < from_vertices.len()
            invariant
                k <= from_vertices.len(),
                vs == vertices@,
                c == self.corners(),
                forall|x: u32| #[trigger] from_vertices@.contains(x) <==> is_vertex_at(vs, c, from, x),
                forall|x: u32, y: u32| #[trigger] mapping@.contains((x, y)) <==> share_a_triangle(
                    vs,
                    c,
                    from,
                    to,
                    x,
                    y,
                ),
                forall|j: int| 0 <= j < k ==> has_target(mapping@, #[trigger] from_vertices@[j]),
            decreases from_vertices.len() - k,
        {
            let v = from_vertices[k];
            let found = find_target(&mapping, v);
            if found.is_none() {
                proof {
                    assert(from_vertices@.contains(v));
                    assert(is_vertex_at(vs, c, from, v));
                    assert forall|w: u32| !share_a_triangle(vs, c, from, to, v, w) by {
                        assert(!mapping@.contains((v, w)));
                    }
                }
                return None;
            }
            proof {
                let w = found->0;
                assert(mapping@.contains((v, w)));
                assert(has_target(mapping@, from_vertices@[k as int]));
            }
            k = k + 1;
        }
        // Different vertices at `from` must go to different vertices at `to`.
        let mut a: usize = 0;
        while a < mapping.len()
            invariant
                a <= mapping.len(),
                forall|x: int, y: int|
                    0 <= x < y < mapping.len() ==> (#[trigger] mapping@[x]).0 != (
                    #[trigger] mapping@[y]).0,
                vs == vertices@,
                c == self.corners(),
                forall|x: u32| #[trigger] from_vertices@.contains(x) <==> is_vertex_at(vs, c, from, x),
                forall|x: u32, y: u32| #[trigger] mapping@.contains((x, y)) <==> share_a_triangle(
                    vs,
                    c,
                    from,
                    to,
                    x,
                    y,
                ),
                forall|x: int, y: int|
                    0 <= x < a && x < y < mapping.len() ==> (#[trigger] mapping@[x]).1 != (
                    #[trigger] mapping@[y]).1,
            decreases mapping.len() - a,
        {
            let mut b: usize = a + 1;
            while b < mapping.len()
                invariant
                    a < mapping.len(),
                    forall|x: int, y: int|
                        0 <= x < y < mapping.len() ==> (#[trigger] mapping@[x]).0 != (
                        #[trigger] mapping@[y]).0,
                    vs == vertices@,
                    c == self.corners(),
                    forall|x: u32| #[trigger] from_vertices@.contains(x) <==> is_vertex_at(vs, c, from, x),
                    forall|x: u32, y: u32| #[trigger] mapping@.contains((x, y)) <==> share_a_triangle(
                        vs,
                        c,
                        from,
                        to,
                        x,
                        y,
                    ),
                    a + 1 <= b <= mapping.len(),
                    forall|x: int, y: int|
                        0 <= x < a && x < y < mapping.len() ==> (#[trigger] mapping@[x]).1 != (
                        #[trigger] mapping@[y]).1,
                    forall|y: int| a < y < b ==> mapping@[a as int].1 != (#[trigger] mapping@[y]).1,
                decreases mapping.len() - b,
            {
                if mapping[a].1 == mapping[b].1 {
                    proof {
                        let (v1, w) = mapping@[a as int];
                        let v2 = mapping@[b as int].0;
                        assert(mapping@.contains((v1, w)));
                        assert(mapping@[b as int] == (v2, w));
                        assert(mapping@.contains((v2, w)));
                        assert(v1 != v2);
                        assert(share_a_triangle(vs, c, from, to, v1, w));
                        assert(share_a_triangle(vs, c, from, to, v2, w));
                    }
                    return None;
                }
                b = b + 1;
            }
            a = a + 1;
        }
        proof {
            assert forall|v: u32| #[trigger] is_vertex_at(vs, c, from, v) implies exists|w: u32|
                #[trigger] share_a_triangle(vs, c, from, to, v, w) by {
                assert(from_vertices@.contains(v));
                let j = choose|j: int| 0 <= j < from_vertices@.len() && from_vertices@[j] == v;
                assert(has_target(mapping@, from_vertices@[j]));
                let w = choose|w: u32| mapping@.contains((from_vertices@[j], w));
                assert(mapping@.contains((v, w)));
            }
            assert forall|v1: u32, v2: u32, w: u32|
                #[trigger] share_a_triangle(vs, c, from, to, v1, w) && #[trigger] share_a_triangle(
                    vs,
                    c,
                    from,
                    to,
                    v2,
                    w,
                ) implies v1 == v2 by {
                assert(mapping@.contains((v1, w)));
                assert(mapping@.contains((v2, w)));
                let x = choose|x: int| 0 <= x < mapping@.len() && mapping@[x] == (v1, w);
                let y = choose|y: int| 0 <= y < mapping@.len() && mapping@[y] == (v2, w);
                if x < y {
                    assert(mapping@[x].1 != mapping@[y].1);
                } else if y < x {
                    assert(mapping@[y].1 != mapping@[x].1);
                }
            }
        }
        Some(mapping)
    }

    /// Whether the directed edge from `a` to `b` belongs to more than one triangle.
    pub fn is_shared_edge(&self, a: u32, b: u32) -> (shared: bool)
        requires
            a < self.position_count(),
        ensures
            shared == is_shared_edge(self.corners(), a, b),
    {
        proof {
            use_type_invariant(self);
        }
        let around = self.triangles_around(a);
        let mut first: Option<u32> = None;
        let mut j: usize = 0;
        while j < around.len()
            invariant
                j <= around@.len(),
                around@.no_duplicates(),
                forall|t: u32|
                    #[trigger] around@.contains(t) <==> t < triangle_count(self.corners())
                        && corner_count(self.corners(), t as int, a as int) > 0,
                self.corners().len() % 3 == 0,
                first matches Some(t1) ==> t1 < triangle_count(self.corners()) && next_position(
                    self.corners(),
                    t1 as int,
                    a,
                ) == Some(b) && exists|i: int| 0 <= i < j && #[trigger] around@[i] == t1,
                forall|i: int|
                    0 <= i < j && next_position(self.corners(), #[trigger] around@[i] as int, a)
                        == Some(b) ==> first == Some(around@[i]),
            decreases around@.len() - j,
        {
            let t = around[j];
            assert(around@.contains(t));
            if self.next_position(t, a) == Some(b) {
                match first {
                    Some(t1) => {
                        proof {
                            let i1 = choose|i: int| 0 <= i < j && #[trigger] around@[i] == t1;
                            assert(around@[j as int] == t);
                            assert(t != t1);
                            if t1 < t {
                                assert(next_position(self.corners(), t1 as int, a) == Some(b));
                            } else {
                                assert(next_position(self.corners(), t as int, a) == Some(b));
                            }
                        }
                        return true;
                    },
                    None => {
                        first = Some(t);
                        assert(around@[j as int] == t);
                    },
                }
            }
            j = j + 1;
        }
        proof {
            if is_shared_edge(self.corners(), a, b) {
                let (t1, t2) = choose|t1: int, t2: int|
                    0 <= t1 < t2 < triangle_count(self.corners()) && #[trigger] next_position(
                        self.corners(),
                        t1,
                        a,
                    ) == Some(b) && #[trigger] next_position(self.corners(), t2, a) == Some(b);
                assert(corner_count(self.corners(), t1, a as int) > 0);
                assert(corner_count(self.corners(), t2, a as int) > 0);
                assert(around@.contains(t1 as u32));
                assert(around@.contains(t2 as u32));
                let i1 = choose|i: int| 0 <= i < around@.len() && around@[i] == t1 as u32;
                let i2 = choose|i: int| 0 <= i < around@.len() && around@[i] == t2 as u32;
                assert(first == Some(around@[i1]));
                assert(first == Some(around@[i2]));
            }
        }
        false
    }

    /// The numbers of border edges that leave and that arrive at `position`.
    fn count_border_edges(&self, position: u32) -> (counts: (usize, usize))
        requires
            position < self.position_count(),
        ensures
            counts.0 == border_edges_out(self.corners(), position),
            counts.1 == border_edges_in(self.corners(), position),
    {
        proof {
            use_type_invariant(self);
        }
        let ghost c = self.corners();
        let around = self.triangles_around(position);
        let mut out: usize = 0;
        let mut inward: usize = 0;
        let ghost mut out_list: Seq<int> = Seq::empty();
        let ghost mut in_list: Seq<int> = Seq::empty();
        let mut j: usize = 0;
        while j < around.len()
            invariant
                c == self.corners(),
                c.len() % 3 == 0,
                all_below(c, self.position_count() as int),
                j <= around@.len(),
                around@.no_duplicates(),
                forall|t: u32|
                    #[trigger] around@.contains(t) <==> t < triangle_count(c) && corner_count(
                        c,
                        t as int,
                        position as int,
                    ) > 0,
                out == out_list.len(),
                inward == in_list.len(),
                out <= j,
                inward <= j,
                out_list.no_duplicates(),
                in_list.no_duplicates(),
                forall|t: int|
                    #[trigger] out_list.contains(t) <==> (exists|i: int|
                        0 <= i < j && around@[i] as int == t) && border_out_at(c, t, position),
                forall|t: int|
                    #[trigger] in_list.contains(t) <==> (exists|i: int|
                        0 <= i < j && around@[i] as int == t) && border_in_at(c, t, position),
            decreases around@.len() - j,
        {
            let t = around[j];
            assert(around@.contains(t));
            assert(corner_count(c, t as int, position as int) > 0);
            let next = self.next_position(t, position).unwrap();
            let previous = self.previous_position(t, position).unwrap();
            let ghost earlier = around@.take(j as int);
            assert(!earlier.contains(t)) by {
                if earlier.contains(t) {
                    let i = choose|i: int| 0 <= i < earlier.len() && earlier[i] == t;
                    assert(around@[i] == around@[j as int]);
                }
            }
            let ghost old_out = out_list;
            let ghost old_in = in_list;
            let out_border = !self.has_edge(next, position);
            let in_border = !self.has_edge(position, previous);
            assert(out_border == border_out_at(c, t as int, position));
            assert(in_border == border_in_at(c, t as int, position));
            if out_border {
                proof {
                    assert(!out_list.contains(t as int)) by {
                        if out_list.contains(t as int) {
                            let i = choose|i: int| 0 <= i < j && around@[i] as int == t as int;
                            assert(earlier[i] == t);
                        }
                    }
                    out_list = out_list.push(t as int);
                }
                out = out + 1;
            }
            if in_border {
                proof {
                    assert(!in_list.contains(t as int)) by {
                        if in_list.contains(t as int) {
                            let i = choose|i: int| 0 <= i < j && around@[i] as int == t as int;
                            assert(earlier[i] == t);
                        }
                    }
                    in_list = in_list.push(t as int);
                }
                inward = inward + 1;
            }
            proof {
                assert forall|u: int|
                    #[trigger] out_list.contains(u) <==> (exists|i: int|
                        0 <= i < j + 1 && around@[i] as int == u) && border_out_at(c, u, position) by {
                    if u == t as int {
                        assert(around@[j as int] as int == u);
                        if out_border {
                            assert(out_list[out_list.len() - 1] == u);
                        }
                    } else {
                        if out_list.contains(u) {
                            let k = choose|k: int| 0 <= k < out_list.len() && out_list[k] == u;
                            assert(old_out.contains(u)) by {
                                assert(old_out[k] == u);
                            }
                        }
                        if old_out.contains(u) {
                            let k = choose|k: int| 0 <= k < old_out.len() && old_out[k] == u;
                            assert(out_list[k] == u);
                        }
                        if exists|i: int| 0 <= i < j + 1 && around@[i] as int == u {
                            let i = choose|i: int| 0 <= i < j + 1 && around@[i] as int == u;
                            assert(i != j);
                        }
                    }
                }
                assert forall|u: int|
                    #[trigger] in_list.contains(u) <==> (exists|i: int|
                        0 <= i < j + 1 && around@[i] as int == u) && border_in_at(c, u, position) by {
                    if u == t as int {
                        assert(around@[j as int] as int == u);
                        if in_border {
                            assert(in_list[in_list.len() - 1] == u);
                        }
                    } else {
                        if in_list.contains(u) {
                            let k = choose|k: int| 0 <= k < in_list.len() && in_list[k] == u;
                            assert(old_in.contains(u)) by {
                                assert(old_in[k] == u);
                            }
                        }
                        if old_in.contains(u) {
                            let k = choose|k: int| 0 <= k < old_in.len() && old_in[k] == u;
                            assert(in_list[k] == u);
                        }
                        if exists|i: int| 0 <= i < j + 1 && around@[i] as int == u {
                            let i = choose|i: int| 0 <= i < j + 1 && around@[i] as int == u;
                            assert(i != j);
                        }
                    }
                }
            }
            j = j + 1;
        }
        proof {
            let out_set = Set::new(
                |t: int| 0 <= t < triangle_count(c) && border_out_at(c, t, position),
            );
            let in_set = Set::new(
                |t: int| 0 <= t < triangle_count(c) && border_in_at(c, t, position),
            );
            assert forall|t: int| #[trigger] out_list.to_set().contains(t) <==> out_set.contains(t) by {
                if out_set.contains(t) {
                    assert(corner_count(c, t, position as int) > 0);
                    assert(around@.contains(t as u32));
                }
                if out_list.contains(t) {
                    let i = choose|i: int| 0 <= i < j && around@[i] as int == t;
                    assert(around@.contains(around@[i]));
                }
            }
            assert forall|t: int| #[trigger] in_list.to_set().contains(t) <==> in_set.contains(t) by {
                if in_set.contains(t) {
                    assert(corner_count(c, t, position as int) > 0);
                    assert(around@.contains(t as u32));
                }
                if in_list.contains(t) {
                    let i = choose|i: int| 0 <= i < j && around@[i] as int == t;
                    assert(around@.contains(around@[i]));
                }
            }
            assert(out_list.to_set() =~= out_set);
            assert(in_list.to_set() =~= in_set);
            out_list.unique_seq_to_set();
            in_list.unique_seq_to_set();
        }
        (out, inward)
    }

    /// Whether each position is an end of a directed edge that belongs to two triangles.
    fn shared_edge_positions(&self) -> (shared: Vec<bool>)
        ensures
            shared.len() == self.position_count(),
            forall|x: int|
                0 <= x < self.position_count() ==> #[trigger] shared@[x] == is_on_shared_edge(
                    self.corners(),
                    x as u32,
                ),
    {
        proof {
            use_type_invariant(self);
        }
        let ghost c = self.corners();
        let position_count = self.offsets.len();
        let mut shared: Vec<bool> = Vec::new();
        let mut i: usize = 0;
        while i < position_count
            invariant
                i <= position_count,
                shared.len() == i,
                forall|x: int| 0 <= x < i ==> !#[trigger] shared@[x],
            decreases position_count - i,
        {
            shared.push(false);
            i = i + 1;
        }
        let mut position: usize = 0;
        while position < position_count
            invariant
                c == self.corners(),
                c.len() % 3 == 0,
                c.len() <= u32::MAX,
                position_count == self.position_count(),
                all_below(c, position_count as int),
                position_count <= u32::MAX,
                position <= position_count,
                shared.len() == position_count,
                forall|x: int|
                    0 <= x < position_count ==> (#[trigger] shared@[x] <==> exists|q: u32, t: int|
                        q < position && 0 <= t < triangle_count(c) && #[trigger] marks(
                            c,
                            x as u32,
                            q,
                            t,
                        )),
            decreases position_count - position,
        {
            let around = self.triangles_around(position as u32);
            let mut j: usize = 0;
            while j < around.len()
                invariant
                    c == self.corners(),
                    c.len() % 3 == 0,
                    c.len() <= u32::MAX,
                    position_count == self.position_count(),
                    all_below(c, position_count as int),
                    position < position_count,
                    position_count <= u32::MAX,
                    shared.len() == position_count,
                    j <= around@.len(),
                    forall|t: u32|
                        #[trigger] around@.contains(t) <==> t < triangle_count(c) && corner_count(
                            c,
                            t as int,
                            position as int,
                        ) > 0,
                    forall|x: int|
                        0 <= x < position_count ==> (#[trigger] shared@[x] <==> (exists|q: u32, t: int|
                            q < position && 0 <= t < triangle_count(c) && #[trigger] marks(
                                c,
                                x as u32,
                                q,
                                t,
                            )) || (exists|i: int|
                            0 <= i < j && #[trigger] marks(
                                c,
                                x as u32,
                                position as u32,
                                around@[i] as int,
                            ))),
                decreases around@.len() - j,
            {
                let t = around[j];
                assert(around@.contains(t));
                let next = self.next_position(t, position as u32).unwrap();
                assert(next < position_count) by {
                    assert(c[3 * t as int] < position_count);
                    assert(c[3 * t + 1] < position_count);
                    assert(c[3 * t + 2] < position_count);
                }
                let ghost before = shared@;
                let is_shared = self.is_shared_edge(position as u32, next);
                if is_shared {
                    shared.set(position, true);
                    shared.set(next as usize, true);
                }
                proof {
                    assert forall|x: int| 0 <= x < position_count implies (#[trigger] shared@[x] <==> (
                    exists|q: u32, t: int|
                        q < position && 0 <= t < triangle_count(c) && #[trigger] marks(
                            c,
                            x as u32,
                            q,
                            t,
                        )) || (exists|i: int|
                        0 <= i < j + 1 && #[trigger] marks(
                            c,
                            x as u32,
                            position as u32,
                            around@[i] as int,
                        ))) by {
                        let marked = marks(c, x as u32, position as u32, t as int);
                        assert(marked == (is_shared && (x == position || x == next)));
                        assert(shared@[x] == (before[x] || marked));
                        if marked {
                            assert(marks(c, x as u32, position as u32, around@[j as int] as int));
                        }
                        if exists|i: int|
                            0 <= i < j + 1 && #[trigger] marks(
                                c,
                                x as u32,
                                position as u32,
                                around@[i] as int,
                            ) {
                            let i = choose|i: int|
                                0 <= i < j + 1 && #[trigger] marks(
                                    c,
                                    x as u32,
                                    position as u32,
                                    around@[i] as int,
                                );
                            if i == j {
                                assert(marked);
                            }
                        }
                    }
                }
                j = j + 1;
            }
            proof {
                assert forall|x: int| 0 <= x < position_count implies (#[trigger] shared@[x] <==> exists|
                    q: u32,
                    t: int,
                |
                    q < position + 1 && 0 <= t < triangle_count(c) && #[trigger] marks(
                        c,
                        x as u32,
                        q,
                        t,
                    )) by {
                    if exists|i: int|
                        0 <= i < around@.len() && #[trigger] marks(
                            c,
                            x as u32,
                            position as u32,
                            around@[i] as int,
                        ) {
                        let i = choose|i: int|
                            0 <= i < around@.len() && #[trigger] marks(
                                c,
                                x as u32,
                                position as u32,
                                around@[i] as int,
                            );
                        assert(around@.contains(around@[i]));
                        assert(marks(c, x as u32, position as u32, around@[i] as int));
                    }
                    if exists|q: u32, t: int|
                        q < position + 1 && 0 <= t < triangle_count(c) && #[trigger] marks(
                            c,
                            x as u32,
                            q,
                            t,
                        ) {
                        let (q, t) = choose|q: u32, t: int|
                            q < position + 1 && 0 <= t < triangle_count(c) && #[trigger] marks(
                                c,
                                x as u32,
                                q,
                                t,
                            );
                        if q == position {
                            assert(next_position(c, t, q) is Some);
                            assert(corner_count(c, t, q as int) > 0);
                            assert(corner_count(c, t, position as int) > 0);
                            assert(around@.contains(t as u32));
                            let i = choose|i: int| 0 <= i < around@.len() && around@[i] == t as u32;
                            assert(marks(c, x as u32, position as u32, around@[i] as int));
                        }
                    }
                }
            }
            position = position + 1;
        }
        proof {
            assert forall|x: int| 0 <= x < position_count implies #[trigger] shared@[x]
                == is_on_shared_edge(c, x as u32) by {
                lemma_marked_positions(c, position_count as int, x as u32);
            }
        }
        shared
    }

    /// How each position can be collapsed, given the number of vertices at each position and
    /// whether borders are locked (see [`position_kind`]).
    pub fn position_kinds(&self, wedge_counts: &Vec<u32>, lock_border: bool) -> (kinds: Vec<
        PositionKind,
    >)
        requires
            wedge_counts.len() == self.position_count(),
        ensures
            kinds.len() == self.position_count(),
            forall|p: int|
                0 <= p < self.position_count() ==> #[trigger] kinds@[p] == position_kind(
                    self.corners(),
                    p as u32,
                    wedge_counts@[p],
                    lock_border,
                ),
    {
        proof {
            use_type_invariant(self);
        }
        let shared = self.shared_edge_positions();
        let position_count = self.offsets.len();
        let mut kinds: Vec<PositionKind> = Vec::new();
        let mut position: usize = 0;
        while position < position_count
            invariant
                position <= position_count,
                position_count == self.position_count(),
                position_count <= u32::MAX,
                wedge_counts.len() == position_count,
                shared.len() == position_count,
                forall|x: int|
                    0 <= x < position_count ==> #[trigger] shared@[x] == is_on_shared_edge(
                        self.corners(),
                        x as u32,
                    ),
                kinds.len() == position,
                forall|p: int|
                    0 <= p < position ==> #[trigger] kinds@[p] == position_kind(
                        self.corners(),
                        p as u32,
                        wedge_counts@[p],
                        lock_border,
                    ),
            decreases position_count - position,
        {
            let kind = if shared[position] || wedge_counts[position] > 2 {
                PositionKind::Locked
            } else {
                let (out, inward) = self.count_border_edges(position as u32);
                if out == 0 && inward == 0 {
                    PositionKind::Manifold
                } else if out == 1 && inward == 1 && !lock_border {
                    PositionKind::Border
                } else {
                    PositionKind::Locked
                }
            };
            kinds.push(kind);
            position = position + 1;
        }
        kinds
    }
}


/// The first `n` triangles of the triangle list `indices`, with each vertex replaced by
/// `vertex_remap[vertex]`, without the triangles that then have a repeated position.
pub open spec fn collapsed_triangles(
    indices: Seq<u32>,
    vertex_remap: Seq<u32>,
    position_of: Seq<u32>,
    n: int,
) -> Seq<u32>
    decreases n,
{
    if n <= 0 {
        Seq::empty()
    } else {
        let rest = collapsed_triangles(indices, vertex_remap, position_of, n - 1);
        let a = vertex_remap[indices[3 * (n - 1)] as int];
        let b = vertex_remap[indices[3 * (n - 1) + 1] as int];
        let c = vertex_remap[indices[3 * (n - 1) + 2] as int];
        let (pa, pb, pc) = (position_of[a as int], position_of[b as int], position_of[c as int]);
        if pa != pb && pb != pc && pc != pa {
            rest + seq![a, b, c]
        } else {
            rest
        }
    }
}

/// The positions of the vertices of `vertices`.
pub open spec fn positions_of(vertices: Seq<u32>, position_of: Seq<u32>) -> Seq<u32> {
    vertices.map_values(|v: u32| position_of[v as int])
}

/// Collapsing removes every triangle that would have a repeated position: the triangles left are
/// whole, their vertices are the remapped ones, and no two corners of a triangle share a position.
pub proof fn lemma_collapsed_triangles_are_non_degenerate(
    indices: Seq<u32>,
    vertex_remap: Seq<u32>,
    position_of: Seq<u32>,
    n: int,
)
    requires
        0 <= n <= indices.len() / 3,
        all_below(indices, vertex_remap.len() as int),
        all_below(vertex_remap, position_of.len() as int),
    ensures
        ({
            let collapsed = collapsed_triangles(indices, vertex_remap, position_of, n);
            &&& collapsed.len() % 3 == 0
            &&& all_below(collapsed, position_of.len() as int)
            &&& is_non_degenerate(positions_of(collapsed, position_of))
        }),
    decreases n,
{
    if n > 0 {
        lemma_collapsed_triangles_are_non_degenerate(indices, vertex_remap, position_of, n - 1);
        let rest = collapsed_triangles(indices, vertex_remap, position_of, n - 1);
        let collapsed = collapsed_triangles(indices, vertex_remap, position_of, n);
        let a = vertex_remap[indices[3 * (n - 1)] as int];
        let b = vertex_remap[indices[3 * (n - 1) + 1] as int];
        let c = vertex_remap[indices[3 * (n - 1) + 2] as int];
        let positions = positions_of(collapsed, position_of);
        let rest_positions = positions_of(rest, position_of);
        if collapsed != rest {
            assert(collapsed == rest + seq![a, b, c]);
            assert forall|t: int| 0 <= t < triangle_count(positions) implies #[trigger] corners_distinct(
                positions,
                t,
            ) by {
                if t < triangle_count(rest_positions) {
                    assert(corners_distinct(rest_positions, t));
                    assert(positions[3 * t] == rest_positions[3 * t]);
                    assert(positions[3 * t + 1] == rest_positions[3 * t + 1]);
                    assert(positions[3 * t + 2] == rest_positions[3 * t + 2]);
                } else {
                    assert(3 * t == rest.len());
                    assert(positions[3 * t] == position_of[a as int]);
                    assert(positions[3 * t + 1] == position_of[b as int]);
                    assert(positions[3 * t + 2] == position_of[c as int]);
                }
            }
            assert forall|i: int| 0 <= i < collapsed.len() implies #[trigger] collapsed[i]
                < position_of.len() by {
                if i >= rest.len() {
                    assert(collapsed[i] == a || collapsed[i] == b || collapsed[i] == c);
                }
            }
        }
    }
}

/// Replaces each vertex of the triangle list `indices` by `vertex_remap[vertex]`, and removes the
/// triangles that then have two corners at the same position.
pub fn collapse_triangles(indices: &Vec<u32>, vertex_remap: &Vec<u32>, position_of: &Vec<u32>) -> (collapsed:
    Vec<u32>)
    requires
        indices.len() % 3 == 0,
        all_below(indices@, vertex_remap.len() as int),
        all_below(vertex_remap@, position_of.len() as int),
    ensures
        collapsed@ == collapsed_triangles(
            indices@,
            vertex_remap@,
            position_of@,
            (indices.len() / 3) as int,
        ),
{
    let mut collapsed: Vec<u32> = Vec::new();
    let triangle_count = indices.len() / 3;
    let mut t: usize = 0;
    while t < triangle_count
        invariant
            t <= triangle_count,
            triangle_count == indices.len() / 3,
            indices.len() % 3 == 0,
            all_below(indices@, vertex_remap.len() as int),
            all_below(vertex_remap@, position_of.len() as int),
            collapsed@ == collapsed_triangles(indices@, vertex_remap@, position_of@, t as int),
        decreases triangle_count - t,
    {
        let a = vertex_remap[indices[3 * t] as usize];
        let b = vertex_remap[indices[3 * t + 1] as usize];
        let c = vertex_remap[indices[3 * t + 2] as usize];
        let (pa, pb, pc) = (position_of[a as usize], position_of[b as usize], position_of[c as usize]);
        if pa != pb && pb != pc && pc != pa {
            collapsed.push(a);
            collapsed.push(b);
            collapsed.push(c);
        }
        proof {
            let rest = collapsed_triangles(indices@, vertex_remap@, position_of@, t as int);
            if pa != pb && pb != pc && pc != pa {
                assert(collapsed@ =~= rest + seq![a, b, c]);
            }
        }
        t = t + 1;
    }
    collapsed
}

/// The vertices at `position` that the indices in `indices` use.
pub open spec fn used_vertices_at(indices: Seq<u32>, position_of: Seq<u32>, position: int) -> Set<
    int,
> {
    Set::new(
        |v: int|
            0 <= v < position_of.len() && position_of[v] == position && indices.contains(v as u32),
    )
}

/// Counts, for each of the `position_count` positions, the vertices at that position that the
/// triangles use: more than one where the mesh has a seam in its other attributes.
pub fn wedge_counts(indices: &Vec<u32>, position_of: &Vec<u32>, position_count: usize) -> (counts:
    Vec<u32>)
    requires
        indices.len() <= u32::MAX,
        position_of.len() <= u32::MAX,
        all_below(indices@, position_of.len() as int),
        all_below(position_of@, position_count as int),
    ensures
        counts.len() == position_count,
        forall|p: int|
            0 <= p < position_count ==> #[trigger] counts@[p] == used_vertices_at(
                indices@,
                position_of@,
                p,
            ).len(),
{
    let vertex_count = position_of.len();
    let mut seen: Vec<bool> = Vec::new();
    let mut v: usize = 0;
    while v < vertex_count
        invariant
            v <= vertex_count,
            seen.len() == v,
            forall|u: int| 0 <= u < v ==> !#[trigger] seen@[u],
        decreases vertex_count - v,
    {
        seen.push(false);
        v = v + 1;
    }
    let mut counts: Vec<u32> = Vec::new();
    let mut p: usize = 0;
    while p < position_count
        invariant
            p <= position_count,
            counts.len() == p,
            forall|q: int| 0 <= q < p ==> #[trigger] counts@[q] == 0,
        decreases position_count - p,
    {
        counts.push(0);
        p = p + 1;
    }
    proof {
        assert forall|q: int| 0 <= q < position_count implies #[trigger] counts@[q]
            == used_vertices_at(indices@.take(0), position_of@, q).len() by {
            assert(used_vertices_at(indices@.take(0), position_of@, q) =~= Set::<int>::empty());
        }
    }
    let mut i: usize = 0;
    while i < indices.len()
        invariant
            i <= indices.len(),
            indices.len() <= u32::MAX,
            vertex_count == position_of.len(),
            vertex_count <= u32::MAX,
            all_below(indices@, vertex_count as int),
            all_below(position_of@, position_count as int),
            seen.len() == vertex_count,
            counts.len() == position_count,
            forall|u: int|
                0 <= u < vertex_count ==> (#[trigger] seen@[u] <==> indices@.take(i as int).contains(
                    u as u32,
                )),
            forall|q: int|
                0 <= q < position_count ==> #[trigger] counts@[q] == used_vertices_at(
                    indices@.take(i as int),
                    position_of@,
                    q,
                ).len() && counts@[q] <= i,
        decreases indices.len() - i,
    {
        let vertex = indices[i] as usize;
        let ghost before = indices@.take(i as int);
        let ghost after = indices@.take(i + 1);
        assert(after =~= before.push(vertex as u32));
        assert forall|x: u32| #[trigger] after.contains(x) <==> before.contains(x) || x == vertex by {
            if after.contains(x) && x != vertex {
                let k = choose|k: int| 0 <= k < after.len() && after[k] == x;
                assert(before[k] == x);
            }
            if before.contains(x) {
                let k = choose|k: int| 0 <= k < before.len() && before[k] == x;
                assert(after[k] == x);
            }
            if x == vertex {
                assert(after[i as int] == x);
            }
        }
        let old_seen = seen[vertex];
        if !old_seen {
            seen.set(vertex, true);
            let position = position_of[vertex] as usize;
            counts.set(position, counts[position] + 1);
            proof {
                let s0 = used_vertices_at(before, position_of@, position as int);
                let s1 = used_vertices_at(after, position_of@, position as int);
                assert(s0.subset_of(vstd::set_lib::set_int_range(0, vertex_count as int)));
                vstd::set_lib::lemma_int_range(0, vertex_count as int);
                vstd::set_lib::lemma_len_subset(s0, vstd::set_lib::set_int_range(0, vertex_count as int));
                assert(!s0.contains(vertex as int));
                assert(s1 =~= s0.insert(vertex as int));
            }
        }
        proof {
            assert forall|q: int| 0 <= q < position_count implies #[trigger] counts@[q]
                == used_vertices_at(after, position_of@, q).len() && counts@[q] <= i + 1 by {
                if q != position_of@[vertex as int] || old_seen {
                    assert(used_vertices_at(after, position_of@, q) =~= used_vertices_at(
                        before,
                        position_of@,
                        q,
                    ));
                }
            }
        }
        i = i + 1;
    }
    proof {
        assert(indices@.take(indices.len() as int) =~= indices@);
    }
    counts
}

/// The three parts of a key, packed in one integer.
pub open spec fn packed(key: (u32, u32, u32)) -> u128 {
    ((key.0 as u128) << 64u128) | ((key.1 as u128) << 32u128) | (key.2 as u128)
}

proof fn lemma_packed_injective(a: (u32, u32, u32), b: (u32, u32, u32))
    ensures
        packed(a) == packed(b) ==> a == b,
{
    let (a0, a1, a2) = a;
    let (b0, b1, b2) = b;
    assert(((a0 as u128) << 64u128) | ((a1 as u128) << 32u128) | (a2 as u128) == ((b0 as u128)
        << 64u128) | ((b1 as u128) << 32u128) | (b2 as u128) ==> a0 == b0 && a1 == b1 && a2 == b2)
        by (bit_vector);
}

/// Packs the three parts of a key in one integer.
fn pack(key: (u32, u32, u32)) -> (value: u128)
    ensures
        value == packed(key),
{
    ((key.0 as u128) << 64u128) | ((key.1 as u128) << 32u128) | (key.2 as u128)
}

/// No key before position `i` of `keys` is the key at `i`.
pub open spec fn is_first_occurrence(keys: Seq<(u32, u32, u32)>, i: int) -> bool {
    forall|j: int| 0 <= j < i ==> keys[j] != keys[i]
}

/// Gives the same position to the vertices with the same key (the bits of their coordinates),
/// numbering positions in the order in which their keys first appear. Returns the position of
/// each vertex, and the first vertex with the key of each position.
pub fn weld_positions(keys: &Vec<(u32, u32, u32)>) -> (welded: (Vec<u32>, Vec<u32>))
    requires
        keys.len() <= u32::MAX,
    ensures
        welded.0.len() == keys.len(),
        forall|p: int|
            0 <= p < welded.1.len() ==> #[trigger] welded.1@[p] < keys.len() && is_first_occurrence(
                keys@,
                welded.1@[p] as int,
            ),
        forall|p: int, q: int| 0 <= p < q < welded.1.len() ==> welded.1@[p] < welded.1@[q],
        forall|i: int|
            0 <= i < keys.len() && is_first_occurrence(keys@, i) ==> welded.1@.contains(i as u32),
        forall|i: int|
            0 <= i < keys.len() ==> #[trigger] welded.0@[i] < welded.1.len() && keys@[
                welded.1@[welded.0@[i] as int] as int] == keys@[i],
{
    let mut ids: HashMap<u128, u32> = HashMap::new();
    let mut position_of: Vec<u32> = Vec::new();
    let mut first_vertices: Vec<u32> = Vec::new();
    let mut i: usize = 0;
    while i < keys.len()
        invariant
            i <= keys.len(),
            keys.len() <= u32::MAX,
            position_of.len() == i,
            first_vertices.len() <= i,
            forall|p: int|
                0 <= p < first_vertices.len() ==> #[trigger] first_vertices@[p] < i
                    && is_first_occurrence(keys@, first_vertices@[p] as int),
            forall|p: int, q: int|
                0 <= p < q < first_vertices.len() ==> first_vertices@[p] < first_vertices@[q],
            forall|j: int|
                0 <= j < i && is_first_occurrence(keys@, j) ==> first_vertices@.contains(j as u32),
            forall|j: int|
                0 <= j < i ==> #[trigger] position_of@[j] < first_vertices.len() && keys@[
                    first_vertices@[position_of@[j] as int] as int] == keys@[j],
            forall|k: u128|
                #[trigger] ids@.contains_key(k) <==> exists|p: int|
                    0 <= p < first_vertices.len() && packed(
                        keys@[#[trigger] first_vertices@[p] as int],
                    ) == k,
            forall|p: int|
                0 <= p < first_vertices.len() ==> ids@.contains_key(
                    packed(keys@[#[trigger] first_vertices@[p] as int]),
                ) && ids@[packed(keys@[first_vertices@[p] as int])] == p,
        decreases keys.len() - i,
    {
        let key = pack(keys[i]);
        let ghost fv = first_vertices@;
        match ids.get(&key) {
            Some(id) => {
                let id = *id;
                proof {
                    let p = choose|p: int|
                        0 <= p < fv.len() && packed(keys@[#[trigger] fv[p] as int]) == key;
                    assert(ids@[packed(keys@[fv[p] as int])] == p);
                    lemma_packed_injective(keys@[fv[p] as int], keys@[i as int]);
                    assert(!is_first_occurrence(keys@, i as int)) by {
                        assert(keys@[fv[p] as int] == keys@[i as int]);
                    }
                }
                position_of.push(id);
            },
            None => {
                let id = first_vertices.len() as u32;
                proof {
                    assert forall|j: int| 0 <= j < i implies keys@[j] != keys@[i as int] by {
                        if keys@[j] == keys@[i as int] {
                            let p = position_of@[j] as int;
                            assert(ids@.contains_key(packed(keys@[fv[p] as int])));
                        }
                    }
                    assert forall|p: int| 0 <= p < fv.len() implies packed(keys@[#[trigger] fv[p] as int])
                        != key by {}
                }
                ids.insert(key, id);
                first_vertices.push(i as u32);
                position_of.push(id);
                proof {
                    let fv1 = first_vertices@;
                    assert(fv1[fv.len() as int] == i as u32);
                    assert forall|k: u128|
                        #[trigger] ids@.contains_key(k) <==> exists|p: int|
                            0 <= p < fv1.len() && packed(keys@[#[trigger] fv1[p] as int]) == k by {
                        if ids@.contains_key(k) && k != key {
                            let p = choose|p: int|
                                0 <= p < fv.len() && packed(keys@[#[trigger] fv[p] as int]) == k;
                            assert(fv1[p] == fv[p]);
                        }
                        if exists|p: int| 0 <= p < fv1.len() && packed(keys@[#[trigger] fv1[p] as int]) == k {
                            let p = choose|p: int|
                                0 <= p < fv1.len() && packed(keys@[#[trigger] fv1[p] as int]) == k;
                            if p < fv.len() {
                                assert(fv1[p] == fv[p]);
                            }
                        }
                    }
                    assert forall|p: int| 0 <= p < fv1.len() implies ids@.contains_key(
                        packed(keys@[#[trigger] fv1[p] as int]),
                    ) && ids@[packed(keys@[fv1[p] as int])] == p by {
                        if p < fv.len() {
                            assert(fv1[p] == fv[p]);
                            assert(packed(keys@[fv[p] as int]) != key);
                        }
                    }
                }
            },
        }
        proof {
            assert forall|j: int|
                0 <= j < i + 1 && is_first_occurrence(keys@, j) implies first_vertices@.contains(
                j as u32,
            ) by {
                if j < i {
                    let p = choose|p: int| 0 <= p < fv.len() && fv[p] == j as u32;
                    assert(first_vertices@[p] == j as u32);
                } else {
                    assert(first_vertices@[first_vertices.len() - 1] == j as u32);
                }
            }
            assert forall|j: int| 0 <= j < i + 1 implies #[trigger] position_of@[j]
                < first_vertices.len() && keys@[first_vertices@[position_of@[j] as int] as int]
                == keys@[j] by {
                if j < i {
                    let p = position_of@[j] as int;
                    assert(first_vertices@[p] == fv[p]);
                }
            }
        }
        i = i + 1;
    }
    (position_of, first_vertices)
}

} // verus!
