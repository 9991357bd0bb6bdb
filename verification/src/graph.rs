use vstd::prelude::*;

use crate::heap::{
    children_above_grandparent, decrease_key, has_key, heap_except_at, heapify_up, is_min_heap,
    key_priority, keys_distinct, lemma_key_priority, pop_heap, HeapEntry,
};

verus! {

/// Largest edge weight the graph accepts. Because a graph holds at most
/// `0x1_0000_0000` vertices, every simple path cost then fits in a `u64`.
pub const MAX_WEIGHT: u64 = 0xFFFF_FFFF;

/// Largest coordinate of a vertex position. Keeps every straight-line and
/// taxicab distance between positions within `MAX_WEIGHT`.
pub const POS_MAX: u32 = 0x7FFF_FFFF;

/// How a graph construction can be refused.
#[derive(Clone, Copy, Debug, PartialEq, Eq, Structural)]
pub enum GraphError {
    /// A generator was asked for fewer edges than vertices.
    TooFewEdges,
    /// A generator was asked for edges over an empty vertex set.
    EmptyGraph,
    /// An edge record joins a vertex to itself.
    SelfLoop,
    /// An edge record carries a weight above `MAX_WEIGHT`.
    WeightTooLarge,
    /// The vertex ids do not fit this machine's address space.
    TooManyVertices,
    /// The position table does not have one entry per vertex.
    PositionCountMismatch,
    /// A position coordinate lies above `POS_MAX`.
    CoordTooLarge,
    /// The random generator could not place the requested extra edges.
    RetriesExhausted,
}

/// Every adjacency row keys its neighbors at most once.
pub open spec fn adj_distinct(s: Seq<Vec<(u32, u64)>>) -> bool {
    forall|v: int| 0 <= v < s.len() ==> keys_distinct((#[trigger] s[v])@)
}

/// Every stored half-edge points at a real, different vertex and carries a
/// bounded weight.
pub open spec fn adj_entries_ok(s: Seq<Vec<(u32, u64)>>) -> bool {
    forall|v: int, i: int|
        0 <= v < s.len() && 0 <= i < s[v]@.len() ==> ((#[trigger] s[v]@[i]).0 < s.len()
            && s[v]@[i].0 != v && s[v]@[i].1 <= MAX_WEIGHT)
}

/// Each edge is stored in both directions with one weight.
pub open spec fn adj_symmetric(s: Seq<Vec<(u32, u64)>>) -> bool {
    forall|a: int, b: u32|
        0 <= a < s.len() && #[trigger] has_key(s[a]@, b) ==> (b as int) < s.len() && has_key(
            s[b as int]@,
            a as u32,
        ) && key_priority(s[b as int]@, a as u32) == key_priority(s[a]@, b)
}

/// The weight stored between `a` and `b`, or `None` when no such edge exists.
pub open spec fn edge_opt_of(s: Seq<Vec<(u32, u64)>>, a: u32, b: u32) -> Option<u64> {
    if (a as int) < s.len() && has_key(s[a as int]@, b) {
        Some(key_priority(s[a as int]@, b))
    } else {
        None
    }
}

/// Number of directed half-edges stored in the first `n` adjacency rows.
pub open spec fn half_edges_prefix(s: Seq<Vec<(u32, u64)>>, n: int) -> int
    decreases n,
{
    if n <= 0 {
        0
    } else {
        half_edges_prefix(s, n - 1) + s[n - 1]@.len()
    }
}

/// An undirected weighted graph over the dense vertex ids `0..vertex_count`,
/// stored as one adjacency row per vertex, with optional 2D positions.
pub struct Graph {
    /// Adjacency rows: `edges[v]` lists `(neighbor, weight)` pairs.
    edges: Vec<Vec<(u32, u64)>>,
    /// Vertex positions: empty, or one `(x, y)` point per vertex.
    vertices: Vec<(u32, u32)>,
}

impl Graph {
    /// Number of vertices, as a mathematical integer.
    pub closed spec fn vc(self) -> int {
        self.edges@.len() as int
    }

    /// The adjacency row of vertex `v`.
    pub closed spec fn row(self, v: int) -> Seq<(u32, u64)> {
        self.edges@[v]@
    }

    /// The graph's invariant: a bounded vertex set, duplicate-free rows,
    /// in-range self-loop-free bounded half-edges, symmetry, and a position
    /// table that is empty or complete.
    pub closed spec fn wf(self) -> bool {
        &&& self.edges@.len() <= 0x1_0000_0000
        &&& adj_distinct(self.edges@)
        &&& adj_entries_ok(self.edges@)
        &&& adj_symmetric(self.edges@)
        &&& (self.vertices@.len() == 0 || self.vertices@.len() == self.edges@.len())
        &&& forall|i: int|
            0 <= i < self.vertices@.len() ==> (#[trigger] self.vertices@[i]).0 <= POS_MAX
                && self.vertices@[i].1 <= POS_MAX
    }

    /// Whether this graph carries a complete position table.
    pub closed spec fn has_positions(self) -> bool {
        self.vertices@.len() == self.edges@.len() && self.edges@.len() > 0
    }

    /// Whether an edge between `a` and `b` is stored.
    pub closed spec fn spec_has_edge(self, a: u32, b: u32) -> bool {
        (a as int) < self.vc() && has_key(self.row(a as int), b)
    }

    /// The stored weight between `a` and `b`, with the deliberate convention
    /// that a missing edge (or an out-of-range `a`) reads as weight `0`.
    pub closed spec fn spec_edge_weight(self, a: u32, b: u32) -> u64 {
        if self.spec_has_edge(a, b) {
            key_priority(self.row(a as int), b)
        } else {
            0
        }
    }

    /// The stored weight between `a` and `b`, or `None` without an edge.
    pub closed spec fn spec_edge_opt(self, a: u32, b: u32) -> Option<u64> {
        edge_opt_of(self.edges@, a, b)
    }

    /// Total number of directed half-edges stored.
    pub closed spec fn spec_half_edges(self) -> int {
        half_edges_prefix(self.edges@, self.vc())
    }

    /// Number of vertex slots.
    pub fn vertex_count(&self) -> (r: usize)
        ensures
            r == self.vc(),
    {
        self.edges.len()
    }

    /// Whether an edge between `from` and `to` is stored; an out-of-range
    /// `from` simply has no edges.
    pub fn is_edge(&self, from: u32, to: u32) -> (r: bool)
        requires
            self.wf(),
        ensures
            r == self.spec_has_edge(from, to),
    {
        (from as usize) < self.edges.len() && row_get(&self.edges[from as usize], to).is_some()
    }

    /// The weight of the edge between `from` and `to`, where a missing edge
    /// reads as `0`; call `is_edge` first when the difference matters.
    pub fn get_edge(&self, from: u32, to: u32) -> (r: u64)
        requires
            self.wf(),
        ensures
            r == self.spec_edge_weight(from, to),
    {
        if (from as usize) < self.edges.len() {
            match row_get(&self.edges[from as usize], to) {
                Some(w) => w,
                None => 0,
            }
        } else {
            0
        }
    }

    /// Total number of directed half-edges stored; twice the edge count.
    pub fn half_edge_count(&self) -> (r: u128)
        ensures
            r as int == self.spec_half_edges(),
    {
        let n = self.edges.len();
        let mut sum: u128 = 0;
        let mut i: usize = 0;
        while i < n
            invariant
                0 <= i <= n,
                n == self.edges@.len(),
                sum as int == half_edges_prefix(self.edges@, i as int),
                sum as int <= i as int * 0xFFFF_FFFF_FFFF_FFFFu64 as int,
            decreases n - i,
        {
            let row_len = self.edges[i].len();
            proof {
                assert(row_len as int <= 0xFFFF_FFFF_FFFF_FFFFu64 as int);
                assert(i as int * 0xFFFF_FFFF_FFFF_FFFFu64 as int + 0xFFFF_FFFF_FFFF_FFFFu64 as int
                    == (i as int + 1) * 0xFFFF_FFFF_FFFF_FFFFu64 as int) by (nonlinear_arith);
                assert((i as int + 1) * 0xFFFF_FFFF_FFFF_FFFFu64 as int <= 0xFFFF_FFFF_FFFF_FFFFu64
                    as int * 0xFFFF_FFFF_FFFF_FFFFu64 as int) by (nonlinear_arith)
                    requires
                        i as int + 1 <= 0xFFFF_FFFF_FFFF_FFFFu64 as int,
                ;
            }
            sum = sum + row_len as u128;
            i = i + 1;
        }
        sum
    }
}

/// Looks a neighbor up in one adjacency row by a linear scan.
pub(crate) fn row_get(row: &Vec<(u32, u64)>, k: u32) -> (r: Option<u64>)
    requires
        keys_distinct(row@),
    ensures
        match r {
            Some(w) => has_key(row@, k) && w == key_priority(row@, k),
            None => !has_key(row@, k),
        },
{
    let n = row.len();
    let mut i: usize = 0;
    while i < n
        invariant
            0 <= i <= n,
            n == row@.len(),
            keys_distinct(row@),
            forall|j: int| 0 <= j < i ==> (#[trigger] row@[j]).0 != k,
        decreases n - i,
    {
        if row[i].0 == k {
            proof {
                lemma_key_priority(row@, k, i as int);
            }
            return Some(row[i].1);
        }
        i = i + 1;
    }
    return None;
}

/// Inserts or overwrites the entry for neighbor `k` in one adjacency row.
pub(crate) fn row_insert(row: &mut Vec<(u32, u64)>, k: u32, w: u64)
    requires
        keys_distinct(old(row)@),
    ensures
        keys_distinct(final(row)@),
        has_key(final(row)@, k),
        key_priority(final(row)@, k) == w,
        forall|k2: u32| k2 != k ==> has_key(final(row)@, k2) == has_key(old(row)@, k2),
        forall|k2: u32|
            k2 != k && has_key(old(row)@, k2) ==> key_priority(final(row)@, k2) == key_priority(
                old(row)@,
                k2,
            ),
        final(row)@.len() == old(row)@.len() + (if has_key(old(row)@, k) {
            0int
        } else {
            1int
        }),
        forall|i: int|
            0 <= i < final(row)@.len() ==> (#[trigger] final(row)@[i]) == (k, w) || old(
                row,
            )@.contains(final(row)@[i]),
{
    let n = row.len();
    let mut i: usize = 0;
    while i < n
        invariant
            0 <= i <= n,
            n == row@.len(),
            row@ == old(row)@,
            keys_distinct(row@),
            forall|j: int| 0 <= j < i ==> (#[trigger] row@[j]).0 != k,
        decreases n - i,
    {
        if row[i].0 == k {
            proof {
                lemma_key_priority(old(row)@, k, i as int);
            }
            row.set(i, (k, w));
            proof {
                let s = old(row)@;
                let t = row@;
                assert(keys_distinct(t)) by {
                    assert forall|p: int, q: int|
                        0 <= p < q < t.len() implies (#[trigger] t[p]).0 != (#[trigger] t[q]).0 by {
                        assert(t[p].0 == s[p].0 && t[q].0 == s[q].0);
                    }
                }
                lemma_key_priority(t, k, i as int);
                assert forall|k2: u32| k2 != k implies has_key(t, k2) == has_key(s, k2) by {
                    if has_key(s, k2) {
                        let i0 = choose|i0: int| 0 <= i0 < s.len() && (#[trigger] s[i0]).0 == k2;
                        assert(t[i0].0 == k2);
                    }
                    if has_key(t, k2) {
                        let i0 = choose|i0: int| 0 <= i0 < t.len() && (#[trigger] t[i0]).0 == k2;
                        assert(s[i0].0 == k2);
                    }
                }
                assert forall|k2: u32| k2 != k && has_key(s, k2) implies key_priority(t, k2)
                    == key_priority(s, k2) by {
                    let i0 = choose|i0: int| 0 <= i0 < s.len() && (#[trigger] s[i0]).0 == k2;
                    assert(t[i0] == s[i0]);
                    lemma_key_priority(s, k2, i0);
                    lemma_key_priority(t, k2, i0);
                }
                assert forall|j: int| 0 <= j < t.len() implies (#[trigger] t[j]) == (k, w)
                    || s.contains(t[j]) by {
                    if j != i as int {
                        assert(t[j] == s[j]);
                    }
                }
            }
            return ;
        }
        i = i + 1;
    }
    row.push((k, w));
    proof {
        let s = old(row)@;
        let t = row@;
        assert(t[t.len() - 1] == (k, w));
        assert(!has_key(s, k));
        assert(keys_distinct(t)) by {
            assert forall|p: int, q: int|
                0 <= p < q < t.len() implies (#[trigger] t[p]).0 != (#[trigger] t[q]).0 by {
                if q == t.len() - 1 {
                    assert(t[p] == s[p]);
                    if t[p].0 == k {
                        assert(has_key(s, k));
                    }
                } else {
                    assert(t[p] == s[p] && t[q] == s[q]);
                }
            }
        }
        lemma_key_priority(t, k, t.len() - 1);
        assert forall|k2: u32| k2 != k implies has_key(t, k2) == has_key(s, k2) by {
            if has_key(s, k2) {
                let i0 = choose|i0: int| 0 <= i0 < s.len() && (#[trigger] s[i0]).0 == k2;
                assert(t[i0].0 == k2);
            }
            if has_key(t, k2) {
                let i0 = choose|i0: int| 0 <= i0 < t.len() && (#[trigger] t[i0]).0 == k2;
                assert(s[i0].0 == k2);
            }
        }
        assert forall|k2: u32| k2 != k && has_key(s, k2) implies key_priority(t, k2)
            == key_priority(s, k2) by {
            let i0 = choose|i0: int| 0 <= i0 < s.len() && (#[trigger] s[i0]).0 == k2;
            lemma_key_priority(s, k2, i0);
            lemma_key_priority(t, k2, i0);
        }
        assert forall|j: int| 0 <= j < t.len() implies (#[trigger] t[j]) == (k, w) || s.contains(
            t[j],
        ) by {
            if j != t.len() - 1 {
                assert(t[j] == s[j]);
            }
        }
    }
}

/// The weight standing between `x` and `y` once the records have been applied
/// in order, a later record overwriting an earlier one in either orientation.
pub open spec fn record_weight(rs: Seq<(u32, u32, u64)>, x: u32, y: u32) -> Option<u64>
    decreases rs.len(),
{
    if rs.len() == 0 {
        None
    } else {
        let l = rs[rs.len() - 1];
        if (l.0 == x && l.1 == y) || (l.0 == y && l.1 == x) {
            Some(l.2)
        } else {
            record_weight(rs.drop_last(), x, y)
        }
    }
}

/// Number of vertex slots the records demand: one past the largest id seen.
pub open spec fn needed_len(rs: Seq<(u32, u32, u64)>) -> int
    decreases rs.len(),
{
    if rs.len() == 0 {
        0
    } else {
        let l = rs[rs.len() - 1];
        let m = needed_len(rs.drop_last());
        let hi = if l.0 >= l.1 {
            l.0 as int + 1
        } else {
            l.1 as int + 1
        };
        if hi >= m {
            hi
        } else {
            m
        }
    }
}

/// Every record joins two different vertices with a bounded weight.
pub open spec fn records_ok(rs: Seq<(u32, u32, u64)>) -> bool {
    forall|i: int| 0 <= i < rs.len() ==> (#[trigger] rs[i]).0 != rs[i].1 && rs[i].2 <= MAX_WEIGHT
}

/// Every position coordinate is bounded.
pub open spec fn positions_ok(ps: Seq<(u32, u32)>) -> bool {
    forall|i: int| 0 <= i < ps.len() ==> (#[trigger] ps[i]).0 <= POS_MAX && ps[i].1 <= POS_MAX
}

/// Both endpoints of every record lie below the demanded vertex count.
proof fn lemma_needed_len_covers(rs: Seq<(u32, u32, u64)>, i: int)
    requires
        0 <= i < rs.len(),
    ensures
        rs[i].0 < needed_len(rs),
        rs[i].1 < needed_len(rs),
    decreases rs.len(),
{
    if i == rs.len() - 1 {
    } else {
        lemma_needed_len_covers(rs.drop_last(), i);
    }
}

/// Replacing one adjacency row changes the half-edge total by the row's
/// change in length.
proof fn lemma_half_edges_update(s: Seq<Vec<(u32, u64)>>, v: int, r: Vec<(u32, u64)>, n: int)
    requires
        0 <= v < s.len(),
        n <= s.len(),
    ensures
        half_edges_prefix(s.update(v, r), n) == half_edges_prefix(s, n) + (if v < n {
            r@.len() - s[v]@.len()
        } else {
            0int
        }),
    decreases n,
{
    if n > 0 {
        lemma_half_edges_update(s, v, r, n - 1);
        assert(s.update(v, r)[n - 1] == (if v == n - 1 {
            r
        } else {
            s[n - 1]
        }));
    }
}

/// Inserts the edge `{a, b}` with weight `w` in both directions, overwriting
/// any weight already stored between the two.
fn add_edge_both(edges: &mut Vec<Vec<(u32, u64)>>, a: u32, b: u32, w: u64)
    requires
        old(edges)@.len() <= 0x1_0000_0000,
        adj_distinct(old(edges)@),
        adj_entries_ok(old(edges)@),
        adj_symmetric(old(edges)@),
        (a as int) < old(edges)@.len(),
        (b as int) < old(edges)@.len(),
        a != b,
        w <= MAX_WEIGHT,
    ensures
        final(edges)@.len() == old(edges)@.len(),
        adj_distinct(final(edges)@),
        adj_entries_ok(final(edges)@),
        adj_symmetric(final(edges)@),
        forall|x: u32, y: u32|
            !((x == a && y == b) || (x == b && y == a)) ==> #[trigger] edge_opt_of(
                final(edges)@,
                x,
                y,
            ) == edge_opt_of(old(edges)@, x, y),
        edge_opt_of(final(edges)@, a, b) == Some(w),
        edge_opt_of(final(edges)@, b, a) == Some(w),
        forall|v: int|
            0 <= v < old(edges)@.len() && v != a as int && v != b as int ==> final(edges)@[v]
                == old(edges)@[v],
        half_edges_prefix(final(edges)@, final(edges)@.len() as int) == half_edges_prefix(
            old(edges)@,
            old(edges)@.len() as int,
        ) + (if has_key(old(edges)@[a as int]@, b) {
            0int
        } else {
            2int
        }),
{
    let ghost s0 = edges@;
    row_insert(&mut edges[a as usize], b, w);
    let ghost s1 = edges@;
    row_insert(&mut edges[b as usize], a, w);
    let ghost s2 = edges@;
    proof {
        let ra = s1[a as int]@;
        let rb = s2[b as int]@;
        assert(s1 == s0.update(a as int, s1[a as int]));
        assert(s2 == s1.update(b as int, s2[b as int]));
        assert(s1[b as int] == s0[b as int]);
        assert(s2[a as int] == s1[a as int]);
        // the reverse edge was stored exactly when the forward edge was
        assert(has_key(s0[b as int]@, a) == has_key(s0[a as int]@, b)) by {
            if has_key(s0[a as int]@, b) {
                assert(has_key(s0[b as int]@, a));
            }
            if has_key(s0[b as int]@, a) {
                assert(has_key(s0[a as int]@, b));
            }
        }
        assert(adj_distinct(s2)) by {
            assert forall|v: int| 0 <= v < s2.len() implies keys_distinct((#[trigger] s2[v])@) by {
                if v != a as int && v != b as int {
                    assert(s2[v] == s0[v]);
                }
            }
        }
        assert(adj_entries_ok(s2)) by {
            assert forall|v: int, i: int|
                0 <= v < s2.len() && 0 <= i < s2[v]@.len() implies ((#[trigger] s2[v]@[i]).0
                < s2.len() && s2[v]@[i].0 != v && s2[v]@[i].1 <= MAX_WEIGHT) by {
                if v == a as int {
                    assert(ra[i] == (b, w) || s0[a as int]@.contains(ra[i]));
                    if s0[a as int]@.contains(ra[i]) {
                        let j = choose|j: int|
                            0 <= j < s0[a as int]@.len() && s0[a as int]@[j] == ra[i];
                        assert(s0[a as int]@[j].0 < s0.len());
                    }
                } else if v == b as int {
                    assert(rb[i] == (a, w) || s0[b as int]@.contains(rb[i]));
                    if s0[b as int]@.contains(rb[i]) {
                        let j = choose|j: int|
                            0 <= j < s0[b as int]@.len() && s0[b as int]@[j] == rb[i];
                        assert(s0[b as int]@[j].0 < s0.len());
                    }
                } else {
                    assert(s2[v] == s0[v]);
                }
            }
        }
        assert forall|x: u32, y: u32|
            !((x == a && y == b) || (x == b && y == a)) implies #[trigger] edge_opt_of(s2, x, y)
            == edge_opt_of(s0, x, y) by {
            if (x as int) < s2.len() {
                if x == a {
                    assert(has_key(ra, y) == has_key(s0[a as int]@, y));
                    if has_key(s0[a as int]@, y) {
                        assert(key_priority(ra, y) == key_priority(s0[a as int]@, y));
                    }
                } else if x == b {
                    assert(has_key(rb, y) == has_key(s0[b as int]@, y));
                    if has_key(s0[b as int]@, y) {
                        assert(key_priority(rb, y) == key_priority(s0[b as int]@, y));
                    }
                } else {
                    assert(s2[x as int] == s0[x as int]);
                }
            }
        }
        assert(edge_opt_of(s2, a, b) == Some(w));
        assert(edge_opt_of(s2, b, a) == Some(w));
        assert(adj_symmetric(s2)) by {
            assert forall|x: int, y: u32|
                0 <= x < s2.len() && #[trigger] has_key(s2[x]@, y) implies (y as int) < s2.len()
                && has_key(s2[y as int]@, x as u32) && key_priority(s2[y as int]@, x as u32)
                == key_priority(s2[x]@, y) by {
                let xu = x as u32;
                assert(xu as int == x);
                if x == a as int && y == b {
                    assert(edge_opt_of(s2, a, b) == Some(w));
                    assert(edge_opt_of(s2, b, a) == Some(w));
                } else if x == b as int && y == a {
                    assert(edge_opt_of(s2, a, b) == Some(w));
                    assert(edge_opt_of(s2, b, a) == Some(w));
                } else {
                    assert(edge_opt_of(s2, xu, y) == edge_opt_of(s0, xu, y));
                    assert(has_key(s0[x]@, y));
                    assert((y as int) < s0.len() && has_key(s0[y as int]@, xu) && key_priority(
                        s0[y as int]@,
                        xu,
                    ) == key_priority(s0[x]@, y));
                    assert(!((y == a && xu == b) || (y == b && xu == a)));
                    assert(edge_opt_of(s2, y, xu) == edge_opt_of(s0, y, xu));
                }
            }
        }
        assert(half_edges_prefix(s2, s2.len() as int) == half_edges_prefix(s0, s0.len() as int) + (
        if has_key(s0[a as int]@, b) {
            0int
        } else {
            2int
        })) by {
            lemma_half_edges_update(s0, a as int, s1[a as int], s0.len() as int);
            lemma_half_edges_update(s1, b as int, s2[b as int], s1.len() as int);
        }
    }
}

impl Graph {
    /// The stored position table.
    pub closed spec fn spec_positions(self) -> Seq<(u32, u32)> {
        self.vertices@
    }

    /// Builds the graph that a dataset describes: one record per edge
    /// `(a, b, weight)`, inserted in both directions with later records
    /// overwriting earlier ones; `positions` is empty or holds one bounded
    /// point per vertex. Malformed input is refused rather than skipped.
    pub fn from_edge_list(records: &Vec<(u32, u32, u64)>, positions: Vec<(u32, u32)>) -> (r: Result<
        Graph,
        GraphError,
    >)
        ensures
            (r matches Ok(_)) == (records_ok(records@) && needed_len(records@) <= usize::MAX as int
                && (positions@.len() == 0 || positions@.len() == needed_len(records@))
                && positions_ok(positions@)),
            match r {
                Ok(g) => {
                    &&& g.wf()
                    &&& g.vc() == needed_len(records@)
                    &&& g.spec_positions() == positions@
                    &&& forall|x: u32, y: u32|
                        #[trigger] g.spec_edge_opt(x, y) == record_weight(records@, x, y)
                },
                Err(e) => {
                    ||| (e == GraphError::SelfLoop && exists|i: int|
                        0 <= i < records@.len() && (#[trigger] records@[i]).0 == records@[i].1)
                    ||| (e == GraphError::WeightTooLarge && exists|i: int|
                        0 <= i < records@.len() && (#[trigger] records@[i]).2 > MAX_WEIGHT)
                    ||| (e == GraphError::TooManyVertices && needed_len(records@) > usize::MAX
                        as int)
                    ||| (e == GraphError::PositionCountMismatch && positions@.len() != 0
                        && positions@.len() != needed_len(records@))
                    ||| (e == GraphError::CoordTooLarge && !positions_ok(positions@))
                },
            },
    {
        let m = records.len();
        let mut need: u64 = 0;
        let mut i: usize = 0;
        while i < m
            invariant
                0 <= i <= m,
                m == records@.len(),
                need as int == needed_len(records@.take(i as int)),
                need <= 0x1_0000_0000,
                records_ok(records@.take(i as int)),
            decreases m - i,
        {
            let (a, b, w) = records[i];
            if a == b {
                proof {
                    assert(records@[i as int].0 == records@[i as int].1);
                }
                return Err(GraphError::SelfLoop);
            }
            if w > MAX_WEIGHT {
                proof {
                    assert(records@[i as int].2 > MAX_WEIGHT);
                }
                return Err(GraphError::WeightTooLarge);
            }
            let hi = if a >= b {
                a as u64 + 1
            } else {
                b as u64 + 1
            };
            if hi > need {
                need = hi;
            }
            proof {
                assert(records@.take(i as int + 1).drop_last() =~= records@.take(i as int));
                assert(records@.take(i as int + 1)[i as int] == records@[i as int]);
            }
            i = i + 1;
        }
        proof {
            assert(records@.take(m as int) =~= records@);
        }
        if need > usize::MAX as u64 {
            return Err(GraphError::TooManyVertices);
        }
        let n = need as usize;
        if positions.len() != 0 && positions.len() != n {
            return Err(GraphError::PositionCountMismatch);
        }
        let mut i: usize = 0;
        while i < positions.len()
            invariant
                0 <= i <= positions@.len(),
                positions_ok(positions@.take(i as int)),
            decreases positions@.len() - i,
        {
            let (x, y) = positions[i];
            if x > POS_MAX || y > POS_MAX {
                return Err(GraphError::CoordTooLarge);
            }
            proof {
                assert(positions@.take(i as int + 1).drop_last() =~= positions@.take(i as int));
                assert(positions@.take(i as int + 1)[i as int] == positions@[i as int]);
            }
            i = i + 1;
        }
        proof {
            assert(positions@.take(positions@.len() as int) =~= positions@);
        }
        let mut edges: Vec<Vec<(u32, u64)>> = Vec::new();
        while edges.len() < n
            invariant
                edges@.len() <= n,
                forall|v: int| 0 <= v < edges@.len() ==> (#[trigger] edges@[v])@.len() == 0,
            decreases n - edges@.len(),
        {
            edges.push(Vec::new());
        }
        let mut i: usize = 0;
        while i < m
            invariant
                0 <= i <= m,
                m == records@.len(),
                records_ok(records@),
                needed_len(records@) == n,
                n <= 0x1_0000_0000,
                edges@.len() == n,
                adj_distinct(edges@),
                adj_entries_ok(edges@),
                adj_symmetric(edges@),
                forall|x: u32, y: u32|
                    #[trigger] edge_opt_of(edges@, x, y) == record_weight(
                        records@.take(i as int),
                        x,
                        y,
                    ),
            decreases m - i,
        {
            let (a, b, w) = records[i];
            proof {
                lemma_needed_len_covers(records@, i as int);
            }
            add_edge_both(&mut edges, a, b, w);
            proof {
                assert(records@.take(i as int + 1).drop_last() =~= records@.take(i as int));
                assert(records@.take(i as int + 1)[i as int] == records@[i as int]);
                assert forall|x: u32, y: u32| #[trigger] edge_opt_of(edges@, x, y)
                    == record_weight(records@.take(i as int + 1), x, y) by {
                    if !((x == a && y == b) || (x == b && y == a)) {
                        assert(edge_opt_of(edges@, x, y) == record_weight(
                            records@.take(i as int),
                            x,
                            y,
                        ));
                    }
                }
            }
            i = i + 1;
        }
        proof {
            assert(records@.take(m as int) =~= records@);
        }
        let g = Graph { edges, vertices: positions };
        return Ok(g);
    }
}

/// Number of marked vertices.
pub open spec fn count_true(s: Seq<bool>) -> int
    decreases s.len(),
{
    if s.len() == 0 {
        0
    } else {
        count_true(s.drop_last()) + (if s[s.len() - 1] {
            1int
        } else {
            0int
        })
    }
}

proof fn lemma_count_true_le_len(s: Seq<bool>)
    ensures
        0 <= count_true(s) <= s.len(),
    decreases s.len(),
{
    if s.len() > 0 {
        lemma_count_true_le_len(s.drop_last());
    }
}

proof fn lemma_count_true_update(s: Seq<bool>, i: int)
    requires
        0 <= i < s.len(),
        !s[i],
    ensures
        count_true(s.update(i, true)) == count_true(s) + 1,
    decreases s.len(),
{
    let t = s.update(i, true);
    if i == s.len() - 1 {
        assert(t.drop_last() =~= s.drop_last());
    } else {
        assert(t.drop_last() =~= s.drop_last().update(i, true));
        lemma_count_true_update(s.drop_last(), i);
    }
}

proof fn lemma_count_true_bound(s: Seq<bool>, i: int)
    requires
        0 <= i < s.len(),
        !s[i],
    ensures
        count_true(s) < s.len(),
{
    lemma_count_true_update(s, i);
    lemma_count_true_le_len(s.update(i, true));
}

proof fn lemma_count_true_all_false(s: Seq<bool>)
    requires
        forall|i: int| 0 <= i < s.len() ==> !(#[trigger] s[i]),
    ensures
        count_true(s) == 0,
    decreases s.len(),
{
    if s.len() > 0 {
        lemma_count_true_all_false(s.drop_last());
    }
}

/// A walk through the graph: consecutive entries are joined by edges.
pub open spec fn valid_path(g: Graph, p: Seq<u32>) -> bool {
    &&& p.len() >= 1
    &&& forall|i: int| 0 <= i < p.len() - 1 ==> g.spec_has_edge(#[trigger] p[i], p[i + 1])
}

/// The sum of the edge weights along a walk.
pub open spec fn path_cost(g: Graph, p: Seq<u32>) -> int
    decreases p.len(),
{
    if p.len() <= 1 {
        0
    } else {
        path_cost(g, p.drop_last()) + g.spec_edge_weight(p[p.len() - 2], p[p.len() - 1])
    }
}

/// Some walk from `from` to `to` costs exactly `d`.
pub open spec fn reaches_with(g: Graph, from: u32, to: u32, d: int) -> bool {
    exists|p: Seq<u32>|
        #[trigger] valid_path(g, p) && p.first() == from && p.last() == to && path_cost(g, p) == d
}

/// Some walk joins `from` to `to`.
pub open spec fn connected_to(g: Graph, from: u32, to: u32) -> bool {
    exists|p: Seq<u32>| #[trigger] valid_path(g, p) && p.first() == from && p.last() == to
}

/// Every neighbor of an already expanded vertex has been offered to the
/// frontier.
spec fn expanded_closure(g: Graph, visited: Seq<bool>, queued: Seq<bool>) -> bool {
    forall|v: int, i: int|
        0 <= v < g.vc() && visited[v] && 0 <= i < g.row(v).len() ==> queued[(#[trigger] g.row(
            v,
        )[i]).0 as int]
}

/// Once the expanded set is closed under neighbors and covers the whole
/// frontier, it holds everything a walk can reach from inside it.
proof fn lemma_closed_set_catches_walk(
    g: Graph,
    from: u32,
    to: u32,
    visited: Seq<bool>,
    queued: Seq<bool>,
    p: Seq<u32>,
)
    requires
        g.wf(),
        visited.len() == g.vc(),
        queued.len() == g.vc(),
        expanded_closure(g, visited, queued),
        forall|k: int| 0 <= k < g.vc() && (#[trigger] queued[k]) ==> visited[k],
        (from as int) < g.vc(),
        visited[from as int],
        valid_path(g, p),
        p.first() == from,
        p.last() == to,
    ensures
        (to as int) < g.vc(),
        visited[to as int],
    decreases p.len(),
{
    if p.len() == 1 {
    } else {
        let q = p.drop_last();
        let mid = p[p.len() - 2];
        assert(valid_path(g, q)) by {
            assert forall|i: int| 0 <= i < q.len() - 1 implies g.spec_has_edge(
                #[trigger] q[i],
                q[i + 1],
            ) by {
                assert(q[i] == p[i] && q[i + 1] == p[i + 1]);
            }
        }
        assert(g.spec_has_edge(mid, to));
        lemma_closed_set_catches_walk(g, from, mid, visited, queued, q);
        let row = g.row(mid as int);
        let i = choose|i: int| 0 <= i < row.len() && (#[trigger] row[i]).0 == to;
        assert(g.row(mid as int)[i].0 == to);
        assert(queued[(to as int)]);
    }
}

/// The one-vertex walk reaches a vertex from itself at no cost.
pub proof fn lemma_reaches_single(g: Graph, v: u32)
    ensures
        reaches_with(g, v, v, 0),
{
    let p = seq![v];
    assert(valid_path(g, p));
    assert(p.first() == v && p.last() == v);
    assert(path_cost(g, p) == 0);
}

/// A walk extends across any edge leaving its last vertex.
pub proof fn lemma_reaches_extend(g: Graph, from: u32, v: u32, d: int, w: u32)
    requires
        reaches_with(g, from, v, d),
        g.spec_has_edge(v, w),
    ensures
        reaches_with(g, from, w, d + g.spec_edge_weight(v, w)),
{
    let p = choose|p: Seq<u32>|
        #[trigger] valid_path(g, p) && p.first() == from && p.last() == v && path_cost(g, p) == d;
    let q = p.push(w);
    assert(q.drop_last() =~= p);
    assert(q.last() == w && q.first() == from);
    assert(valid_path(g, q)) by {
        assert forall|i: int| 0 <= i < q.len() - 1 implies g.spec_has_edge(
            #[trigger] q[i],
            q[i + 1],
        ) by {
            if i < p.len() - 1 {
                assert(q[i] == p[i] && q[i + 1] == p[i + 1]);
            } else {
                assert(q[i] == v && q[i + 1] == w);
            }
        }
    }
    assert(q[q.len() - 2] == v && q[q.len() - 1] == w);
    assert(path_cost(g, q) == d + g.spec_edge_weight(v, w));
}

/// A vector of `n` unmarked slots.
fn make_bools(n: usize) -> (r: Vec<bool>)
    ensures
        r@.len() == n,
        forall|i: int| 0 <= i < n ==> !(#[trigger] r@[i]),
{
    let mut r: Vec<bool> = Vec::new();
    while r.len() < n
        invariant
            r@.len() <= n,
            forall|i: int| 0 <= i < r@.len() ==> !(#[trigger] r@[i]),
        decreases n - r@.len(),
    {
        r.push(false);
    }
    r
}

/// A vector of `n` zero distances.
fn make_zeros(n: usize) -> (r: Vec<u64>)
    ensures
        r@.len() == n,
        forall|i: int| 0 <= i < n ==> (#[trigger] r@[i]) == 0u64,
{
    let mut r: Vec<u64> = Vec::new();
    while r.len() < n
        invariant
            r@.len() <= n,
            forall|i: int| 0 <= i < r@.len() ==> (#[trigger] r@[i]) == 0u64,
        decreases n - r@.len(),
    {
        r.push(0);
    }
    r
}

/// The state every search variant maintains: a duplicate-free min-heap whose
/// keys are exactly the queued, not yet visited vertices, visited vertices
/// staying queued, every tentative cost bounded (so sums cannot overflow) and
/// realized by an actual walk from the source.
#[verifier::opaque]
spec fn search_inv(
    g: Graph,
    from: u32,
    queue: Seq<HeapEntry>,
    queued: Seq<bool>,
    dist: Seq<u64>,
    visited: Seq<bool>,
) -> bool {
    let n = g.vc();
    &&& queued.len() == n
    &&& dist.len() == n
    &&& visited.len() == n
    &&& is_min_heap(queue)
    &&& keys_distinct(queue)
    &&& forall|i: int|
        0 <= i < queue.len() ==> (((#[trigger] queue[i]).0 as int) < n
            && queued[queue[i].0 as int] && !visited[queue[i].0 as int])
    &&& forall|k: int|
        0 <= k < n && (#[trigger] queued[k]) && !visited[k] ==> has_key(queue, k as u32)
    &&& forall|k: int| 0 <= k < n && (#[trigger] visited[k]) ==> queued[k]
    &&& forall|k: int|
        0 <= k < n && (#[trigger] queued[k]) && !visited[k] ==> dist[k] as int <= count_true(
            visited,
        ) * (MAX_WEIGHT as int)
    &&& forall|k: int|
        0 <= k < n && (#[trigger] queued[k]) ==> reaches_with(g, from, k as u32, dist[k] as int)
}

/// Removing the root from the frontier and marking its vertex visited keeps
/// the search state consistent.
proof fn lemma_inv_after_pop(
    g: Graph,
    from: u32,
    q0: Seq<HeapEntry>,
    q1: Seq<HeapEntry>,
    queued: Seq<bool>,
    dist: Seq<u64>,
    v0: Seq<bool>,
    v1: Seq<bool>,
)
    requires
        g.vc() <= 0x1_0000_0000,
        search_inv(g, from, q0, queued, dist, v0),
        q0.len() > 0,
        is_min_heap(q1),
        keys_distinct(q1),
        !has_key(q1, q0[0].0),
        forall|k: u32| has_key(q1, k) ==> has_key(q0, k),
        forall|k: u32| has_key(q0, k) && k != q0[0].0 ==> has_key(q1, k),
        v1 == v0.update(q0[0].0 as int, true),
    ensures
        search_inv(g, from, q1, queued, dist, v1),
{
    reveal(search_inv);
    let n = g.vc();
    let c = q0[0].0;
    assert(!v0[c as int]);
    lemma_count_true_update(v0, c as int);
    assert(count_true(v1) == count_true(v0) + 1);
    assert forall|i: int|
        0 <= i < q1.len() implies (((#[trigger] q1[i]).0 as int) < n && queued[q1[i].0 as int]
        && !v1[q1[i].0 as int]) by {
        assert(has_key(q1, q1[i].0));
        assert(has_key(q0, q1[i].0));
        let x = choose|x: int| 0 <= x < q0.len() && (#[trigger] q0[x]).0 == q1[i].0;
        assert(q1[i].0 != c);
    }
    assert forall|k: int|
        0 <= k < n && (#[trigger] queued[k]) && !v1[k] implies has_key(q1, k as u32) by {
        assert(!v0[k]);
        assert(has_key(q0, k as u32));
        assert(k != c as int);
        assert((k as u32) as int == k);
        assert(k as u32 != c);
    }
    assert forall|k: int|
        0 <= k < n && (#[trigger] queued[k]) && !v1[k] implies dist[k] as int <= count_true(v1) * (
    MAX_WEIGHT as int) by {
        assert(!v0[k]);
        assert(dist[k] as int <= count_true(v0) * (MAX_WEIGHT as int));
        assert(count_true(v0) * (MAX_WEIGHT as int) <= count_true(v1) * (MAX_WEIGHT as int));
    }
}

/// Appending an entry with a fresh key to a min-heap disturbs the shape only
/// at the appended slot.
#[verifier::rlimit(100)]
#[verifier::spinoff_prover]
proof fn lemma_push_prep(q0: Seq<HeapEntry>, e: HeapEntry)
    requires
        is_min_heap(q0),
        keys_distinct(q0),
        forall|i: int| 0 <= i < q0.len() ==> (#[trigger] q0[i]).0 != e.0,
    ensures
        heap_except_at(q0.push(e), q0.len() as int),
        children_above_grandparent(q0.push(e), q0.len() as int),
        keys_distinct(q0.push(e)),
        has_key(q0.push(e), e.0),
        forall|k: u32| has_key(q0.push(e), k) == (has_key(q0, k) || k == e.0),
{
    let q1 = q0.push(e);
    assert forall|i: int|
        1 <= i < q1.len() && i != q1.len() - 1 implies q1[crate::heap::parent_of(i)].1 <= (
    #[trigger] q1[i]).1 by {
        assert(q1[i] == q0[i]);
        assert(q1[crate::heap::parent_of(i)] == q0[crate::heap::parent_of(i)]);
    }
    assert forall|x: int, y: int|
        0 <= x < y < q1.len() implies (#[trigger] q1[x]).0 != (#[trigger] q1[y]).0 by {
        if y == q1.len() - 1 {
            assert(q1[x] == q0[x]);
        } else {
            assert(q1[x] == q0[x] && q1[y] == q0[y]);
        }
    }
    assert(q1[q1.len() - 1].0 == e.0);
    assert forall|k: u32| has_key(q1, k) == (has_key(q0, k) || k == e.0) by {
        if has_key(q0, k) {
            let i0 = choose|i0: int| 0 <= i0 < q0.len() && (#[trigger] q0[i0]).0 == k;
            assert(q1[i0].0 == k);
        }
        if has_key(q1, k) && k != e.0 {
            let i0 = choose|i0: int| 0 <= i0 < q1.len() && (#[trigger] q1[i0]).0 == k;
            assert(q0[i0].0 == k);
        }
    }
}

/// Enqueueing an unqueued vertex at a realized, bounded tentative cost keeps
/// the search state consistent; `q2` is the reordered heap after the insert.
proof fn lemma_inv_after_push(
    g: Graph,
    from: u32,
    q0: Seq<HeapEntry>,
    q2: Seq<HeapEntry>,
    queued0: Seq<bool>,
    dist0: Seq<u64>,
    visited: Seq<bool>,
    nbr: u32,
    nd: u64,
    prio: u64,
)
    requires
        g.vc() <= 0x1_0000_0000,
        search_inv(g, from, q0, queued0, dist0, visited),
        (nbr as int) < g.vc(),
        !queued0[nbr as int],
        !visited[nbr as int],
        nd as int <= count_true(visited) * (MAX_WEIGHT as int),
        reaches_with(g, from, nbr, nd as int),
        is_min_heap(q2),
        keys_distinct(q0.push((nbr, prio))) ==> keys_distinct(q2),
        q2.to_multiset() == q0.push((nbr, prio)).to_multiset(),
        forall|k: u32| has_key(q2, k) == has_key(q0.push((nbr, prio)), k),
    ensures
        search_inv(
            g,
            from,
            q2,
            queued0.update(nbr as int, true),
            dist0.update(nbr as int, nd),
            visited,
        ),
{
    reveal(search_inv);
    broadcast use vstd::seq_lib::group_to_multiset_ensures;

    let n = g.vc();
    let q1 = q0.push((nbr, prio));
    let queued1 = queued0.update(nbr as int, true);
    let dist1 = dist0.update(nbr as int, nd);
    assert forall|i: int| 0 <= i < q0.len() implies (#[trigger] q0[i]).0 != nbr by {
        assert(queued0[q0[i].0 as int]);
    }
    lemma_push_prep(q0, (nbr, prio));
    assert(keys_distinct(q2));
    assert forall|i: int|
        0 <= i < q2.len() implies (((#[trigger] q2[i]).0 as int) < n && queued1[q2[i].0 as int]
        && !visited[q2[i].0 as int]) by {
        assert(q2.to_multiset().count(q2[i]) > 0) by {
            assert(q2.contains(q2[i]));
        }
        assert(q1.to_multiset().count(q2[i]) > 0);
        assert(q1.contains(q2[i]));
        let x = choose|x: int| 0 <= x < q1.len() && q1[x] == q2[i];
        if x == q1.len() - 1 {
        } else {
            assert(q1[x] == q0[x]);
            assert(queued0[q0[x].0 as int] && !visited[q0[x].0 as int]);
        }
    }
    assert forall|k: int|
        0 <= k < n && (#[trigger] queued1[k]) && !visited[k] implies has_key(q2, k as u32) by {
        assert((k as u32) as int == k);
        if k == nbr as int {
            assert(has_key(q1, nbr));
        } else {
            assert(queued0[k]);
            assert(has_key(q0, k as u32));
        }
    }
    assert forall|k: int|
        0 <= k < n && (#[trigger] queued1[k]) && !visited[k] implies dist1[k] as int <= count_true(
        visited,
    ) * (MAX_WEIGHT as int) by {
        if k != nbr as int {
            assert(queued0[k]);
        }
    }
    assert forall|k: int| 0 <= k < n && (#[trigger] queued1[k]) implies reaches_with(
        g,
        from,
        k as u32,
        dist1[k] as int,
    ) by {
        if k != nbr as int {
            assert(queued0[k]);
        }
    }
}

/// Lowering the tentative cost of a queued vertex to a realized, bounded
/// value keeps the search state consistent; `q2` is the heap after the
/// priority decrease.
proof fn lemma_inv_after_decrease(
    g: Graph,
    from: u32,
    q0: Seq<HeapEntry>,
    q2: Seq<HeapEntry>,
    queued: Seq<bool>,
    dist0: Seq<u64>,
    visited: Seq<bool>,
    nbr: u32,
    nd: u64,
)
    requires
        g.vc() <= 0x1_0000_0000,
        search_inv(g, from, q0, queued, dist0, visited),
        (nbr as int) < g.vc(),
        queued[nbr as int],
        !visited[nbr as int],
        nd as int <= count_true(visited) * (MAX_WEIGHT as int),
        reaches_with(g, from, nbr, nd as int),
        is_min_heap(q2),
        keys_distinct(q2),
        forall|k: u32| has_key(q2, k) == has_key(q0, k),
        forall|e: HeapEntry|
            #[trigger] q2.to_multiset().count(e) > 0 ==> q0.to_multiset().count(e) > 0 || e.0
                == nbr,
    ensures
        search_inv(g, from, q2, queued, dist0.update(nbr as int, nd), visited),
{
    reveal(search_inv);
    broadcast use vstd::seq_lib::group_to_multiset_ensures;

    let n = g.vc();
    let dist1 = dist0.update(nbr as int, nd);
    assert forall|i: int|
        0 <= i < q2.len() implies (((#[trigger] q2[i]).0 as int) < n && queued[q2[i].0 as int]
        && !visited[q2[i].0 as int]) by {
        assert(q2.to_multiset().count(q2[i]) > 0) by {
            assert(q2.contains(q2[i]));
        }
        if q2[i].0 == nbr {
        } else {
            assert(q0.to_multiset().count(q2[i]) > 0);
            assert(q0.contains(q2[i]));
            let x = choose|x: int| 0 <= x < q0.len() && q0[x] == q2[i];
            assert(queued[q0[x].0 as int] && !visited[q0[x].0 as int]);
        }
    }
    assert forall|k: int|
        0 <= k < n && (#[trigger] queued[k]) && !visited[k] implies dist1[k] as int <= count_true(
        visited,
    ) * (MAX_WEIGHT as int) by {
        if k != nbr as int {
        }
    }
    assert forall|k: int| 0 <= k < n && (#[trigger] queued[k]) implies reaches_with(
        g,
        from,
        k as u32,
        dist1[k] as int,
    ) by {
        if k != nbr as int {
        }
    }
}

impl Graph {
    /// The search priority bonus of a vertex: the floor of the straight-line
    /// distance to the target when the heuristic is in use, zero otherwise.
    fn heuristic(&self, v: u32, to: u32, use_heuristic: bool) -> (r: u64)
        requires
            self.wf(),
            use_heuristic ==> self.has_positions() && (v as int) < self.vc() && (to as int)
                < self.vc(),
        ensures
            r <= MAX_WEIGHT,
            !use_heuristic ==> r == 0,
    {
        if use_heuristic {
            crate::geometry::euclid_floor(self.vertices[v as usize], self.vertices[to as usize])
        } else {
            0
        }
    }

    /// Enqueues a vertex that was not yet on the frontier at tentative cost
    /// `nd`, keyed in the heap by `prio`.
    #[verifier::rlimit(100)]
    #[verifier::spinoff_prover]
    fn push_frontier(
        &self,
        from: u32,
        nbr: u32,
        nd: u64,
        prio: u64,
        queue: &mut Vec<HeapEntry>,
        queued: &mut Vec<bool>,
        dist: &mut Vec<u64>,
        visited: &Vec<bool>,
    )
        requires
            self.wf(),
            search_inv(*self, from, old(queue)@, old(queued)@, old(dist)@, visited@),
            (nbr as int) < self.vc(),
            !old(queued)@[nbr as int],
            !visited@[nbr as int],
            nd as int <= count_true(visited@) * (MAX_WEIGHT as int),
            reaches_with(*self, from, nbr, nd as int),
        ensures
            search_inv(*self, from, final(queue)@, final(queued)@, final(dist)@, visited@),
            final(queued)@ == old(queued)@.update(nbr as int, true),
            final(dist)@ == old(dist)@.update(nbr as int, nd),
    {
        let g = self;
        let ghost n = self.vc();
        proof {
            reveal(search_inv);
            assert(visited@.len() == n && queued@.len() == n && dist@.len() == n);
        }
        let ghost q0 = queue@;
        let ghost queued0 = queued@;
        let ghost dist0 = dist@;
        queued.set(nbr as usize, true);
        dist.set(nbr as usize, nd);
        queue.push((nbr, prio));
        proof {
            reveal(search_inv);
            assert forall|i: int| 0 <= i < q0.len() implies (#[trigger] q0[i]).0 != nbr by {
                assert(queued0[q0[i].0 as int]);
            }
            lemma_push_prep(q0, (nbr, prio));
        }
        let idx = queue.len() - 1;
        heapify_up(queue, idx);
        proof {
            lemma_inv_after_push(*g, from, q0, queue@, queued0, dist0, visited@, nbr, nd, prio);
        }
    }

    /// One relaxation step: offers the neighbor `nbr` of the vertex just
    /// expanded (reached at cost `cur_cost` over an edge of weight `w`) to the
    /// frontier, enqueueing it or improving its tentative cost.
    #[verifier::rlimit(100)]
    #[verifier::spinoff_prover]
    fn relax_neighbor(
        &self,
        from: u32,
        to: u32,
        use_heuristic: bool,
        cur_cost: u64,
        nbr: u32,
        w: u64,
        queue: &mut Vec<HeapEntry>,
        queued: &mut Vec<bool>,
        dist: &mut Vec<u64>,
        visited: &Vec<bool>,
    )
        requires
            self.wf(),
            use_heuristic ==> self.has_positions() && (to as int) < self.vc(),
            search_inv(*self, from, old(queue)@, old(queued)@, old(dist)@, visited@),
            (nbr as int) < self.vc(),
            w <= MAX_WEIGHT,
            reaches_with(*self, from, nbr, cur_cost as int + w as int),
            cur_cost as int + MAX_WEIGHT as int <= count_true(visited@) * (MAX_WEIGHT as int),
            count_true(visited@) <= self.vc(),
        ensures
            search_inv(*self, from, final(queue)@, final(queued)@, final(dist)@, visited@),
            forall|k: int|
                0 <= k < self.vc() && k != nbr as int ==> final(dist)@[k] == old(dist)@[k],
            forall|k: int| 0 <= k < self.vc() && old(queued)@[k] ==> final(queued)@[k],
            final(queued)@[nbr as int],
    {
        let g = self;
        let ghost n = self.vc();
        proof {
            reveal(search_inv);
            assert(visited@.len() == n && queued@.len() == n && dist@.len() == n);
            assert(is_min_heap(queue@) && keys_distinct(queue@));
            assert(forall|i: int|
                0 <= i < queue@.len() ==> (((#[trigger] queue@[i]).0 as int) < n
                    && queued@[queue@[i].0 as int]));
            assert(queued@[nbr as int] && !visited@[nbr as int] ==> has_key(queue@, nbr));
            assert(visited@[nbr as int] ==> queued@[nbr as int]);
        }
        if visited[nbr as usize] {
            return ;
        }
        let nd = cur_cost + w;
        proof {
            assert(count_true(visited@) * (MAX_WEIGHT as int) <= n * (MAX_WEIGHT as int))
                by (nonlinear_arith)
                requires
                    count_true(visited@) <= n,
                    MAX_WEIGHT > 0,
            ;
            assert(n <= 0x1_0000_0000);
        }
        let hn = self.heuristic(nbr, to, use_heuristic);
        let prio = nd + hn;
        if !queued[nbr as usize] {
            self.push_frontier(from, nbr, nd, prio, queue, queued, dist, visited);
        } else {
            if nd < dist[nbr as usize] {
                let ghost q0 = queue@;
                let ghost dist0 = dist@;
                dist.set(nbr as usize, nd);
                proof {
                    assert(has_key(q0, nbr));
                }
                decrease_key(queue, nbr, prio);
                proof {
                    assert forall|e: HeapEntry| #[trigger] queue@.to_multiset().count(e)
                        > 0 implies q0.to_multiset().count(e) > 0 || e.0 == nbr by {
                        if e != (nbr, prio) {
                        }
                    }
                    lemma_inv_after_decrease(
                        *g,
                        from,
                        q0,
                        queue@,
                        queued@,
                        dist0,
                        visited@,
                        nbr,
                        nd,
                    );
                }
            }
        }
    }

    /// The shared relaxation loop of all four search variants: expands
    /// vertices in ascending priority order, where the priority of a vertex is
    /// its tentative path cost, plus the heuristic bonus when asked for, and
    /// accepts the target's cost when the target is dequeued. Returns `None`
    /// exactly by exhausting the frontier.
    fn search_engine(&self, from: u32, to: u32, use_heuristic: bool) -> (r: Option<u64>)
        requires
            self.wf(),
            (from as int) < self.vc(),
            use_heuristic ==> self.has_positions() && (to as int) < self.vc(),
        ensures
            from == to ==> r == Some(0u64),
            r matches Some(d) ==> reaches_with(*self, from, to, d as int),
            (r is None) == !connected_to(*self, from, to),
    {
        let g = self;
        if from == to {
            proof {
                lemma_reaches_single(*g, from);
                let p = choose|p: Seq<u32>|
                    #[trigger] valid_path(*g, p) && p.first() == from && p.last() == from
                        && path_cost(*g, p) == 0;
                assert(connected_to(*g, from, to));
            }
            return Some(0);
        }
        let n = self.edges.len();
        let mut visited = make_bools(n);
        let mut queued = make_bools(n);
        let mut dist = make_zeros(n);
        let h0 = self.heuristic(from, to, use_heuristic);
        let mut queue: Vec<HeapEntry> = Vec::new();
        queue.push((from, h0));
        queued.set(from as usize, true);
        proof {
            reveal(search_inv);
            lemma_count_true_all_false(visited@);
            lemma_reaches_single(*g, from);
            assert(queue@[0].0 == from);
            assert(has_key(queue@, from));
            assert(search_inv(*g, from, queue@, queued@, dist@, visited@));
        }
        while queue.len() != 0
            invariant
                g == self,
                g.wf(),
                n == g.vc(),
                (from as int) < n as int,
                from != to,
                use_heuristic ==> g.has_positions() && (to as int) < n as int,
                queued@[from as int],
                (to as int) < n as int ==> !visited@[to as int],
                expanded_closure(*g, visited@, queued@),
                search_inv(*g, from, queue@, queued@, dist@, visited@),
            decreases n as int - count_true(visited@),
        {
            proof {
                reveal(search_inv);
                assert(is_min_heap(queue@) && keys_distinct(queue@));
                assert(visited@.len() == n && queued@.len() == n && dist@.len() == n);
                assert((queue@[0].0 as int) < n as int && queued@[queue@[0].0 as int]
                    && !visited@[queue@[0].0 as int]);
                assert(dist@[queue@[0].0 as int] as int <= count_true(visited@) * (MAX_WEIGHT
                    as int));
                assert(reaches_with(*g, from, queue@[0].0, dist@[queue@[0].0 as int] as int));
                lemma_count_true_bound(visited@, queue@[0].0 as int);
            }
            let ghost q_pre = queue@;
            let cur = pop_heap(&mut queue);
            let cur_v = cur.0;
            let cur_cost = dist[cur_v as usize];
            if cur_v == to {
                proof {
                    let p = choose|p: Seq<u32>|
                        #[trigger] valid_path(*g, p) && p.first() == from && p.last() == to
                            && path_cost(*g, p) == cur_cost as int;
                    assert(connected_to(*g, from, to));
                }
                return Some(cur_cost);
            }
            let ghost v_pre = visited@;
            visited.set(cur_v as usize, true);
            proof {
                lemma_inv_after_pop(*g, from, q_pre, queue@, queued@, dist@, v_pre, visited@);
                lemma_count_true_update(v_pre, cur_v as int);
                lemma_count_true_le_len(visited@);
            }
            let row_len = self.edges[cur_v as usize].len();
            let mut j: usize = 0;
            while j < row_len
                invariant
                    g == self,
                    g.wf(),
                    n == g.vc(),
                    (from as int) < n as int,
                    from != to,
                    use_heuristic ==> g.has_positions() && (to as int) < n as int,
                    (cur_v as int) < n as int,
                    row_len == g.row(cur_v as int).len(),
                    0 <= j <= row_len,
                    visited@ == v_pre.update(cur_v as int, true),
                    queued@[cur_v as int],
                    dist@[cur_v as int] == cur_cost,
                    cur_cost as int + MAX_WEIGHT as int <= count_true(visited@) * (MAX_WEIGHT
                        as int),
                    count_true(visited@) <= n as int,
                    queued@[from as int],
                    (to as int) < n as int ==> !visited@[to as int],
                    forall|v: int, i: int|
                        0 <= v < n as int && visited@[v] && 0 <= i < g.row(v).len() && (v
                            != cur_v as int || i < j as int) ==> queued@[((#[trigger] g.row(
                            v,
                        )[i]).0) as int],
                    search_inv(*g, from, queue@, queued@, dist@, visited@),
                decreases row_len - j,
            {
                let (nbr, w) = self.edges[cur_v as usize][j];
                proof {
                    assert(g.row(cur_v as int)[j as int] == (nbr, w));
                    assert((nbr as int) < n as int && nbr != cur_v && w <= MAX_WEIGHT);
                    assert(g.spec_has_edge(cur_v, nbr));
                    lemma_key_priority(g.row(cur_v as int), nbr, j as int);
                    assert(g.spec_edge_weight(cur_v, nbr) == w);
                    reveal(search_inv);
                    assert(reaches_with(*g, from, cur_v, cur_cost as int));
                    lemma_reaches_extend(*g, from, cur_v, cur_cost as int, nbr);
                }
                self.relax_neighbor(
                    from,
                    to,
                    use_heuristic,
                    cur_cost,
                    nbr,
                    w,
                    &mut queue,
                    &mut queued,
                    &mut dist,
                    &visited,
                );
                j = j + 1;
            }
        }
        proof {
            reveal(search_inv);
            assert forall|k: int| 0 <= k < n as int && (#[trigger] queued@[k]) implies visited@[k] by {
                if !visited@[k] {
                    assert(has_key(queue@, k as u32));
                }
            }
            assert(visited@[from as int]);
            assert forall|p: Seq<u32>|
                !(#[trigger] valid_path(*g, p) && p.first() == from && p.last() == to) by {
                if valid_path(*g, p) && p.first() == from && p.last() == to {
                    lemma_closed_set_catches_walk(*g, from, to, visited@, queued@, p);
                }
            }
            assert(!connected_to(*g, from, to));
        }
        return None;
    }

    /// Weight-aware uniform-cost search from `from` to `to`: the optimal path
    /// cost, or `None` when the target is unreachable.
    pub fn shortest_path_bfs(&self, from: u32, to: u32) -> (r: Option<u64>)
        requires
            self.wf(),
            (from as int) < self.vc(),
        ensures
            from == to ==> r == Some(0u64),
            r matches Some(d) ==> reaches_with(*self, from, to, d as int),
            (r is None) == !connected_to(*self, from, to),
    {
        self.search_engine(from, to, false)
    }

    /// Uniform-cost search ordered by cost plus straight-line distance to the
    /// target; needs stored positions.
    pub fn shortest_path_bfs_heuristic(&self, from: u32, to: u32) -> (r: Option<u64>)
        requires
            self.wf(),
            self.has_positions(),
            (from as int) < self.vc(),
            (to as int) < self.vc(),
        ensures
            from == to ==> r == Some(0u64),
            r matches Some(d) ==> reaches_with(*self, from, to, d as int),
            (r is None) == !connected_to(*self, from, to),
    {
        self.search_engine(from, to, true)
    }

    /// Classic least-cost search: expands strictly in ascending path-cost
    /// order and accepts the target's cost when the target is dequeued.
    pub fn shortest_path_dijkstras(&self, from: u32, to: u32) -> (r: Option<u64>)
        requires
            self.wf(),
            (from as int) < self.vc(),
        ensures
            from == to ==> r == Some(0u64),
            r matches Some(d) ==> reaches_with(*self, from, to, d as int),
            (r is None) == !connected_to(*self, from, to),
    {
        self.search_engine(from, to, false)
    }

    /// Heuristic-guided least-cost search: classic least-cost expansion
    /// ordered by cost plus straight-line distance, returning the plain
    /// accumulated cost; needs stored positions.
    pub fn shortest_path_a_star(&self, from: u32, to: u32) -> (r: Option<u64>)
        requires
            self.wf(),
            self.has_positions(),
            (from as int) < self.vc(),
            (to as int) < self.vc(),
        ensures
            from == to ==> r == Some(0u64),
            r matches Some(d) ==> reaches_with(*self, from, to, d as int),
            (r is None) == !connected_to(*self, from, to),
    {
        self.search_engine(from, to, true)
    }
}

/// `w` is the straight-line distance between `p` and `q`, rounded up.
pub open spec fn straight_weight(p: (u32, u32), q: (u32, u32), w: u64) -> bool {
    &&& crate::geometry::euclid_sq(p, q) <= crate::geometry::sq(w as int)
    &&& (w > 0 ==> crate::geometry::sq(w as int - 1) < crate::geometry::euclid_sq(p, q))
}

/// `w` is the taxicab distance between `p` and `q`.
pub open spec fn taxicab_weight(p: (u32, u32), q: (u32, u32), w: u64) -> bool {
    w as int == crate::geometry::taxicab(p, q)
}

/// Swapping the endpoints changes neither distance.
proof fn lemma_dist_symmetric(p: (u32, u32), q: (u32, u32))
    ensures
        crate::geometry::euclid_sq(p, q) == crate::geometry::euclid_sq(q, p),
        crate::geometry::taxicab(p, q) == crate::geometry::taxicab(q, p),
{
    assert(crate::geometry::sq(p.0 as int - q.0 as int) == crate::geometry::sq(
        q.0 as int - p.0 as int,
    )) by (nonlinear_arith);
    assert(crate::geometry::sq(p.1 as int - q.1 as int) == crate::geometry::sq(
        q.1 as int - p.1 as int,
    )) by (nonlinear_arith);
}

/// A walk survives in any graph that keeps every edge.
proof fn lemma_connected_monotone(g1: Graph, g2: Graph, a: u32, b: u32)
    requires
        connected_to(g1, a, b),
        forall|x: u32, y: u32| g1.spec_has_edge(x, y) ==> #[trigger] g2.spec_has_edge(x, y),
    ensures
        connected_to(g2, a, b),
{
    let p = choose|p: Seq<u32>|
        #[trigger] valid_path(g1, p) && p.first() == a && p.last() == b;
    assert(valid_path(g2, p)) by {
        assert forall|i: int| 0 <= i < p.len() - 1 implies g2.spec_has_edge(
            #[trigger] p[i],
            p[i + 1],
        ) by {
            assert(g1.spec_has_edge(p[i], p[i + 1]));
        }
    }
}

/// A walk extends across any edge leaving its last vertex.
proof fn lemma_connected_step(g: Graph, a: u32, b: u32, c: u32)
    requires
        connected_to(g, a, b),
        g.spec_has_edge(b, c),
    ensures
        connected_to(g, a, c),
{
    let p = choose|p: Seq<u32>|
        #[trigger] valid_path(g, p) && p.first() == a && p.last() == b;
    let q = p.push(c);
    assert(q.first() == a && q.last() == c);
    assert(valid_path(g, q)) by {
        assert forall|i: int| 0 <= i < q.len() - 1 implies g.spec_has_edge(
            #[trigger] q[i],
            q[i + 1],
        ) by {
            if i < p.len() - 1 {
                assert(q[i] == p[i] && q[i + 1] == p[i + 1]);
            } else {
                assert(q[i] == b && q[i + 1] == c);
            }
        }
    }
}

/// Every vertex is joined to itself by the one-vertex walk.
proof fn lemma_connected_single(g: Graph, v: u32)
    ensures
        connected_to(g, v, v),
{
    let p = seq![v];
    assert(valid_path(g, p));
    assert(p.first() == v && p.last() == v);
}

/// Vertex `v` stands in one of the two generator work lists.
spec fn covered(conn: Seq<u32>, unc: Seq<u32>, v: int) -> bool {
    (exists|i: int| 0 <= i < conn.len() && (#[trigger] conn[i]) as int == v) || (exists|i: int|
        0 <= i < unc.len() && (#[trigger] unc[i]) as int == v)
}

/// How a generated edge gets its weight.
enum WeightMode {
    /// A weight drawn uniformly below `MAX_WEIGHT + 1`.
    Uniform,
    /// The straight-line distance between the endpoints, rounded up.
    Straight,
    /// The taxicab distance between the endpoints.
    Taxicab,
}

/// The first `n` rows of an all-empty adjacency table hold no half-edges.
proof fn lemma_half_edges_empty(s: Seq<Vec<(u32, u64)>>, n: int)
    requires
        0 <= n <= s.len(),
        forall|v: int| 0 <= v < s.len() ==> (#[trigger] s[v])@.len() == 0,
    ensures
        half_edges_prefix(s, n) == 0,
    decreases n,
{
    if n > 0 {
        lemma_half_edges_empty(s, n - 1);
    }
}

/// How many random draws a generator spends hunting for a still-free vertex
/// pair before giving up.
pub const RETRY_BUDGET: u64 = 0xFFFF_FFFF_FFFF_FFFF;

/// The weight of a generated edge under the chosen mode.
fn generated_weight(mode: &WeightMode, positions: &Vec<(u32, u32)>, a: u32, b: u32) -> (r: u64)
    requires
        !(mode is Uniform) ==> (a as int) < positions@.len() && (b as int) < positions@.len()
            && positions_ok(positions@),
    ensures
        r <= MAX_WEIGHT,
        mode is Straight ==> straight_weight(positions@[a as int], positions@[b as int], r),
        mode is Taxicab ==> taxicab_weight(positions@[a as int], positions@[b as int], r),
{
    match mode {
        WeightMode::Uniform => crate::rng::rand_below(MAX_WEIGHT + 1),
        WeightMode::Straight => crate::geometry::euclid_ceil(
            positions[a as usize],
            positions[b as usize],
        ),
        WeightMode::Taxicab => crate::geometry::taxicab_dist(
            positions[a as usize],
            positions[b as usize],
        ),
    }
}

/// Every stored edge weight stands in the mode's relation to the endpoints'
/// positions.
spec fn weights_match_mode(
    mode: WeightMode,
    s: Seq<Vec<(u32, u64)>>,
    ps: Seq<(u32, u32)>,
) -> bool {
    !(mode is Uniform) ==> forall|x: u32, y: u32|
        (#[trigger] edge_opt_of(s, x, y)) matches Some(wv) ==> ((x as int) < ps.len() && (
        y as int) < ps.len() && (mode is Straight ==> straight_weight(
            ps[x as int],
            ps[y as int],
            wv,
        )) && (mode is Taxicab ==> taxicab_weight(ps[x as int], ps[y as int], wv)))
}

impl Graph {
    /// Shared generator: builds a random spanning tree over all vertices
    /// (`vertices - 1` edges), then adds further duplicate-free random edges
    /// until exactly `edge_count` edges are stored.
    #[verifier::rlimit(100)]
    fn random_graph(vertices: u32, edge_count: u32, mode: WeightMode) -> (r: Result<
        Graph,
        GraphError,
    >)
        ensures
            match r {
                Ok(g) => {
                    &&& g.wf()
                    &&& g.vc() == vertices as int
                    &&& g.spec_positions().len() == (if mode is Uniform {
                        0int
                    } else {
                        vertices as int
                    })
                    &&& g.spec_half_edges() == 2 * (edge_count as int)
                    &&& forall|v: u32| (v as int) < g.vc() ==> connected_to(g, 0u32, v)
                    &&& positions_ok(g.spec_positions())
                    &&& (mode is Straight ==> forall|a: u32, b: u32|
                        #[trigger] g.spec_has_edge(a, b) ==> (a as int) < g.spec_positions().len()
                            && (b as int) < g.spec_positions().len() && straight_weight(
                            g.spec_positions()[a as int],
                            g.spec_positions()[b as int],
                            g.spec_edge_weight(a, b),
                        ))
                    &&& (mode is Taxicab ==> forall|a: u32, b: u32|
                        #[trigger] g.spec_has_edge(a, b) ==> (a as int) < g.spec_positions().len()
                            && (b as int) < g.spec_positions().len() && taxicab_weight(
                            g.spec_positions()[a as int],
                            g.spec_positions()[b as int],
                            g.spec_edge_weight(a, b),
                        ))
                },
                Err(e) => {
                    ||| (e == GraphError::TooFewEdges && edge_count < vertices)
                    ||| (e == GraphError::EmptyGraph && vertices == 0 && edge_count > 0)
                    ||| (e == GraphError::RetriesExhausted && vertices > 0 && edge_count
                        >= vertices)
                },
            },
            edge_count < vertices ==> r == Err::<Graph, GraphError>(GraphError::TooFewEdges),
            vertices == 0 && edge_count > 0 ==> r == Err::<Graph, GraphError>(GraphError::EmptyGraph),
    {
        if edge_count < vertices {
            return Err(GraphError::TooFewEdges);
        }
        if vertices == 0 {
            if edge_count > 0 {
                return Err(GraphError::EmptyGraph);
            }
            return Ok(Graph { edges: Vec::new(), vertices: Vec::new() });
        }
        let n = vertices as usize;
        let mut positions: Vec<(u32, u32)> = Vec::new();
        if !matches!(mode, WeightMode::Uniform) {
            while positions.len() < n
                invariant
                    positions@.len() <= n,
                    positions_ok(positions@),
                decreases n - positions@.len(),
            {
                let x = crate::rng::rand_below(POS_MAX as u64 + 1) as u32;
                let y = crate::rng::rand_below(POS_MAX as u64 + 1) as u32;
                positions.push((x, y));
            }
        }
        let ghost pos0 = positions@;
        let mut edges: Vec<Vec<(u32, u64)>> = Vec::new();
        while edges.len() < n
            invariant
                edges@.len() <= n,
                forall|v: int| 0 <= v < edges@.len() ==> (#[trigger] edges@[v])@.len() == 0,
            decreases n - edges@.len(),
        {
            edges.push(Vec::new());
        }
        proof {
            lemma_half_edges_empty(edges@, n as int);
        }
        let mut unconnected: Vec<u32> = Vec::new();
        let mut next_id: u32 = 1;
        while next_id < vertices
            invariant
                1 <= next_id <= vertices,
                unconnected@.len() == next_id as int - 1,
                forall|i: int| 0 <= i < unconnected@.len() ==> (#[trigger] unconnected@[i]) as int
                    == i + 1,
            decreases vertices - next_id,
        {
            unconnected.push(next_id);
            next_id = next_id + 1;
        }
        let mut connected: Vec<u32> = Vec::new();
        connected.push(0);
        proof {
            lemma_connected_single(Graph { edges, vertices: positions }, 0u32);
            assert forall|v: int| 0 <= v < n as int implies #[trigger] covered(
                connected@,
                unconnected@,
                v,
            ) by {
                if v == 0 {
                    assert(connected@[0] as int == 0);
                } else {
                    assert(unconnected@[v - 1] as int == v);
                }
            }
        }
        while unconnected.len() > 0
            invariant
                positions@ == pos0,
                !(mode is Uniform) ==> positions@.len() == n as int,
                positions_ok(positions@),
                edges@.len() == n,
                n == vertices as int,
                n <= 0x1_0000_0000,
                adj_distinct(edges@),
                adj_entries_ok(edges@),
                adj_symmetric(edges@),
                connected@.len() >= 1,
                connected@.len() + unconnected@.len() == n as int,
                forall|i: int| 0 <= i < connected@.len() ==> ((#[trigger] connected@[i]) as int)
                    < n as int,
                forall|i: int| 0 <= i < unconnected@.len() ==> ((#[trigger] unconnected@[i]) as int)
                    < n as int,
                forall|i: int, j: int|
                    0 <= i < unconnected@.len() && 0 <= j < unconnected@.len() && i != j ==> (
                    #[trigger] unconnected@[i]) != (#[trigger] unconnected@[j]),
                forall|i: int, j: int|
                    0 <= i < connected@.len() && 0 <= j < unconnected@.len() ==> (
                    #[trigger] connected@[i]) != (#[trigger] unconnected@[j]),
                forall|i: int|
                    0 <= i < unconnected@.len() ==> edges@[(#[trigger] unconnected@[i]) as int]@.len()
                        == 0,
                half_edges_prefix(edges@, n as int) == 2 * (n as int - 1 - unconnected@.len()),
                weights_match_mode(mode, edges@, pos0),
                forall|i: int|
                    0 <= i < connected@.len() ==> connected_to(
                        (Graph { edges, vertices: positions }),
                        0u32,
                        #[trigger] connected@[i],
                    ),
                forall|v: int| 0 <= v < n as int ==> #[trigger] covered(
                    connected@,
                    unconnected@,
                    v,
                ),
            decreases unconnected@.len(),
        {
            let ghost conn0 = connected@;
            let ghost unc0 = unconnected@;
            let ghost g0 = Graph { edges, vertices: positions };
            let pick = crate::rng::rand_below(unconnected.len() as u64) as usize;
            let next_vert = unconnected.remove(pick);
            let conn_pick = crate::rng::rand_below(connected.len() as u64) as usize;
            let connected_vert = connected[conn_pick];
            let w = generated_weight(&mode, &positions, next_vert, connected_vert);
            proof {
                assert(next_vert != connected_vert);
                assert(!has_key(edges@[next_vert as int]@, connected_vert));
            }
            add_edge_both(&mut edges, next_vert, connected_vert, w);
            connected.push(next_vert);
            proof {
                let g1 = Graph { edges, vertices: positions };
                assert forall|x: u32, y: u32| g0.spec_has_edge(x, y) implies #[trigger] g1.spec_has_edge(
                    x,
                    y,
                ) by {
                    if !((x == next_vert && y == connected_vert) || (x == connected_vert && y
                        == next_vert)) {
                        assert(edge_opt_of(edges@, x, y) == edge_opt_of(g0.edges@, x, y));
                    }
                }
                assert forall|i: int| 0 <= i < connected@.len() implies connected_to(
                    g1,
                    0u32,
                    #[trigger] connected@[i],
                ) by {
                    if i < conn0.len() {
                        lemma_connected_monotone(g0, g1, 0u32, conn0[i]);
                    } else {
                        lemma_connected_monotone(g0, g1, 0u32, connected_vert);
                        assert(g1.spec_has_edge(connected_vert, next_vert));
                        lemma_connected_step(g1, 0u32, connected_vert, next_vert);
                    }
                }
                assert(weights_match_mode(mode, edges@, pos0)) by {
                    if !(mode is Uniform) {
                        assert forall|x: u32, y: u32|
                            (#[trigger] edge_opt_of(edges@, x, y)) is Some implies ((x as int)
                            < pos0.len() && (y as int) < pos0.len() && (mode is Straight
                            ==> straight_weight(
                            pos0[x as int],
                            pos0[y as int],
                            edge_opt_of(edges@, x, y)->Some_0,
                        )) && (mode is Taxicab ==> taxicab_weight(
                            pos0[x as int],
                            pos0[y as int],
                            edge_opt_of(edges@, x, y)->Some_0,
                        ))) by {
                            if (x == next_vert && y == connected_vert) || (x == connected_vert && y
                                == next_vert) {
                                lemma_dist_symmetric(
                                    pos0[next_vert as int],
                                    pos0[connected_vert as int],
                                );
                            } else {
                                assert(edge_opt_of(edges@, x, y) == edge_opt_of(g0.edges@, x, y));
                            }
                        }
                    }
                }
                assert forall|v: int| 0 <= v < n as int implies #[trigger] covered(
                    connected@,
                    unconnected@,
                    v,
                ) by {
                    assert(covered(conn0, unc0, v));
                    if exists|i: int| 0 <= i < conn0.len() && (#[trigger] conn0[i]) as int == v {
                        let i = choose|i: int|
                            0 <= i < conn0.len() && (#[trigger] conn0[i]) as int == v;
                        assert(connected@[i] as int == v);
                    } else {
                        let j = choose|j: int|
                            0 <= j < unc0.len() && (#[trigger] unc0[j]) as int == v;
                        if j == pick as int {
                            assert(connected@[connected@.len() - 1] as int == v);
                        } else if j < pick as int {
                            assert(unconnected@[j] as int == v);
                        } else {
                            assert(unconnected@[j - 1] as int == v);
                        }
                    }
                }
            }
        }
        let ghost gtree = Graph { edges, vertices: positions };
        proof {
            assert forall|v: u32| (v as int) < n as int implies connected_to(gtree, 0u32, v) by {
                assert(covered(connected@, unconnected@, v as int));
                let i = choose|i: int|
                    0 <= i < connected@.len() && (#[trigger] connected@[i]) as int == v as int;
                assert(connected@[i] == v);
            }
        }
        let extras = edge_count - vertices + 1;
        let mut remaining = extras;
        let mut attempts: u64 = RETRY_BUDGET;
        while remaining > 0
            invariant
                positions@ == pos0,
                !(mode is Uniform) ==> positions@.len() == n as int,
                positions_ok(positions@),
                edges@.len() == n,
                n == vertices as int,
                n <= 0x1_0000_0000,
                vertices > 0,
                extras == edge_count - vertices + 1,
                edge_count >= vertices,
                adj_distinct(edges@),
                adj_entries_ok(edges@),
                adj_symmetric(edges@),
                half_edges_prefix(edges@, n as int) == 2 * (n as int - 1 + extras as int
                    - remaining as int),
                remaining <= extras,
                weights_match_mode(mode, edges@, pos0),
                forall|v: u32| (v as int) < n as int ==> connected_to(
                    (Graph { edges, vertices: positions }),
                    0u32,
                    v,
                ),
            decreases remaining, attempts,
        {
            let a = crate::rng::rand_below(vertices as u64) as u32;
            let b = crate::rng::rand_below(vertices as u64) as u32;
            if a != b && row_get(&edges[a as usize], b).is_none() {
                let ghost g0 = Graph { edges, vertices: positions };
                let w = generated_weight(&mode, &positions, a, b);
                add_edge_both(&mut edges, a, b, w);
                remaining = remaining - 1;
                attempts = RETRY_BUDGET;
                proof {
                    let g1 = Graph { edges, vertices: positions };
                    assert forall|x: u32, y: u32| g0.spec_has_edge(x, y) implies #[trigger] g1.spec_has_edge(
                        x,
                        y,
                    ) by {
                        if !((x == a && y == b) || (x == b && y == a)) {
                            assert(edge_opt_of(edges@, x, y) == edge_opt_of(g0.edges@, x, y));
                        }
                    }
                    assert forall|v: u32| (v as int) < n as int implies connected_to(
                        g1,
                        0u32,
                        v,
                    ) by {
                        lemma_connected_monotone(g0, g1, 0u32, v);
                    }
                    assert(weights_match_mode(mode, edges@, pos0)) by {
                        if !(mode is Uniform) {
                            assert forall|x: u32, y: u32|
                                (#[trigger] edge_opt_of(edges@, x, y)) is Some implies ((x as int)
                                < pos0.len() && (y as int) < pos0.len() && (mode is Straight
                                ==> straight_weight(
                                pos0[x as int],
                                pos0[y as int],
                                edge_opt_of(edges@, x, y)->Some_0,
                            )) && (mode is Taxicab ==> taxicab_weight(
                                pos0[x as int],
                                pos0[y as int],
                                edge_opt_of(edges@, x, y)->Some_0,
                            ))) by {
                                if (x == a && y == b) || (x == b && y == a) {
                                    lemma_dist_symmetric(pos0[a as int], pos0[b as int]);
                                } else {
                                    assert(edge_opt_of(edges@, x, y) == edge_opt_of(
                                        g0.edges@,
                                        x,
                                        y,
                                    ));
                                }
                            }
                        }
                    }
                }
            } else {
                if attempts == 0 {
                    return Err(GraphError::RetriesExhausted);
                }
                attempts = attempts - 1;
            }
        }
        let g = Graph { edges, vertices: positions };
        proof {
            if !(mode is Uniform) {
                assert forall|a: u32, b: u32| #[trigger] g.spec_has_edge(a, b) implies ((a as int)
                    < g.spec_positions().len() && (b as int) < g.spec_positions().len() && (
                mode is Straight ==> straight_weight(
                    g.spec_positions()[a as int],
                    g.spec_positions()[b as int],
                    g.spec_edge_weight(a, b),
                )) && (mode is Taxicab ==> taxicab_weight(
                    g.spec_positions()[a as int],
                    g.spec_positions()[b as int],
                    g.spec_edge_weight(a, b),
                ))) by {
                    assert(edge_opt_of(g.edges@, a, b) is Some);
                    assert(edge_opt_of(g.edges@, a, b)->Some_0 == g.spec_edge_weight(a, b));
                }
            }
        }
        return Ok(g);
    }

    /// Builds a connected random graph: a random spanning tree over
    /// `vertices` vertices with uniformly drawn weights, padded with further
    /// duplicate-free random edges. Positions are not stored.
    pub fn new_random(vertices: u32, edge_count: u32) -> (r: Result<Graph, GraphError>)
        ensures
            match r {
                Ok(g) => {
                    &&& g.wf()
                    &&& g.vc() == vertices as int
                    &&& g.spec_positions().len() == 0
                    &&& g.spec_half_edges() == 2 * (edge_count as int)
                    &&& forall|v: u32| (v as int) < g.vc() ==> connected_to(g, 0u32, v)
                },
                Err(e) => {
                    ||| (e == GraphError::TooFewEdges && edge_count < vertices)
                    ||| (e == GraphError::EmptyGraph && vertices == 0 && edge_count > 0)
                    ||| (e == GraphError::RetriesExhausted && vertices > 0 && edge_count
                        >= vertices)
                },
            },
            edge_count < vertices ==> r == Err::<Graph, GraphError>(GraphError::TooFewEdges),
            vertices == 0 && edge_count > 0 ==> r == Err::<Graph, GraphError>(
                GraphError::EmptyGraph,
            ),
    {
        Self::random_graph(vertices, edge_count, WeightMode::Uniform)
    }

    /// Builds a connected random graph embedded in the plane: every vertex
    /// gets a random position, and each edge weighs the straight-line
    /// distance between its endpoints, rounded up.
    pub fn new_random_2d(vertices: u32, edge_count: u32) -> (r: Result<Graph, GraphError>)
        ensures
            match r {
                Ok(g) => {
                    &&& g.wf()
                    &&& g.vc() == vertices as int
                    &&& g.spec_positions().len() == vertices as int
                    &&& g.spec_half_edges() == 2 * (edge_count as int)
                    &&& forall|v: u32| (v as int) < g.vc() ==> connected_to(g, 0u32, v)
                    &&& positions_ok(g.spec_positions())
                    &&& forall|a: u32, b: u32|
                        #[trigger] g.spec_has_edge(a, b) ==> (a as int) < g.spec_positions().len()
                            && (b as int) < g.spec_positions().len() && straight_weight(
                            g.spec_positions()[a as int],
                            g.spec_positions()[b as int],
                            g.spec_edge_weight(a, b),
                        )
                },
                Err(e) => {
                    ||| (e == GraphError::TooFewEdges && edge_count < vertices)
                    ||| (e == GraphError::EmptyGraph && vertices == 0 && edge_count > 0)
                    ||| (e == GraphError::RetriesExhausted && vertices > 0 && edge_count
                        >= vertices)
                },
            },
            edge_count < vertices ==> r == Err::<Graph, GraphError>(GraphError::TooFewEdges),
            vertices == 0 && edge_count > 0 ==> r == Err::<Graph, GraphError>(
                GraphError::EmptyGraph,
            ),
    {
        Self::random_graph(vertices, edge_count, WeightMode::Straight)
    }

    /// As `new_random_2d`, but each edge weighs the taxicab distance between
    /// its endpoints.
    pub fn new_random_2d_taxicab(vertices: u32, edge_count: u32) -> (r: Result<Graph, GraphError>)
        ensures
            match r {
                Ok(g) => {
                    &&& g.wf()
                    &&& g.vc() == vertices as int
                    &&& g.spec_positions().len() == vertices as int
                    &&& g.spec_half_edges() == 2 * (edge_count as int)
                    &&& forall|v: u32| (v as int) < g.vc() ==> connected_to(g, 0u32, v)
                    &&& positions_ok(g.spec_positions())
                    &&& forall|a: u32, b: u32|
                        #[trigger] g.spec_has_edge(a, b) ==> (a as int) < g.spec_positions().len()
                            && (b as int) < g.spec_positions().len() && taxicab_weight(
                            g.spec_positions()[a as int],
                            g.spec_positions()[b as int],
                            g.spec_edge_weight(a, b),
                        )
                },
                Err(e) => {
                    ||| (e == GraphError::TooFewEdges && edge_count < vertices)
                    ||| (e == GraphError::EmptyGraph && vertices == 0 && edge_count > 0)
                    ||| (e == GraphError::RetriesExhausted && vertices > 0 && edge_count
                        >= vertices)
                },
            },
            edge_count < vertices ==> r == Err::<Graph, GraphError>(GraphError::TooFewEdges),
            vertices == 0 && edge_count > 0 ==> r == Err::<Graph, GraphError>(
                GraphError::EmptyGraph,
            ),
    {
        Self::random_graph(vertices, edge_count, WeightMode::Taxicab)
    }
}

/// No graph ever stores a self-loop, and the missing-edge convention then
/// reads its weight as zero.
pub proof fn lemma_no_self_loop(g: Graph, v: u32)
    requires
        g.wf(),
    ensures
        !g.spec_has_edge(v, v),
        g.spec_edge_weight(v, v) == 0,
{
    if g.spec_has_edge(v, v) {
        let i = choose|i: int| 0 <= i < g.row(v as int).len() && (#[trigger] g.row(v as int)[i]).0
            == v;
        assert(g.edges@[v as int]@[i].0 != v);
    }
}

/// Edges are unordered: both directions are stored together and carry one
/// weight.
pub proof fn lemma_edge_symmetry(g: Graph, a: u32, b: u32)
    requires
        g.wf(),
    ensures
        g.spec_has_edge(a, b) == g.spec_has_edge(b, a),
        g.spec_has_edge(a, b) ==> g.spec_edge_weight(a, b) == g.spec_edge_weight(b, a),
{
    if g.spec_has_edge(a, b) {
        assert(has_key(g.edges@[b as int]@, a));
    }
    if g.spec_has_edge(b, a) {
        assert(has_key(g.edges@[a as int]@, b));
    }
}

/// The three edge views agree: an edge is stored exactly when the optional
/// weight is `Some`, the two weight readings then coincide, and a missing
/// edge reads as weight zero.
pub proof fn lemma_edge_views(g: Graph, a: u32, b: u32)
    ensures
        g.spec_has_edge(a, b) == (g.spec_edge_opt(a, b) is Some),
        g.spec_has_edge(a, b) ==> g.spec_edge_opt(a, b) == Some(g.spec_edge_weight(a, b)),
        !g.spec_has_edge(a, b) ==> g.spec_edge_weight(a, b) == 0,
{
}

} // verus!
