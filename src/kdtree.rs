use vstd::prelude::*;

use crate::edge::{
    count_kind, edge_le, is_sorted, spec_sort, lemma_count_prefix_le,
    lemma_count_prefix_step, sort_edges, BoundEdge, EdgeType,
};
use vstd::arithmetic::power2::{lemma2_to64, lemma2_to64_rest, lemma_pow2_unfold, pow2};

use crate::geometry::{min_int, union_hi, union_lo, Bounds3i, COORD_LIMIT};

verus! {

/// Most primitives a tree may be built over; with coordinates on the grid it
/// keeps every scaled cost inside `u128`.
pub const MAX_PRIMITIVES: usize = 0x3fff_ffff;

/// Every scaled cost lies below this bound.
pub const COST_CAP: u128 = 0x0200_0000_0000_0000_0000_0000_0000_0000;

/// The empty bonus is given in thousandths: 500 stands for one half.
pub const BONUS_SCALE: u32 = 1000;

/// A node of the tree. An interior node keeps its split and the index of its
/// above child; its below child is the next node. A leaf keeps the indices of
/// the primitives that overlap it.
pub struct KdAccelNode {
    pub is_leaf: bool,
    pub split_axis: usize,
    pub split_pos: i32,
    pub above_child: usize,
    pub prim_indices: Vec<usize>,
}

/// A k-d tree over the bounding boxes of a set of primitives, built once by
/// `new` and read afterwards.
pub struct KdTreeAccel {
    pub isect_cost: i32,
    pub traversal_cost: i32,
    pub max_prims: i32,
    /// In thousandths, see `BONUS_SCALE`.
    pub empty_bonus: u32,
    /// Depth that no leaf exceeds; the root is at depth 0.
    pub max_depth: u32,
    pub primitives: Vec<Bounds3i>,
    pub nodes: Vec<KdAccelNode>,
    pub bounds: Bounds3i,
}

/// A cost parameter below zero counts as zero.
pub open spec fn clamp_cost(c: i32) -> int {
    if c < 0 {
        0
    } else {
        c as int
    }
}

/// An empty bonus above one counts as one.
pub open spec fn clamp_bonus(eb: u32) -> int {
    if eb > BONUS_SCALE {
        BONUS_SCALE as int
    } else {
        eb as int
    }
}

/// Surface area of the part of `b` below `t` on `axis`.
pub open spec fn below_area(b: Bounds3i, axis: int, t: int) -> int {
    let d0 = b.extent((axis + 1) % 3);
    let d1 = b.extent((axis + 2) % 3);
    2 * (d0 * d1 + (t - b.lo(axis)) * (d0 + d1))
}

/// Surface area of the part of `b` above `t` on `axis`.
pub open spec fn above_area(b: Bounds3i, axis: int, t: int) -> int {
    let d0 = b.extent((axis + 1) % 3);
    let d1 = b.extent((axis + 2) % 3);
    2 * (d0 * d1 + (b.hi(axis) - t) * (d0 + d1))
}

/// Edge `k` of the sweep lies strictly inside the node on the split axis.
pub open spec fn is_candidate(b: Bounds3i, axis: int, s: Seq<BoundEdge>, k: int) -> bool {
    b.lo(axis) < s[k].t < b.hi(axis)
}

/// Primitives that start before edge `k` of the sorted sweep.
pub open spec fn below_count(s: Seq<BoundEdge>, k: int) -> int {
    count_kind(s.take(k), EdgeType::Start) as int
}

/// Primitives that have not ended by edge `k` of the sorted sweep.
pub open spec fn above_count(s: Seq<BoundEdge>, k: int, n: int) -> int {
    n - count_kind(s.take(k + 1), EdgeType::End)
}

/// The two edges that primitive `p` of `all` has on `axis`.
pub open spec fn start_edge(all: Seq<Bounds3i>, p: usize, axis: int) -> BoundEdge {
    BoundEdge { t: all[p as int].p_min@[axis], prim_num: p, edge_type: EdgeType::Start }
}

pub open spec fn end_edge(all: Seq<Bounds3i>, p: usize, axis: int) -> BoundEdge {
    BoundEdge { t: all[p as int].p_max@[axis], prim_num: p, edge_type: EdgeType::End }
}

/// The edges of the primitives `prims` on `axis`: two per primitive, and
/// nothing else.
pub open spec fn edges_of(
    s: Seq<BoundEdge>,
    all: Seq<Bounds3i>,
    prims: Seq<usize>,
    axis: int,
) -> bool {
    &&& s.len() == 2 * prims.len()
    &&& count_kind(s, EdgeType::Start) == prims.len()
    &&& count_kind(s, EdgeType::End) == prims.len()
    &&& forall|k: int|
        0 <= k < prims.len() ==> s.contains(#[trigger] start_edge(all, prims[k], axis)) && s.contains(
            end_edge(all, prims[k], axis),
        )
    &&& forall|e: BoundEdge|
        #[trigger] s.contains(e) ==> prims.contains(e.prim_num) && (e == start_edge(
            all,
            e.prim_num,
            axis,
        ) || e == end_edge(all, e.prim_num, axis))
}

/// The edges of `prims` on `axis` before sorting: the start and the end edge
/// of each primitive in turn.
pub open spec fn raw_edges(all: Seq<Bounds3i>, prims: Seq<usize>, axis: int) -> Seq<BoundEdge> {
    Seq::new(
        (2 * prims.len()) as nat,
        |k: int|
            if k % 2 == 0 {
                start_edge(all, prims[k / 2], axis)
            } else {
                end_edge(all, prims[k / 2], axis)
            },
    )
}

/// The sorted edges of `prims` on `axis`, in the order they are swept.
pub open spec fn sweep_edges(all: Seq<Bounds3i>, prims: Seq<usize>, axis: int) -> Seq<BoundEdge> {
    spec_sort(raw_edges(all, prims, axis))
}

pub open spec fn best_view(best: Option<(usize, u128)>) -> Option<(int, int)> {
    match best {
        None => None,
        Some((off, c)) => Some((off as int, c as int)),
    }
}

pub open spec fn cost_view(best: Option<u128>) -> Option<int> {
    match best {
        None => None,
        Some(c) => Some(c as int),
    }
}

pub open spec fn all_well_formed(all: Seq<Bounds3i>) -> bool {
    forall|q: int| 0 <= q < all.len() ==> (#[trigger] all[q]).well_formed()
}

pub open spec fn indices_below(prims: Seq<usize>, n: int) -> bool {
    forall|k: int| 0 <= k < prims.len() ==> (#[trigger] prims[k] as int) < n
}

/// The nodes `i .. end` form one subtree rooted at `i` in which no leaf lies
/// more than `depth` levels below `i`.
pub open spec fn subtree_ok(nodes: Seq<KdAccelNode>, i: int, end: int, depth: nat) -> bool
    decreases depth,
{
    &&& 0 <= i < end <= nodes.len()
    &&& if nodes[i].is_leaf {
        end == i + 1
    } else if depth == 0 {
        false
    } else {
        let a = nodes[i].above_child as int;
        &&& nodes[i].split_axis < 3
        &&& i + 1 < a < end
        &&& subtree_ok(nodes, i + 1, a, (depth - 1) as nat)
        &&& subtree_ok(nodes, a, end, (depth - 1) as nat)
    }
}

/// Two nodes of the same kind with the same content: the split and the
/// above child of an interior node, the primitives of a leaf.
pub open spec fn same_node(x: KdAccelNode, y: KdAccelNode) -> bool {
    &&& x.is_leaf == y.is_leaf
    &&& x.is_leaf ==> x.prim_indices@ == y.prim_indices@
    &&& !x.is_leaf ==> x.split_axis == y.split_axis && x.split_pos == y.split_pos
        && x.above_child == y.above_child
}

/// Some leaf among the nodes `lo .. hi` holds primitive `p`.
pub open spec fn leaf_holds(nodes: Seq<KdAccelNode>, lo: int, hi: int, p: usize) -> bool {
    exists|j: int|
        lo <= j < hi && (#[trigger] nodes[j]).is_leaf && nodes[j].prim_indices@.contains(p)
}

/// Each primitive of `prims` is held by a leaf among the nodes from `lo` on.
pub open spec fn leaf_holds_all(nodes: Seq<KdAccelNode>, lo: int, prims: Seq<usize>) -> bool {
    forall|p: usize| prims.contains(p) ==> leaf_holds(nodes, lo, nodes.len() as int, p)
}

/// A node that holds one primitive and is exactly its box.
pub open spec fn single_box(b: Bounds3i, all: Seq<Bounds3i>, prims: Seq<usize>) -> bool {
    prims.len() == 1 && b.same_box(all[prims[0] as int])
}

/// A node that is exactly the box of its one primitive has no edge strictly
/// inside it.
proof fn lemma_single_no_candidate(
    s: Seq<BoundEdge>,
    all: Seq<Bounds3i>,
    prims: Seq<usize>,
    b: Bounds3i,
    axis: int,
)
    requires
        edges_of(s, all, prims, axis),
        single_box(b, all, prims),
        0 <= axis < 3,
    ensures
        forall|k: int| 0 <= k < s.len() ==> !#[trigger] is_candidate(b, axis, s, k),
{
    assert forall|k: int| 0 <= k < s.len() implies !#[trigger] is_candidate(b, axis, s, k) by {
        assert(s.contains(s[k]));
        assert(prims.contains(s[k].prim_num));
        let w = choose|w: int| 0 <= w < prims.len() && prims[w] == s[k].prim_num;
        assert(w == 0);
        assert(b.lo(axis) == all[prims[0] as int].lo(axis));
    }
}

proof fn lemma_leaf_holds_all(nodes: Seq<KdAccelNode>, i: int, prims: Seq<usize>)
    requires
        0 <= i < nodes.len(),
        nodes[i].is_leaf,
        nodes[i].prim_indices@ == prims,
    ensures
        leaf_holds_all(nodes, i, prims),
{
    assert forall|p: usize| prims.contains(p) implies leaf_holds(nodes, i, nodes.len() as int, p) by {
        assert(nodes[i].prim_indices@.contains(p));
    }
}

/// Every leaf among the nodes `lo .. hi` holds indices below `n` only.
pub open spec fn leaves_index_below(nodes: Seq<KdAccelNode>, lo: int, hi: int, n: int) -> bool {
    forall|j: int|
        lo <= j < hi && (#[trigger] nodes[j]).is_leaf ==> indices_below(nodes[j].prim_indices@, n)
}

/// A subtree reads only its own nodes.
pub proof fn lemma_subtree_frame(
    a: Seq<KdAccelNode>,
    b: Seq<KdAccelNode>,
    i: int,
    end: int,
    depth: nat,
)
    requires
        subtree_ok(a, i, end, depth),
        end <= b.len(),
        forall|k: int| i <= k < end ==> b[k] == a[k],
    ensures
        subtree_ok(b, i, end, depth),
    decreases depth,
{
    if !a[i].is_leaf {
        let m = a[i].above_child as int;
        lemma_subtree_frame(a, b, i + 1, m, (depth - 1) as nat);
        lemma_subtree_frame(a, b, m, end, (depth - 1) as nat);
    }
}

/// Bad refines counted after a node whose best split costs `best`, against
/// `old_cost` for a leaf; no split at all counts as a worse one.
pub open spec fn next_bad_refines(best: Option<int>, old_cost: int, bad_refines: int) -> int {
    match best {
        None => bad_refines + 1,
        Some(c) => bad_refines + (if c > old_cost { 1int } else { 0int }),
    }
}

/// Whether a node with `n` primitives is made a leaf after its split search:
/// no split was found, or the best one is over four times the cost of a leaf
/// and the node is small, or the bad refines have reached three.
pub open spec fn forces_leaf(best: Option<int>, old_cost: int, n: int, bad_refines: int) -> bool {
    match best {
        None => true,
        Some(c) => (c > 4 * old_cost && n < 16) || next_bad_refines(best, old_cost, bad_refines)
            == 3,
    }
}

/// Decides, after the split search, whether a node becomes a leaf, and
/// counts the bad refines its children inherit.
pub fn refine_verdict(best: Option<u128>, old_cost: u128, n: usize, bad_refines: u32) -> (r: (
    bool,
    u32,
))
    requires
        old_cost < COST_CAP,
        bad_refines < 3,
    ensures
        r.0 == forces_leaf(cost_view(best), old_cost as int, n as int, bad_refines as int),
        r.1 as int == next_bad_refines(cost_view(best), old_cost as int, bad_refines as int),
        !r.0 ==> r.1 < 3,
{
    match best {
        None => (true, bad_refines + 1),
        Some(c) => {
            let bad = if c > old_cost {
                bad_refines + 1
            } else {
                bad_refines
            };
            ((c > 4 * old_cost && n < 16) || bad == 3, bad)
        },
    }
}

/// A leaf holding a copy of `prim_nums`.
fn make_leaf(prim_nums: &Vec<usize>) -> (r: KdAccelNode)
    ensures
        r.is_leaf,
        r.prim_indices@ == prim_nums@,
{
    let mut prims: Vec<usize> = Vec::new();
    let mut i: usize = 0;
    while i < prim_nums.len()
        invariant
            i <= prim_nums.len(),
            prims@ == prim_nums@.take(i as int),
        decreases prim_nums.len() - i,
    {
        prims.push(prim_nums[i]);
        i = i + 1;
        proof {
            assert(prims@ =~= prim_nums@.take(i as int));
        }
    }
    proof {
        assert(prim_nums@.take(i as int) =~= prim_nums@);
    }
    KdAccelNode { is_leaf: true, split_axis: 0, split_pos: 0, above_child: 0, prim_indices: prims }
}

/// The surface area of `b`.
fn box_area(b: &Bounds3i) -> (r: u128)
    requires
        b.well_formed(),
    ensures
        r as int == b.surface_area(),
        r <= AREA_BOUND,
{
    let d0 = extent_of(b, 0);
    let d1 = extent_of(b, 1);
    let d2 = extent_of(b, 2);
    proof {
        lemma_mul_le(d0 as int, d1 as int, 2097152, 2097152);
        lemma_mul_le(d1 as int, d2 as int, 2097152, 2097152);
        lemma_mul_le(d2 as int, d0 as int, 2097152, 2097152);
    }
    2 * (d0 * d1 + d1 * d2 + d2 * d0)
}

/// In order, the primitives of the start edges among the first `k` edges of
/// `s`.
pub open spec fn starts_before(s: Seq<BoundEdge>, k: int) -> Seq<usize>
    decreases k,
{
    if k <= 0 {
        Seq::empty()
    } else if s[k - 1].edge_type == EdgeType::Start {
        starts_before(s, k - 1).push(s[k - 1].prim_num)
    } else {
        starts_before(s, k - 1)
    }
}

/// In order, the primitives of the end edges of `s` from edge `lo` up to,
/// not including, edge `k`.
pub open spec fn ends_between(s: Seq<BoundEdge>, lo: int, k: int) -> Seq<usize>
    decreases k - lo,
{
    if k <= lo {
        Seq::empty()
    } else if s[k - 1].edge_type == EdgeType::End {
        ends_between(s, lo, k - 1).push(s[k - 1].prim_num)
    } else {
        ends_between(s, lo, k - 1)
    }
}

/// The primitives whose start edge comes before edge `off` of the sweep.
fn classify_below(edges: &Vec<BoundEdge>, off: usize) -> (r: Vec<usize>)
    requires
        off <= edges@.len(),
    ensures
        r@ == starts_before(edges@, off as int),
        r@.len() == count_kind(edges@.take(off as int), EdgeType::Start),
        forall|j: int|
            0 <= j < off && (#[trigger] edges@[j]).edge_type == EdgeType::Start ==> r@.contains(
                edges@[j].prim_num,
            ),
        forall|q: usize| r@.contains(q) ==> exists|j: int| 0 <= j < edges@.len() && (#[trigger] edges@[j]).prim_num == q,
{
    let mut r: Vec<usize> = Vec::new();
    let mut i: usize = 0;
    while i < off
        invariant
            i <= off <= edges@.len(),
            r@ == starts_before(edges@, i as int),
            r@.len() == count_kind(edges@.take(i as int), EdgeType::Start),
            forall|j: int|
                0 <= j < i && (#[trigger] edges@[j]).edge_type == EdgeType::Start ==> r@.contains(
                    edges@[j].prim_num,
                ),
            forall|q: usize| r@.contains(q) ==> exists|j: int| 0 <= j < edges@.len() && (#[trigger] edges@[j]).prim_num == q,
        decreases off - i,
    {
        proof {
            lemma_count_prefix_step(edges@, i as int, EdgeType::Start);
        }
        if edges[i].edge_type == EdgeType::Start {
            let ghost before = r@;
            r.push(edges[i].prim_num);
            proof {
                assert(r@[before.len() as int] == edges@[i as int].prim_num);
                assert forall|q: usize| r@.contains(q) implies exists|j: int| 0 <= j < edges@.len() && (#[trigger] edges@[j]).prim_num == q by {
                    let w = choose|w: int| 0 <= w < r@.len() && r@[w] == q;
                    if w < before.len() {
                        assert(before[w] == q);
                        assert(before.contains(q));
                    } else {
                        assert(edges@[i as int].prim_num == q);
                    }
                }
                assert forall|j: int| 0 <= j < i + 1 && (#[trigger] edges@[j]).edge_type == EdgeType::Start implies r@.contains(edges@[j].prim_num) by {
                    if j < i {
                        let w = choose|w: int| 0 <= w < before.len() && before[w] == edges@[j].prim_num;
                        assert(r@[w] == edges@[j].prim_num);
                    }
                }
            }
        }
        i = i + 1;
    }
    r
}

/// The primitives whose end edge comes after edge `off` of the sweep.
fn classify_above(edges: &Vec<BoundEdge>, off: usize) -> (r: Vec<usize>)
    requires
        off < edges@.len() <= 2 * MAX_PRIMITIVES,
    ensures
        r@ == ends_between(edges@, off + 1, edges@.len() as int),
        r@.len() + count_kind(edges@.take(off + 1), EdgeType::End) == count_kind(edges@, EdgeType::End),
        forall|j: int|
            off < j < edges@.len() && (#[trigger] edges@[j]).edge_type == EdgeType::End ==> r@.contains(
                edges@[j].prim_num,
            ),
        forall|q: usize| r@.contains(q) ==> exists|j: int| 0 <= j < edges@.len() && (#[trigger] edges@[j]).prim_num == q,
{
    let mut r: Vec<usize> = Vec::new();
    let mut i: usize = off + 1;
    while i < edges.len()
        invariant
            off < i <= edges@.len(),
            r@ == ends_between(edges@, off + 1, i as int),
            r@.len() + count_kind(edges@.take(off + 1), EdgeType::End) == count_kind(edges@.take(i as int), EdgeType::End),
            forall|j: int|
                off < j < i && (#[trigger] edges@[j]).edge_type == EdgeType::End ==> r@.contains(
                    edges@[j].prim_num,
                ),
            forall|q: usize| r@.contains(q) ==> exists|j: int| 0 <= j < edges@.len() && (#[trigger] edges@[j]).prim_num == q,
        decreases edges@.len() - i,
    {
        proof {
            lemma_count_prefix_step(edges@, i as int, EdgeType::End);
        }
        if edges[i].edge_type == EdgeType::End {
            let ghost before = r@;
            r.push(edges[i].prim_num);
            proof {
                assert(r@[before.len() as int] == edges@[i as int].prim_num);
                assert forall|q: usize| r@.contains(q) implies exists|j: int| 0 <= j < edges@.len() && (#[trigger] edges@[j]).prim_num == q by {
                    let w = choose|w: int| 0 <= w < r@.len() && r@[w] == q;
                    if w < before.len() {
                        assert(before[w] == q);
                        assert(before.contains(q));
                    } else {
                        assert(edges@[i as int].prim_num == q);
                    }
                }
                assert forall|j: int| off < j < i + 1 && (#[trigger] edges@[j]).edge_type == EdgeType::End implies r@.contains(edges@[j].prim_num) by {
                    if j < i {
                        let w = choose|w: int| 0 <= w < before.len() && before[w] == edges@[j].prim_num;
                        assert(r@[w] == edges@[j].prim_num);
                    }
                }
            }
        }
        i = i + 1;
    }
    proof {
        assert(edges@.take(i as int) =~= edges@);
    }
    r
}

/// `floor(log2(n))`, taken as 0 for `n` = 0.
pub open spec fn floor_log2(n: nat) -> nat
    decreases n,
{
    if n <= 1 {
        0
    } else {
        1 + floor_log2(n / 2)
    }
}

/// `round(8 + 1.3 * floor(log2(n)))`, with halves rounded up.
pub open spec fn auto_max_depth(n: nat) -> int {
    (85 + 13 * floor_log2(n) as int) / 10
}

/// The depth limit a tree over `n` primitives is built with: `max_depth`
/// when it is positive, else the automatic one.
pub open spec fn resolved_max_depth(max_depth: i32, n: nat) -> int {
    if max_depth <= 0 {
        auto_max_depth(n)
    } else {
        max_depth as int
    }
}

/// Below `2^k` the logarithm stays below `k`.
proof fn lemma_floor_log2_below(n: nat, k: nat)
    requires
        1 <= k,
        n < pow2(k),
    ensures
        floor_log2(n) < k,
    decreases k,
{
    if n > 1 {
        lemma_pow2_unfold(k);
        lemma2_to64();
        if k == 1 {
            assert(pow2(1) == 2);
        } else {
            lemma_floor_log2_below(n / 2, (k - 1) as nat);
        }
    }
}

/// `floor(log2(n))`, and 0 for `n` = 0.
pub fn log2_int(n: usize) -> (r: u64)
    ensures
        r as int == floor_log2(n as nat),
        r <= n,
        r < 64,
{
    proof {
        lemma2_to64_rest();
        lemma_floor_log2_below(n as nat, 64);
    }
    let mut v: usize = n;
    let mut r: u64 = 0;
    while v > 1
        invariant
            r as int + floor_log2(v as nat) == floor_log2(n as nat),
            r + v <= n,
        decreases v,
    {
        v = v / 2;
        r = r + 1;
    }
    r
}

/// The depth limit for `n` primitives: `max_depth` when it is positive,
/// else `round(8 + 1.3 * floor(log2(n)))`.
pub fn max_depth_for(max_depth: i32, n: usize) -> (r: u32)
    ensures
        r as int == resolved_max_depth(max_depth, n as nat),
{
    if max_depth <= 0 {
        let k = log2_int(n);
        ((85 + 13 * k) / 10) as u32
    } else {
        max_depth as u32
    }
}

/// Tuning of a tree as a scene gives it; a parameter left out takes its
/// default.
pub struct KdTreeParams {
    pub intersect_cost: Option<i32>,
    pub traversal_cost: Option<i32>,
    /// In thousandths, see `BONUS_SCALE`.
    pub empty_bonus: Option<u32>,
    pub max_prims: Option<i32>,
    pub max_depth: Option<i32>,
}

pub open spec fn or_default<T>(o: Option<T>, d: T) -> T {
    match o {
        Some(v) => v,
        None => d,
    }
}

fn value_or<T>(o: Option<T>, d: T) -> (r: T)
    ensures
        r == or_default(o, d),
{
    match o {
        Some(v) => v,
        None => d,
    }
}

/// The edges of `prim_nums` on `axis`, unsorted: the start and the end edge
/// of each primitive in turn.
fn axis_edges(all_prim_bounds: &Vec<Bounds3i>, prim_nums: &Vec<usize>, axis: usize) -> (edges: Vec<BoundEdge>)
    requires
        axis < 3,
        prim_nums.len() <= MAX_PRIMITIVES,
        indices_below(prim_nums@, all_prim_bounds.len() as int),
    ensures
        edges@ == raw_edges(all_prim_bounds@, prim_nums@, axis as int),
        edges_of(edges@, all_prim_bounds@, prim_nums@, axis as int),
{
    let n = prim_nums.len();
    let ghost all = all_prim_bounds@;
    let ghost prims = prim_nums@;
    let mut edges: Vec<BoundEdge> = Vec::new();
    let mut i: usize = 0;
    while i < n
        invariant
            n == prims.len(),
            prims == prim_nums@,
            all == all_prim_bounds@,
            n <= MAX_PRIMITIVES,
            axis < 3,
            indices_below(prims, all.len() as int),
            i <= n,
            edges@.len() == 2 * i,
            count_kind(edges@, EdgeType::Start) == i,
            count_kind(edges@, EdgeType::End) == i,
            forall|k: int|
                0 <= k < i ==> edges@[2 * k] == #[trigger] start_edge(all, prims[k], axis as int)
                    && edges@[2 * k + 1] == end_edge(all, prims[k], axis as int),
            forall|j: int|
                0 <= j < edges@.len() ==> prims.subrange(0, i as int).contains(
                    #[trigger] edges@[j].prim_num,
                ) && (edges@[j] == start_edge(all, edges@[j].prim_num, axis as int)
                    || edges@[j] == end_edge(all, edges@[j].prim_num, axis as int)),
        decreases n - i,
    {
        let pn = prim_nums[i];
        let pb = &all_prim_bounds[pn];
        let ghost before = edges@;
        edges.push(BoundEdge::new(pb.p_min[axis], pn, true));
        edges.push(BoundEdge::new(pb.p_max[axis], pn, false));
        proof {
            assert(edges@.drop_last() =~= before.push(edges@[2 * i]));
            assert(before.push(edges@[2 * i]).drop_last() =~= before);
            assert(count_kind(before.push(edges@[2 * i]), EdgeType::Start) == i + 1);
            assert(count_kind(before.push(edges@[2 * i]), EdgeType::End) == i);
            assert(count_kind(edges@, EdgeType::Start) == i + 1);
            assert(count_kind(edges@, EdgeType::End) == i + 1);
            assert forall|j: int| 0 <= j < edges@.len() implies prims.subrange(
                0,
                i + 1,
            ).contains(#[trigger] edges@[j].prim_num) && (edges@[j] == start_edge(
                all,
                edges@[j].prim_num,
                axis as int,
            ) || edges@[j] == end_edge(all, edges@[j].prim_num, axis as int)) by {
                if j < 2 * i {
                    let w = choose|w: int|
                        0 <= w < i && prims.subrange(0, i as int)[w] == before[j].prim_num;
                    assert(prims.subrange(0, i + 1)[w] == before[j].prim_num);
                } else {
                    assert(prims.subrange(0, i + 1)[i as int] == pn);
                }
            }
        }
        i = i + 1;
    }
    proof {
        assert(edges@ =~= raw_edges(all, prims, axis as int)) by {
            assert forall|j: int| 0 <= j < 2 * n implies #[trigger] edges@[j] == raw_edges(all, prims, axis as int)[j] by {
                let k = j / 2;
                assert(0 <= k < n);
                assert(edges@[2 * k] == start_edge(all, prims[k], axis as int));
                if j % 2 == 0 {
                    assert(j == 2 * k);
                } else {
                    assert(j == 2 * k + 1);
                }
            }
        }
        assert(prims.subrange(0, n as int) =~= prims);
        assert forall|k: int| 0 <= k < n implies edges@.contains(
            #[trigger] start_edge(all, prims[k], axis as int),
        ) && edges@.contains(end_edge(all, prims[k], axis as int)) by {
            assert(edges@[2 * k] == start_edge(all, prims[k], axis as int));
            assert(edges@[2 * k + 1] == end_edge(all, prims[k], axis as int));
        }
        assert forall|e: BoundEdge| #[trigger] edges@.contains(e) implies prims.contains(e.prim_num)
            && (e == start_edge(all, e.prim_num, axis as int) || e == end_edge(
            all,
            e.prim_num,
            axis as int,
        )) by {
            let j = choose|j: int| 0 <= j < edges@.len() && edges@[j] == e;
            assert(prims.subrange(0, n as int).contains(edges@[j].prim_num));
        }
    }
    edges
}

/// Splitting at edge `off` of the sorted sweep loses no primitive: each one
/// starts before the split edge or ends after it. Both sides hold indices of
/// primitives, and no more of them than the node.
proof fn lemma_split_partition(
    s: Seq<BoundEdge>,
    all: Seq<Bounds3i>,
    prims: Seq<usize>,
    axis: int,
    off: int,
    below: Seq<usize>,
    above: Seq<usize>,
)
    requires
        0 <= axis < 3,
        0 <= off < s.len(),
        edges_of(s, all, prims, axis),
        is_sorted(s),
        all_well_formed(all),
        indices_below(prims, all.len() as int),
        below.len() == count_kind(s.take(off), EdgeType::Start),
        forall|j: int|
            0 <= j < off && (#[trigger] s[j]).edge_type == EdgeType::Start ==> below.contains(
                s[j].prim_num,
            ),
        forall|q: usize| below.contains(q) ==> exists|j: int| 0 <= j < s.len() && (#[trigger] s[j]).prim_num == q,
        above.len() + count_kind(s.take(off + 1), EdgeType::End) == count_kind(s, EdgeType::End),
        forall|j: int|
            off < j < s.len() && (#[trigger] s[j]).edge_type == EdgeType::End ==> above.contains(
                s[j].prim_num,
            ),
        forall|q: usize| above.contains(q) ==> exists|j: int| 0 <= j < s.len() && (#[trigger] s[j]).prim_num == q,
    ensures
        below.len() <= prims.len(),
        above.len() <= prims.len(),
        indices_below(below, all.len() as int),
        indices_below(above, all.len() as int),
        forall|p: usize| prims.contains(p) ==> below.contains(p) || above.contains(p),
{
        lemma_count_prefix_le(s, off, EdgeType::Start);
        lemma_count_prefix_le(s, off + 1, EdgeType::End);
        assert forall|k: int| 0 <= k < below.len() implies (#[trigger] below[k] as int) < all.len() by {
            assert(below.contains(below[k]));
            let j = choose|j: int| 0 <= j < s.len() && (#[trigger] s[j]).prim_num == below[k];
            assert(s.contains(s[j]));
        }
        assert forall|k: int| 0 <= k < above.len() implies (#[trigger] above[k] as int) < all.len() by {
            assert(above.contains(above[k]));
            let j = choose|j: int| 0 <= j < s.len() && (#[trigger] s[j]).prim_num == above[k];
            assert(s.contains(s[j]));
        }
        assert forall|p: usize| prims.contains(p) implies below.contains(p) || above.contains(p) by {
            let k = choose|k: int| 0 <= k < prims.len() && prims[k] == p;
            let se = start_edge(all, prims[k], axis);
            let ee = end_edge(all, prims[k], axis);
            assert(s.contains(se));
            assert(s.contains(ee));
            let a = choose|a: int| 0 <= a < s.len() && s[a] == se;
            let c = choose|c: int| 0 <= c < s.len() && s[c] == ee;
            assert(all[p as int].well_formed());
            assert(!edge_le(ee, se));
            if c <= a {
                assert(edge_le(s[c], s[a]));
            }
            if a < off {
                assert(s[a].edge_type == EdgeType::Start);
            } else {
                assert(s[c].edge_type == EdgeType::End);
            }
        }
}

proof fn lemma_mul_le(a: int, b: int, c: int, d: int)
    requires
        0 <= a <= c,
        0 <= b <= d,
    ensures
        0 <= a * b <= c * d,
{
    assert(0 <= a * b <= c * d) by (nonlinear_arith)
        requires
            0 <= a <= c,
            0 <= b <= d,
    ;
}

impl KdTreeAccel {
    /// Cost of splitting a node of bounds `b` at `t` on `axis`, with
    /// `n_below` and `n_above` primitives on the two sides, multiplied by the
    /// node's surface area and by `BONUS_SCALE` so that it is an integer.
    /// That factor is the same for every split of one node, so comparisons
    /// within a node are those of the unscaled costs.
    pub open spec fn spec_split_cost(
        &self,
        b: Bounds3i,
        axis: int,
        t: int,
        n_below: int,
        n_above: int,
    ) -> int {
        let eb = if n_below == 0 || n_above == 0 {
            clamp_bonus(self.empty_bonus)
        } else {
            0
        };
        clamp_cost(self.traversal_cost) * b.surface_area() * BONUS_SCALE + clamp_cost(
            self.isect_cost,
        ) * (BONUS_SCALE - eb) * (below_area(b, axis, t) * n_below + above_area(b, axis, t)
            * n_above)
    }

    /// Cost of testing all `n` primitives of a node of bounds `b`, scaled as
    /// `spec_split_cost` is.
    pub open spec fn spec_leaf_cost(&self, b: Bounds3i, n: int) -> int {
        clamp_cost(self.isect_cost) * n * b.surface_area() * BONUS_SCALE
    }

    /// The sweep of the first `i` edges of `s`: the first edge strictly inside
    /// `b` of least cost among them, with that cost.
    pub open spec fn sweep_best(&self, b: Bounds3i, axis: int, s: Seq<BoundEdge>, n: int, i: int) -> Option<(int, int)>
        decreases i,
    {
        if i <= 0 {
            None
        } else {
            let prev = self.sweep_best(b, axis, s, n, i - 1);
            let c = self.cost_at(b, axis, s, i - 1, n);
            if is_candidate(b, axis, s, i - 1) && (prev is None || c < prev.unwrap().1) {
                Some((i - 1, c))
            } else {
                prev
            }
        }
    }

    /// The split search on one axis: edge index and cost of the best split,
    /// if any edge lies strictly inside `b`.
    pub open spec fn axis_search(&self, b: Bounds3i, all: Seq<Bounds3i>, prims: Seq<usize>, axis: int) -> Option<(int, int)> {
        self.sweep_best(b, axis, sweep_edges(all, prims, axis), prims.len() as int, 2 * prims.len() as int)
    }

    /// The split search of a node: the axis of greatest extent first, then
    /// the next two axes in turn while none has an edge strictly inside `b`.
    /// Gives the axis, the position and the cost of the split found.
    pub open spec fn chosen_split(&self, b: Bounds3i, all: Seq<Bounds3i>, prims: Seq<usize>) -> Option<(int, int, int)> {
        let a0 = b.spec_maximum_extent();
        let a1 = (a0 + 1) % 3;
        let a2 = (a1 + 1) % 3;
        let axis = if self.axis_search(b, all, prims, a0) is Some {
            a0
        } else if self.axis_search(b, all, prims, a1) is Some {
            a1
        } else {
            a2
        };
        match self.axis_search(b, all, prims, axis) {
            None => None,
            Some((off, c)) => Some((axis, sweep_edges(all, prims, axis)[off].t as int, c)),
        }
    }

    /// Whether `build_tree` makes the node for `prims` in `b` a leaf.
    pub open spec fn makes_leaf(&self, b: Bounds3i, all: Seq<Bounds3i>, prims: Seq<usize>, depth: int, bad_refines: int) -> bool {
        let n = prims.len() as int;
        ||| n == 0
        ||| n <= self.max_prims
        ||| depth == 0
        ||| forces_leaf(
            match self.chosen_split(b, all, prims) {
                None => None,
                Some((_, _, c)) => Some(c),
            },
            self.spec_leaf_cost(b, n),
            n,
            bad_refines,
        )
    }

    /// Scaled cost of the split at edge `k` of the sorted sweep `s`.
    pub open spec fn cost_at(&self, b: Bounds3i, axis: int, s: Seq<BoundEdge>, k: int, n: int) -> int {
        self.spec_split_cost(b, axis, s[k].t as int, below_count(s, k), above_count(s, k, n))
    }

    fn split_cost(&self, b: &Bounds3i, axis: usize, t: i32, n_below: usize, n_above: usize) -> (r:
        u128)
        requires
            b.well_formed(),
            axis < 3,
            b.lo(axis as int) < t < b.hi(axis as int),
            n_below <= MAX_PRIMITIVES,
            n_above <= MAX_PRIMITIVES,
        ensures
            r as int == self.spec_split_cost(*b, axis as int, t as int, n_below as int, n_above as int),
            r < COST_CAP,
    {
        let (total, below, above) = split_areas(b, axis, t);
        let trav: u128 = if self.traversal_cost < 0 { 0 } else { self.traversal_cost as u128 };
        let isect: u128 = if self.isect_cost < 0 { 0 } else { self.isect_cost as u128 };
        let eb: u128 = if n_below == 0 || n_above == 0 {
            if self.empty_bonus > BONUS_SCALE { BONUS_SCALE as u128 } else { self.empty_bonus as u128 }
        } else {
            0
        };
        let cmax: u128 = 0x8000_0000;
        let nmax: u128 = MAX_PRIMITIVES as u128;
        proof {
            lemma_mul_le(below as int, n_below as int, AREA_BOUND as int, nmax as int);
            lemma_mul_le(above as int, n_above as int, AREA_BOUND as int, nmax as int);
            lemma_mul_le(trav as int, total as int, cmax as int, AREA_BOUND as int);
            lemma_mul_le(isect as int, (1000 - eb) as int, cmax as int, 1000);
        }
        let sweep = below * n_below as u128 + above * n_above as u128;
        proof {
            lemma_mul_le(
                (isect * (1000 - eb)) as int,
                sweep as int,
                (cmax * 1000) as int,
                (2 * AREA_BOUND * nmax) as int,
            );
        }
        trav * total * 1000 + isect * (1000 - eb) * sweep
    }
    /// What holds of every tree once built: its bounds are the union of its
    /// primitives' bounds, its nodes form one tree rooted at node 0 whose
    /// leaves lie no deeper than `max_depth`, every primitive is held by some
    /// leaf, and leaves hold indices of primitives only.
    pub open spec fn well_formed(&self) -> bool {
        &&& forall|axis: int|
            0 <= axis < 3 ==> #[trigger] self.bounds.lo(axis) == union_lo(self.primitives@, axis)
                && self.bounds.hi(axis) == union_hi(self.primitives@, axis)
        &&& subtree_ok(self.nodes@, 0, self.nodes@.len() as int, self.max_depth as nat)
        &&& forall|q: usize|
            q < self.primitives@.len() ==> #[trigger] leaf_holds(
                self.nodes@,
                0,
                self.nodes@.len() as int,
                q,
            )
        &&& leaves_index_below(
            self.nodes@,
            0,
            self.nodes@.len() as int,
            self.primitives@.len() as int,
        )
    }

    /// Builds the tree over the boxes `p` of the primitives, primitive `i`
    /// being `p[i]`. A `max_depth` of zero or below asks for the automatic
    /// depth limit.
    #[verifier::rlimit(80)]
    pub fn new(
        p: Vec<Bounds3i>,
        isect_cost: i32,
        traversal_cost: i32,
        empty_bonus: u32,
        max_prims: i32,
        max_depth: i32,
    ) -> (r: Self)
        requires
            p.len() <= MAX_PRIMITIVES,
            all_well_formed(p@),
        ensures
            r.well_formed(),
            r.primitives@ == p@,
            r.isect_cost == isect_cost,
            r.traversal_cost == traversal_cost,
            r.empty_bonus == empty_bonus,
            r.max_prims == max_prims,
            r.max_depth == resolved_max_depth(max_depth, p.len() as nat),
            r.built(
                r.nodes@,
                0,
                r.nodes@.len() as int,
                r.bounds,
                p@,
                Seq::new(p.len() as nat, |k: int| k as usize),
                r.max_depth as nat,
                0,
            ),
            r.nodes@[0].is_leaf == r.makes_leaf(
                r.bounds,
                p@,
                Seq::new(p.len() as nat, |k: int| k as usize),
                r.max_depth as int,
                0,
            ),
            !r.nodes@[0].is_leaf ==> r.chosen_split(
                r.bounds,
                p@,
                Seq::new(p.len() as nat, |k: int| k as usize),
            ) == Some(
                (
                    r.nodes@[0].split_axis as int,
                    r.nodes@[0].split_pos as int,
                    r.chosen_split(r.bounds, p@, Seq::new(p.len() as nat, |k: int| k as usize)).unwrap().2,
                ),
            ),
            p.len() <= 1 ==> r.nodes@.len() == 1 && r.nodes@[0].is_leaf
                && r.nodes@[0].prim_indices@ == Seq::new(p.len() as nat, |k: int| k as usize),
    {
        let p_len = p.len();
        let depth = max_depth_for(max_depth, p_len);
        let mut bounds = Bounds3i::empty();
        let mut prim_nums: Vec<usize> = Vec::new();
        let mut i: usize = 0;
        while i < p_len
            invariant
                p_len == p@.len(),
                i <= p_len,
                all_well_formed(p@),
                prim_nums@ == Seq::new(i as nat, |k: int| k as usize),
                forall|axis: int|
                    0 <= axis < 3 ==> #[trigger] bounds.lo(axis) == union_lo(p@.take(i as int), axis)
                        && bounds.hi(axis) == union_hi(p@.take(i as int), axis),
                i == 0 ==> forall|axis: int|
                    0 <= axis < 3 ==> #[trigger] bounds.lo(axis) == i32::MAX && bounds.hi(axis)
                        == i32::MIN,
                i > 0 ==> bounds.well_formed(),
            decreases p_len - i,
        {
            let ghost prev = bounds;
            bounds = bounds.union(&p[i]);
            prim_nums.push(i);
            proof {
                assert(p@.take(i + 1).drop_last() =~= p@.take(i as int));
                assert(p@[i as int].well_formed());
                assert forall|axis: int| 0 <= axis < 3 implies #[trigger] bounds.lo(axis) == union_lo(
                    p@.take(i + 1),
                    axis,
                ) && bounds.hi(axis) == union_hi(p@.take(i + 1), axis) by {
                    assert(bounds.lo(axis) == min_int(prev.lo(axis), p@[i as int].lo(axis)));
                }
                assert(bounds.lo(0) == min_int(prev.lo(0), p@[i as int].lo(0)));
                assert(bounds.lo(1) == min_int(prev.lo(1), p@[i as int].lo(1)));
                assert(bounds.lo(2) == min_int(prev.lo(2), p@[i as int].lo(2)));
                assert(prim_nums@ =~= Seq::new((i + 1) as nat, |k: int| k as usize));
            }
            i = i + 1;
        }
        proof {
            assert(p@.take(p_len as int) =~= p@);
            assert forall|k: int| 0 <= k < prim_nums@.len() implies (#[trigger] prim_nums@[k] as int) < p@.len() by {}
        }
        let mut kd_tree = KdTreeAccel {
            isect_cost,
            traversal_cost,
            max_prims,
            empty_bonus,
            max_depth: depth,
            primitives: Vec::new(),
            nodes: Vec::new(),
            bounds,
        };
        proof {
            if p_len == 1 {
                assert forall|axis: int| 0 <= axis < 3 implies #[trigger] bounds.lo(axis) == p@[0].lo(
                    axis,
                ) && bounds.hi(axis) == p@[0].hi(axis) by {
                    assert(p@.drop_last() =~= Seq::<Bounds3i>::empty());
                    assert(p@[0].well_formed());
                    assert(bounds.lo(axis) == union_lo(p@, axis));
                    assert(bounds.hi(axis) == union_hi(p@, axis));
                    assert(union_lo(p@.drop_last(), axis) == i32::MAX);
                    assert(union_hi(p@.drop_last(), axis) == i32::MIN);
                    assert(p@[0].lo(axis) <= COORD_LIMIT && p@[0].hi(axis) >= -COORD_LIMIT) by {
                        if axis == 0 {
                        } else if axis == 1 {
                        } else {
                        }
                    }
                }
                assert(single_box(bounds, p@, prim_nums@));
            }
        }
        let ghost before = kd_tree;
        kd_tree.build_tree(0, &bounds, &p, &prim_nums, depth, 0);
        kd_tree.primitives = p;
        proof {
            let seeds = Seq::new(p_len as nat, |k: int| k as usize);
            assert(prim_nums@ =~= seeds);
            let a0 = bounds.spec_maximum_extent();
            let a1 = (a0 + 1) % 3;
            let a2 = (a1 + 1) % 3;
            before.lemma_search_reads_costs(&kd_tree, bounds, a0, sweep_edges(p@, seeds, a0), p_len as int, 2 * p_len as int);
            before.lemma_search_reads_costs(&kd_tree, bounds, a1, sweep_edges(p@, seeds, a1), p_len as int, 2 * p_len as int);
            before.lemma_search_reads_costs(&kd_tree, bounds, a2, sweep_edges(p@, seeds, a2), p_len as int, 2 * p_len as int);
            assert(before.chosen_split(bounds, p@, seeds) == kd_tree.chosen_split(bounds, p@, seeds));
            assert(before.makes_leaf(bounds, p@, seeds, depth as int, 0) == kd_tree.makes_leaf(bounds, p@, seeds, depth as int, 0));
            before.lemma_built_reads_tuning(&kd_tree, kd_tree.nodes@, 0, kd_tree.nodes@.len() as int, bounds, p@, seeds, depth as nat, 0);
        }
        proof {
            assert forall|q: usize| q < kd_tree.primitives@.len() implies #[trigger] leaf_holds(
                kd_tree.nodes@,
                0,
                kd_tree.nodes@.len() as int,
                q,
            ) by {
                assert(prim_nums@[q as int] == q);
                assert(prim_nums@.contains(q));
            }
        }
        kd_tree
    }

    /// Builds the tree with the tuning in `ps`: intersection cost 80,
    /// traversal cost 1, empty bonus one half, one primitive per leaf and the
    /// automatic depth limit where `ps` is silent.
    pub fn create(prims: Vec<Bounds3i>, ps: &KdTreeParams) -> (r: std::sync::Arc<KdTreeAccel>)
        requires
            prims.len() <= MAX_PRIMITIVES,
            all_well_formed(prims@),
        ensures
            r.well_formed(),
            r.primitives@ == prims@,
            r.isect_cost == or_default(ps.intersect_cost, 80i32),
            r.traversal_cost == or_default(ps.traversal_cost, 1i32),
            r.empty_bonus == or_default(ps.empty_bonus, 500u32),
            r.max_prims == or_default(ps.max_prims, 1i32),
            r.max_depth == resolved_max_depth(or_default(ps.max_depth, -1i32), prims.len() as nat),
            r.built(
                r.nodes@,
                0,
                r.nodes@.len() as int,
                r.bounds,
                prims@,
                Seq::new(prims.len() as nat, |k: int| k as usize),
                r.max_depth as nat,
                0,
            ),
            prims.len() <= 1 ==> r.nodes@.len() == 1 && r.nodes@[0].is_leaf
                && r.nodes@[0].prim_indices@ == Seq::new(prims.len() as nat, |k: int| k as usize),
    {
        let isect_cost = value_or(ps.intersect_cost, 80);
        let trav_cost = value_or(ps.traversal_cost, 1);
        let empty_bonus = value_or(ps.empty_bonus, 500);
        let max_prims = value_or(ps.max_prims, 1);
        let max_depth = value_or(ps.max_depth, -1);
        std::sync::Arc::new(
            KdTreeAccel::new(prims, isect_cost, trav_cost, empty_bonus, max_prims, max_depth),
        )
    }

    /// The box holding every primitive of the tree.
    pub fn world_bound(&self) -> (r: Bounds3i)
        requires
            self.well_formed(),
        ensures
            forall|axis: int|
                0 <= axis < 3 ==> #[trigger] r.lo(axis) == union_lo(self.primitives@, axis) && r.hi(
                    axis,
                ) == union_hi(self.primitives@, axis),
    {
        self.bounds
    }

    /// A node is split whenever the split search finds a split strictly
    /// cheaper than a leaf and no other rule asks for a leaf: the node holds
    /// more than `max_prims` primitives, depth is left, and fewer than three
    /// bad refines came before.
    pub proof fn lemma_cheaper_split_is_taken(
        &self,
        b: Bounds3i,
        all: Seq<Bounds3i>,
        prims: Seq<usize>,
        depth: int,
        bad_refines: int,
    )
        requires
            b.well_formed(),
            prims.len() > 0,
            prims.len() > self.max_prims,
            depth > 0,
            0 <= bad_refines < 3,
            self.chosen_split(b, all, prims) is Some,
            self.chosen_split(b, all, prims).unwrap().2 < self.spec_leaf_cost(b, prims.len() as int),
        ensures
            !self.makes_leaf(b, all, prims, depth, bad_refines),
    {
        let n = prims.len() as int;
        let (e0, e1, e2) = (b.extent(0), b.extent(1), b.extent(2));
        lemma_mul_le(e0, e1, e0, e1);
        lemma_mul_le(e1, e2, e1, e2);
        lemma_mul_le(e2, e0, e2, e0);
        lemma_mul_le(clamp_cost(self.isect_cost), n, clamp_cost(self.isect_cost), n);
        lemma_mul_le(clamp_cost(self.isect_cost) * n, b.surface_area(), clamp_cost(self.isect_cost) * n, b.surface_area());
        assert(self.spec_leaf_cost(b, n) >= 0);
    }

    /// The nodes `i .. end` are the subtree that `build_tree` writes for the
    /// primitives `prims` in the region `b`, with `depth` levels left and
    /// `bad_refines` bad refines so far. A leaf holds `prims`. An interior
    /// node holds the chosen split, which lies strictly inside `b` on its
    /// axis; its below subtree follows it and is built
    /// over the region below the split with the primitives whose start edge
    /// precedes the split edge, and its above subtree, from `above_child` on,
    /// over the region above with the primitives whose end edge follows it.
    /// Both have one level less and the bad refines counted at this node.
    pub open spec fn built(
        &self,
        nodes: Seq<KdAccelNode>,
        i: int,
        end: int,
        b: Bounds3i,
        all: Seq<Bounds3i>,
        prims: Seq<usize>,
        depth: nat,
        bad_refines: int,
    ) -> bool
        decreases depth,
    {
        &&& 0 <= i < end <= nodes.len()
        &&& if self.makes_leaf(b, all, prims, depth as int, bad_refines) {
            &&& nodes[i].is_leaf
            &&& nodes[i].prim_indices@ == prims
            &&& end == i + 1
        } else if depth == 0 {
            false
        } else {
            let split = self.chosen_split(b, all, prims).unwrap();
            let axis = split.0;
            let off = self.axis_search(b, all, prims, axis).unwrap().0;
            let s = sweep_edges(all, prims, axis);
            let t = s[off].t;
            let next = next_bad_refines(
                Some(split.2),
                self.spec_leaf_cost(b, prims.len() as int),
                bad_refines,
            );
            let a = nodes[i].above_child as int;
            &&& !nodes[i].is_leaf
            &&& nodes[i].split_axis as int == axis
            &&& nodes[i].split_pos == t
            &&& b.lo(axis) < t < b.hi(axis)
            &&& i + 1 < a < end
            &&& self.built(
                nodes,
                i + 1,
                a,
                b.cut_hi(axis, t),
                all,
                starts_before(s, off),
                (depth - 1) as nat,
                next,
            )
            &&& self.built(
                nodes,
                a,
                end,
                b.cut_lo(axis, t),
                all,
                ends_between(s, off + 1, s.len() as int),
                (depth - 1) as nat,
                next,
            )
        }
    }

    /// Building is deterministic: two node arrays that both hold the subtree
    /// built for the same primitives, region, depth and bad refines agree
    /// node for node on its extent, kinds, splits, child links and leaf lists.
    pub proof fn lemma_built_unique(
        &self,
        x: Seq<KdAccelNode>,
        y: Seq<KdAccelNode>,
        i: int,
        end_x: int,
        end_y: int,
        b: Bounds3i,
        all: Seq<Bounds3i>,
        prims: Seq<usize>,
        depth: nat,
        bad_refines: int,
    )
        requires
            self.built(x, i, end_x, b, all, prims, depth, bad_refines),
            self.built(y, i, end_y, b, all, prims, depth, bad_refines),
        ensures
            end_x == end_y,
            forall|k: int| i <= k < end_x ==> #[trigger] same_node(x[k], y[k]),
        decreases depth,
    {
        if !self.makes_leaf(b, all, prims, depth as int, bad_refines) && depth > 0 {
            let split = self.chosen_split(b, all, prims).unwrap();
            let axis = split.0;
            let off = self.axis_search(b, all, prims, axis).unwrap().0;
            let s = sweep_edges(all, prims, axis);
            let t = s[off].t;
            let next = next_bad_refines(
                Some(split.2),
                self.spec_leaf_cost(b, prims.len() as int),
                bad_refines,
            );
            let a = x[i].above_child as int;
            self.lemma_built_unique(x, y, i + 1, a, y[i].above_child as int, b.cut_hi(axis, t), all, starts_before(s, off), (depth - 1) as nat, next);
            self.lemma_built_unique(x, y, a, end_x, end_y, b.cut_lo(axis, t), all, ends_between(s, off + 1, s.len() as int), (depth - 1) as nat, next);
        }
    }

    /// A built subtree reads only its own nodes.
    pub proof fn lemma_built_frame(
        &self,
        x: Seq<KdAccelNode>,
        y: Seq<KdAccelNode>,
        i: int,
        end: int,
        b: Bounds3i,
        all: Seq<Bounds3i>,
        prims: Seq<usize>,
        depth: nat,
        bad_refines: int,
    )
        requires
            self.built(x, i, end, b, all, prims, depth, bad_refines),
            end <= y.len(),
            forall|k: int| i <= k < end ==> y[k] == x[k],
        ensures
            self.built(y, i, end, b, all, prims, depth, bad_refines),
        decreases depth,
    {
        if !self.makes_leaf(b, all, prims, depth as int, bad_refines) && depth > 0 {
            let split = self.chosen_split(b, all, prims).unwrap();
            let axis = split.0;
            let off = self.axis_search(b, all, prims, axis).unwrap().0;
            let s = sweep_edges(all, prims, axis);
            let t = s[off].t;
            let next = next_bad_refines(
                Some(split.2),
                self.spec_leaf_cost(b, prims.len() as int),
                bad_refines,
            );
            let a = x[i].above_child as int;
            self.lemma_built_frame(x, y, i + 1, a, b.cut_hi(axis, t), all, starts_before(s, off), (depth - 1) as nat, next);
            self.lemma_built_frame(x, y, a, end, b.cut_lo(axis, t), all, ends_between(s, off + 1, s.len() as int), (depth - 1) as nat, next);
        }
    }

    /// The build decisions read only the tuning of the tree.
    pub proof fn lemma_decisions_read_tuning(
        &self,
        other: &KdTreeAccel,
        b: Bounds3i,
        all: Seq<Bounds3i>,
        prims: Seq<usize>,
        depth: int,
        bad_refines: int,
    )
        requires
            self.isect_cost == other.isect_cost,
            self.traversal_cost == other.traversal_cost,
            self.empty_bonus == other.empty_bonus,
            self.max_prims == other.max_prims,
        ensures
            forall|axis: int| #[trigger] self.axis_search(b, all, prims, axis) == other.axis_search(b, all, prims, axis),
            self.chosen_split(b, all, prims) == other.chosen_split(b, all, prims),
            self.makes_leaf(b, all, prims, depth, bad_refines) == other.makes_leaf(b, all, prims, depth, bad_refines),
            self.spec_leaf_cost(b, prims.len() as int) == other.spec_leaf_cost(b, prims.len() as int),
    {
        assert forall|axis: int| #[trigger] self.axis_search(b, all, prims, axis) == other.axis_search(b, all, prims, axis) by {
            self.lemma_search_reads_costs(other, b, axis, sweep_edges(all, prims, axis), prims.len() as int, 2 * prims.len() as int);
        }
    }

    /// What is built depends only on the tuning of the tree.
    pub proof fn lemma_built_reads_tuning(
        &self,
        other: &KdTreeAccel,
        nodes: Seq<KdAccelNode>,
        i: int,
        end: int,
        b: Bounds3i,
        all: Seq<Bounds3i>,
        prims: Seq<usize>,
        depth: nat,
        bad_refines: int,
    )
        requires
            self.isect_cost == other.isect_cost,
            self.traversal_cost == other.traversal_cost,
            self.empty_bonus == other.empty_bonus,
            self.max_prims == other.max_prims,
            self.built(nodes, i, end, b, all, prims, depth, bad_refines),
        ensures
            other.built(nodes, i, end, b, all, prims, depth, bad_refines),
        decreases depth,
    {
        self.lemma_decisions_read_tuning(other, b, all, prims, depth as int, bad_refines);
        if !self.makes_leaf(b, all, prims, depth as int, bad_refines) && depth > 0 {
            let split = self.chosen_split(b, all, prims).unwrap();
            let axis = split.0;
            let off = self.axis_search(b, all, prims, axis).unwrap().0;
            let s = sweep_edges(all, prims, axis);
            let t = s[off].t;
            let next = next_bad_refines(
                Some(split.2),
                self.spec_leaf_cost(b, prims.len() as int),
                bad_refines,
            );
            let a = nodes[i].above_child as int;
            self.lemma_built_reads_tuning(other, nodes, i + 1, a, b.cut_hi(axis, t), all, starts_before(s, off), (depth - 1) as nat, next);
            self.lemma_built_reads_tuning(other, nodes, a, end, b.cut_lo(axis, t), all, ends_between(s, off + 1, s.len() as int), (depth - 1) as nat, next);
        }
    }

    /// The split search reads only the cost parameters.
    proof fn lemma_search_reads_costs(&self, other: &KdTreeAccel, b: Bounds3i, axis: int, s: Seq<BoundEdge>, n: int, i: int)
        requires
            self.isect_cost == other.isect_cost,
            self.traversal_cost == other.traversal_cost,
            self.empty_bonus == other.empty_bonus,
        ensures
            self.sweep_best(b, axis, s, n, i) == other.sweep_best(b, axis, s, n, i),
        decreases i,
    {
        if i > 0 {
            self.lemma_search_reads_costs(other, b, axis, s, n, i - 1);
        }
    }

    /// Everything but the nodes is as in `other`.
    pub open spec fn same_settings(&self, other: &KdTreeAccel) -> bool {
        &&& self.isect_cost == other.isect_cost
        &&& self.traversal_cost == other.traversal_cost
        &&& self.max_prims == other.max_prims
        &&& self.empty_bonus == other.empty_bonus
        &&& self.max_depth == other.max_depth
        &&& self.primitives@ == other.primitives@
        &&& self.bounds == other.bounds
    }

    fn leaf_cost(&self, b: &Bounds3i, n: usize) -> (r: u128)
        requires
            b.well_formed(),
            n <= MAX_PRIMITIVES,
        ensures
            r as int == self.spec_leaf_cost(*b, n as int),
            r < COST_CAP,
    {
        let total = box_area(b);
        let isect: u128 = if self.isect_cost < 0 { 0 } else { self.isect_cost as u128 };
        let cmax: u128 = 0x8000_0000;
        let nmax: u128 = MAX_PRIMITIVES as u128;
        proof {
            lemma_mul_le(isect as int, n as int, cmax as int, nmax as int);
            lemma_mul_le((isect * n as u128) as int, total as int, (cmax * nmax) as int, AREA_BOUND as int);
        }
        isect * n as u128 * total * 1000
    }

    /// Writes the subtree for the primitives `prim_nums`, which overlap
    /// `node_bounds`, starting at node `node_num`, the next free node. A node
    /// with no more than `max_prims` primitives, or with no depth left,
    /// becomes a leaf. Otherwise the split search runs on the axis of greatest
    /// extent, then on the next two axes while no split has been found; the
    /// best split found is taken unless `forces_leaf` says otherwise. The
    /// below child follows its parent, the above child follows the below
    /// subtree, and a primitive that straddles the split goes to both.
    #[verifier::rlimit(100)]
    pub fn build_tree(
        &mut self,
        node_num: usize,
        node_bounds: &Bounds3i,
        all_prim_bounds: &Vec<Bounds3i>,
        prim_nums: &Vec<usize>,
        depth: u32,
        bad_refines: u32,
    )
        requires
            node_num == old(self).nodes@.len(),
            prim_nums.len() <= MAX_PRIMITIVES,
            all_well_formed(all_prim_bounds@),
            indices_below(prim_nums@, all_prim_bounds.len() as int),
            prim_nums.len() > 0 ==> node_bounds.well_formed(),
            bad_refines < 3,
        ensures
            final(self).nodes@.len() > node_num,
            final(self).same_settings(old(self)),
            forall|k: int| 0 <= k < node_num ==> final(self).nodes@[k] == old(self).nodes@[k],
            subtree_ok(final(self).nodes@, node_num as int, final(self).nodes@.len() as int, depth as nat),
            forall|p: usize|
                prim_nums@.contains(p) ==> leaf_holds(
                    final(self).nodes@,
                    node_num as int,
                    final(self).nodes@.len() as int,
                    p,
                ),
            leaves_index_below(
                final(self).nodes@,
                node_num as int,
                final(self).nodes@.len() as int,
                all_prim_bounds.len() as int,
            ),
            (prim_nums.len() == 0 || prim_nums.len() as int <= old(self).max_prims || depth == 0)
                ==> final(self).nodes@.len() == node_num + 1 && final(self).nodes@[node_num as int].is_leaf
                && final(self).nodes@[node_num as int].prim_indices@ == prim_nums@,
            old(self).built(
                final(self).nodes@,
                node_num as int,
                final(self).nodes@.len() as int,
                *node_bounds,
                all_prim_bounds@,
                prim_nums@,
                depth as nat,
                bad_refines as int,
            ),
            final(self).nodes@[node_num as int].is_leaf == old(self).makes_leaf(
                *node_bounds,
                all_prim_bounds@,
                prim_nums@,
                depth as int,
                bad_refines as int,
            ),
            final(self).nodes@[node_num as int].is_leaf ==> final(self).nodes@[node_num as int].prim_indices@
                == prim_nums@,
            !final(self).nodes@[node_num as int].is_leaf ==> old(self).chosen_split(
                *node_bounds,
                all_prim_bounds@,
                prim_nums@,
            ) == Some(
                (
                    final(self).nodes@[node_num as int].split_axis as int,
                    final(self).nodes@[node_num as int].split_pos as int,
                    old(self).chosen_split(*node_bounds, all_prim_bounds@, prim_nums@).unwrap().2,
                ),
            ),
            single_box(*node_bounds, all_prim_bounds@, prim_nums@) ==> final(self).nodes@.len()
                == node_num + 1 && final(self).nodes@[node_num as int].is_leaf
                && final(self).nodes@[node_num as int].prim_indices@ == prim_nums@,
        decreases depth, 1nat,
    {
        let n = prim_nums.len();
        if n == 0 || n as i64 <= self.max_prims as i64 || depth == 0 {
            let leaf = make_leaf(prim_nums);
            self.nodes.push(leaf);
            proof {
                lemma_leaf_holds_all(self.nodes@, node_num as int, prim_nums@);
            }
            return;
        }
        let old_cost = self.leaf_cost(node_bounds, n);
        let mut axis = node_bounds.maximum_extent();
        let mut found = self.find_split(node_bounds, all_prim_bounds, prim_nums, axis);
        proof {
            if single_box(*node_bounds, all_prim_bounds@, prim_nums@) {
                lemma_single_no_candidate(found.0@, all_prim_bounds@, prim_nums@, *node_bounds, axis as int);
            }
        }
        if found.1.is_none() {
            axis = (axis + 1) % 3;
            found = self.find_split(node_bounds, all_prim_bounds, prim_nums, axis);
            proof {
                if single_box(*node_bounds, all_prim_bounds@, prim_nums@) {
                    lemma_single_no_candidate(found.0@, all_prim_bounds@, prim_nums@, *node_bounds, axis as int);
                }
            }
            if found.1.is_none() {
                axis = (axis + 1) % 3;
                found = self.find_split(node_bounds, all_prim_bounds, prim_nums, axis);
                proof {
                    if single_box(*node_bounds, all_prim_bounds@, prim_nums@) {
                        lemma_single_no_candidate(found.0@, all_prim_bounds@, prim_nums@, *node_bounds, axis as int);
                    }
                }
            }
        }
        proof {
            let a0 = node_bounds.spec_maximum_extent();
            let ch = self.chosen_split(*node_bounds, all_prim_bounds@, prim_nums@);
            assert(best_view(found.1) == self.axis_search(*node_bounds, all_prim_bounds@, prim_nums@, axis as int));
            assert(found.0@ == sweep_edges(all_prim_bounds@, prim_nums@, axis as int));
            if found.1 is Some {
                assert(ch == Some((axis as int, found.0@[found.1.unwrap().0 as int].t as int, found.1.unwrap().1 as int)));
            } else {
                assert(ch is None);
            }
        }
        let (edges, best) = found;
        let best_cost: Option<u128> = match best {
            None => None,
            Some((_, c)) => Some(c),
        };
        let (leaf, bad) = refine_verdict(best_cost, old_cost, n, bad_refines);
        if leaf {
            let node = make_leaf(prim_nums);
            self.nodes.push(node);
            proof {
                lemma_leaf_holds_all(self.nodes@, node_num as int, prim_nums@);
            }
            return;
        }
        let off: usize = match best {
            Some((o, _)) => o,
            None => 0,
        };
        proof {
            let o = *old(self);
            assert(o.chosen_split(*node_bounds, all_prim_bounds@, prim_nums@).unwrap().0 == axis as int);
            assert(cost_view(best_cost) == Some(o.chosen_split(*node_bounds, all_prim_bounds@, prim_nums@).unwrap().2));
        }
        self.build_interior(node_num, node_bounds, all_prim_bounds, prim_nums, depth, bad_refines, axis, &edges, off, bad);
    }

    /// The interior node for `prim_nums`, split on `axis` at edge `off` of the
    /// sorted sweep `edges`, followed by its two subtrees, whose nodes have
    /// `bad` bad refines so far.
    fn build_interior(
        &mut self,
        node_num: usize,
        node_bounds: &Bounds3i,
        all_prim_bounds: &Vec<Bounds3i>,
        prim_nums: &Vec<usize>,
        depth: u32,
        bad_refines: u32,
        axis: usize,
        edges: &Vec<BoundEdge>,
        off: usize,
        bad: u32,
    )
        requires
            node_num == old(self).nodes@.len(),
            prim_nums.len() <= MAX_PRIMITIVES,
            all_well_formed(all_prim_bounds@),
            indices_below(prim_nums@, all_prim_bounds.len() as int),
            node_bounds.well_formed(),
            bad_refines < 3,
            bad < 3,
            depth > 0,
            axis < 3,
            !old(self).makes_leaf(*node_bounds, all_prim_bounds@, prim_nums@, depth as int, bad_refines as int),
            old(self).chosen_split(*node_bounds, all_prim_bounds@, prim_nums@) is Some,
            old(self).chosen_split(*node_bounds, all_prim_bounds@, prim_nums@).unwrap().0 == axis as int,
            old(self).axis_search(*node_bounds, all_prim_bounds@, prim_nums@, axis as int) == Some(
                (off as int, old(self).chosen_split(*node_bounds, all_prim_bounds@, prim_nums@).unwrap().2),
            ),
            bad as int == next_bad_refines(
                Some(old(self).chosen_split(*node_bounds, all_prim_bounds@, prim_nums@).unwrap().2),
                old(self).spec_leaf_cost(*node_bounds, prim_nums.len() as int),
                bad_refines as int,
            ),
            edges@ == sweep_edges(all_prim_bounds@, prim_nums@, axis as int),
            edges_of(edges@, all_prim_bounds@, prim_nums@, axis as int),
            is_sorted(edges@),
            off < edges@.len(),
            is_candidate(*node_bounds, axis as int, edges@, off as int),
        ensures
            final(self).nodes@.len() > node_num,
            final(self).same_settings(old(self)),
            forall|k: int| 0 <= k < node_num ==> final(self).nodes@[k] == old(self).nodes@[k],
            subtree_ok(final(self).nodes@, node_num as int, final(self).nodes@.len() as int, depth as nat),
            forall|p: usize|
                prim_nums@.contains(p) ==> leaf_holds(
                    final(self).nodes@,
                    node_num as int,
                    final(self).nodes@.len() as int,
                    p,
                ),
            leaves_index_below(
                final(self).nodes@,
                node_num as int,
                final(self).nodes@.len() as int,
                all_prim_bounds.len() as int,
            ),
            old(self).built(
                final(self).nodes@,
                node_num as int,
                final(self).nodes@.len() as int,
                *node_bounds,
                all_prim_bounds@,
                prim_nums@,
                depth as nat,
                bad_refines as int,
            ),
            !final(self).nodes@[node_num as int].is_leaf,
            final(self).nodes@[node_num as int].split_axis == axis,
            final(self).nodes@[node_num as int].split_pos == edges@[off as int].t,
        decreases depth, 0nat,
    {
        let ghost s = edges@;
        let ghost all = all_prim_bounds@;
        let t = edges[off].t;
        let below = classify_below(edges, off);
        let above = classify_above(edges, off);
        proof {
            lemma_split_partition(s, all, prim_nums@, axis as int, off as int, below@, above@);
        }
        let below_bounds = node_bounds.with_hi(axis, t);
        let above_bounds = node_bounds.with_lo(axis, t);
        proof {
            assert(is_candidate(*node_bounds, axis as int, s, off as int));
            assert(below_bounds.well_formed());
            assert(above_bounds.well_formed());
        }
        self.nodes.push(
            KdAccelNode {
                is_leaf: false,
                split_axis: axis,
                split_pos: t,
                above_child: 0,
                prim_indices: Vec::new(),
            },
        );
        let below_child = self.nodes.len();
        let ghost self1 = *self;
        self.build_tree(below_child, &below_bounds, all_prim_bounds, &below, depth - 1, bad);
        let ghost nodes1 = self.nodes@;
        let above_child = self.nodes.len();
        let ghost self2 = *self;
        self.build_tree(above_child, &above_bounds, all_prim_bounds, &above, depth - 1, bad);
        let ghost nodes2 = self.nodes@;
        self.nodes[node_num].above_child = above_child;
        proof {
            let fin = self.nodes@;
            let end = fin.len() as int;
            let ni = node_num as int;
            let ai = above_child as int;
            let o = *old(self);
            assert forall|k: int| ni + 1 <= k < ai implies fin[k] == nodes1[k] by {}
            assert forall|k: int| ai <= k < end implies fin[k] == nodes2[k] by {}
            self1.lemma_built_reads_tuning(&o, nodes1, ni + 1, ai, below_bounds, all, below@, (depth - 1) as nat, bad as int);
            self2.lemma_built_reads_tuning(&o, nodes2, ai, end, above_bounds, all, above@, (depth - 1) as nat, bad as int);
            o.lemma_built_frame(nodes1, fin, ni + 1, ai, below_bounds, all, below@, (depth - 1) as nat, bad as int);
            o.lemma_built_frame(nodes2, fin, ai, end, above_bounds, all, above@, (depth - 1) as nat, bad as int);
            assert(o.built(fin, ni, end, *node_bounds, all, prim_nums@, depth as nat, bad_refines as int));
        }
        proof {
            let fin = self.nodes@;
            let end = fin.len() as int;
            let ni = node_num as int;
            let ai = above_child as int;
            assert forall|k: int| ni + 1 <= k < ai implies fin[k] == nodes1[k] by {}
            assert forall|k: int| ai <= k < end implies fin[k] == nodes2[k] by {}
            lemma_subtree_frame(nodes1, fin, ni + 1, ai, (depth - 1) as nat);
            lemma_subtree_frame(nodes2, fin, ai, end, (depth - 1) as nat);
            assert(fin[ni].above_child == above_child);
            assert(fin[ni].split_axis == axis);
            assert(!fin[ni].is_leaf);
            assert(subtree_ok(fin, ni, end, depth as nat));
            assert forall|p: usize| prim_nums@.contains(p) implies leaf_holds(fin, ni, end, p) by {
                if below@.contains(p) {
                    let j = choose|j: int| ni + 1 <= j < ai && (#[trigger] nodes1[j]).is_leaf && nodes1[j].prim_indices@.contains(p);
                    assert(fin[j] == nodes1[j]);
                } else {
                    let j = choose|j: int| ai <= j < end && (#[trigger] nodes2[j]).is_leaf && nodes2[j].prim_indices@.contains(p);
                    assert(fin[j] == nodes2[j]);
                }
            }
            assert forall|j: int| ni <= j < end && (#[trigger] fin[j]).is_leaf implies indices_below(fin[j].prim_indices@, all.len() as int) by {
                if j < ai {
                    assert(nodes1[j] == fin[j]);
                } else {
                    assert(nodes2[j] == fin[j]);
                }
            }
        }
    }

    /// Builds the edges of `prims` on `axis`, sorts them, and sweeps them for
    /// the cheapest split strictly inside `b`. Returns the sorted edges and,
    /// if any edge lies strictly inside, the first edge of least cost with
    /// that cost.
    pub fn find_split(
        &self,
        b: &Bounds3i,
        all_prim_bounds: &Vec<Bounds3i>,
        prim_nums: &Vec<usize>,
        axis: usize,
    ) -> (r: (Vec<BoundEdge>, Option<(usize, u128)>))
        requires
            b.well_formed(),
            axis < 3,
            prim_nums.len() <= MAX_PRIMITIVES,
            all_well_formed(all_prim_bounds@),
            indices_below(prim_nums@, all_prim_bounds.len() as int),
        ensures
            r.0@ == sweep_edges(all_prim_bounds@, prim_nums@, axis as int),
            best_view(r.1) == self.sweep_best(*b, axis as int, r.0@, prim_nums.len() as int, 2 * prim_nums.len() as int),
            edges_of(r.0@, all_prim_bounds@, prim_nums@, axis as int),
            is_sorted(r.0@),
            match r.1 {
                None => forall|k: int|
                    0 <= k < r.0@.len() ==> !#[trigger] is_candidate(*b, axis as int, r.0@, k),
                Some((off, c)) => {
                    &&& off < r.0@.len()
                    &&& is_candidate(*b, axis as int, r.0@, off as int)
                    &&& c as int == self.cost_at(*b, axis as int, r.0@, off as int, prim_nums.len() as int)
                    &&& c < COST_CAP
                    &&& forall|k: int|
                        0 <= k < r.0@.len() && #[trigger] is_candidate(*b, axis as int, r.0@, k)
                            ==> c <= self.cost_at(*b, axis as int, r.0@, k, prim_nums.len() as int)
                    &&& forall|k: int|
                        0 <= k < off && #[trigger] is_candidate(*b, axis as int, r.0@, k)
                            ==> c < self.cost_at(*b, axis as int, r.0@, k, prim_nums.len() as int)
                },
            },
    {
        let n = prim_nums.len();
        let mut edges = axis_edges(all_prim_bounds, prim_nums, axis);
        let ghost raw = edges@;
        sort_edges(&mut edges);
        let ghost s = edges@;
        proof {
            let all = all_prim_bounds@;
            let prims = prim_nums@;
            assert forall|k: int| 0 <= k < prims.len() implies s.contains(
                #[trigger] start_edge(all, prims[k], axis as int),
            ) && s.contains(end_edge(all, prims[k], axis as int)) by {
                assert(raw.contains(start_edge(all, prims[k], axis as int)));
                assert(raw.contains(end_edge(all, prims[k], axis as int)));
            }
            assert forall|e: BoundEdge| #[trigger] s.contains(e) implies prims.contains(e.prim_num)
                && (e == start_edge(all, e.prim_num, axis as int) || e == end_edge(
                all,
                e.prim_num,
                axis as int,
            )) by {
                assert(raw.contains(e));
            }
        }
        let mut best: Option<(usize, u128)> = None;
        let mut n_below: usize = 0;
        let mut n_above: usize = n;
        let mut i: usize = 0;
        while i < 2 * n
            invariant
                s == edges@,
                s.len() == 2 * n,
                n <= MAX_PRIMITIVES,
                axis < 3,
                b.well_formed(),
                count_kind(s, EdgeType::Start) == n,
                count_kind(s, EdgeType::End) == n,
                i <= 2 * n,
                n_below as int == below_count(s, i as int),
                best_view(best) == self.sweep_best(*b, axis as int, s, n as int, i as int),
                n_above as int == n - count_kind(s.take(i as int), EdgeType::End),
                match best {
                    None => forall|k: int| 0 <= k < i ==> !#[trigger] is_candidate(*b, axis as int, s, k),
                    Some((off, c)) => {
                        &&& off < i
                        &&& is_candidate(*b, axis as int, s, off as int)
                        &&& c as int == self.cost_at(*b, axis as int, s, off as int, n as int)
                        &&& c < COST_CAP
                        &&& forall|k: int|
                            0 <= k < i && #[trigger] is_candidate(*b, axis as int, s, k) ==> c
                                <= self.cost_at(*b, axis as int, s, k, n as int)
                        &&& forall|k: int|
                            0 <= k < off && #[trigger] is_candidate(*b, axis as int, s, k) ==> c
                                < self.cost_at(*b, axis as int, s, k, n as int)
                    },
                },
            decreases 2 * n - i,
        {
            proof {
                lemma_count_prefix_step(s, i as int, EdgeType::Start);
                lemma_count_prefix_step(s, i as int, EdgeType::End);
                lemma_count_prefix_le(s, i + 1, EdgeType::Start);
                lemma_count_prefix_le(s, i + 1, EdgeType::End);
            }
            let e = edges[i];
            if e.edge_type == EdgeType::End {
                n_above = n_above - 1;
            }
            if e.t > b.p_min[axis] && e.t < b.p_max[axis] {
                let cost = self.split_cost(b, axis, e.t, n_below, n_above);
                let better = match best {
                    None => true,
                    Some((_, c)) => cost < c,
                };
                if better {
                    best = Some((i, cost));
                }
            }
            if e.edge_type == EdgeType::Start {
                n_below = n_below + 1;
            }
            i = i + 1;
        }
        proof {
            assert(s.take(2 * n as int) =~= s);
            assert(n_below == n && n_above == 0);
        }
        (edges, best)
    }
}


/// Bound on the surface area of any box on the grid, and of its parts.
pub const AREA_BOUND: u128 = 26388279066624;

/// Extent of `b` on `axis`.
fn extent_of(b: &Bounds3i, axis: usize) -> (r: u128)
    requires
        b.well_formed(),
        axis < 3,
    ensures
        r as int == b.extent(axis as int),
        r <= 2 * COORD_LIMIT,
{
    (b.p_max[axis] as i64 - b.p_min[axis] as i64) as u128
}

/// Surface areas of `b`, of its part below `t` on `axis` and of its part
/// above.
fn split_areas(b: &Bounds3i, axis: usize, t: i32) -> (r: (u128, u128, u128))
    requires
        b.well_formed(),
        axis < 3,
        b.lo(axis as int) < t < b.hi(axis as int),
    ensures
        r.0 as int == b.surface_area(),
        r.1 as int == below_area(*b, axis as int, t as int),
        r.2 as int == above_area(*b, axis as int, t as int),
        r.0 <= AREA_BOUND,
        r.1 <= AREA_BOUND,
        r.2 <= AREA_BOUND,
{
    let a0 = (axis + 1) % 3;
    let a1 = (axis + 2) % 3;
    let d0 = extent_of(b, a0);
    let d1 = extent_of(b, a1);
    let d2 = extent_of(b, axis);
    let tb = (t as i64 - b.p_min[axis] as i64) as u128;
    let ta = (b.p_max[axis] as i64 - t as i64) as u128;
    proof {
        lemma_mul_le(d0 as int, d1 as int, 2097152, 2097152);
        lemma_mul_le(d1 as int, d2 as int, 2097152, 2097152);
        lemma_mul_le(d2 as int, d0 as int, 2097152, 2097152);
        lemma_mul_le(tb as int, (d0 + d1) as int, 2097152, 4194304);
        lemma_mul_le(ta as int, (d0 + d1) as int, 2097152, 4194304);
    }
    let total = 2 * (d0 * d1 + d1 * d2 + d2 * d0);
    let below = 2 * (d0 * d1 + tb * (d0 + d1));
    let above = 2 * (d0 * d1 + ta * (d0 + d1));
    proof {
        let bb = *b;
        assert(total as int == bb.surface_area()) by {
            if axis == 0 {
            } else if axis == 1 {
                assert(total as int == 2 * (d2 * d0 + d0 * d1 + d1 * d2));
            } else {
                assert(total as int == 2 * (d1 * d2 + d2 * d0 + d0 * d1));
            }
        }
    }
    (total, below, above)
}

} // verus!
