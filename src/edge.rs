use vstd::prelude::*;

verus! {

/// Which end of a primitive's extent an edge marks.
#[derive(Clone, Copy, Debug, PartialEq, Eq, Structural)]
pub enum EdgeType {
    Start,
    End,
}

/// One end of a primitive's extent along one axis.
#[derive(Clone, Copy, Debug, PartialEq, Eq, Structural)]
pub struct BoundEdge {
    pub t: i32,
    pub prim_num: usize,
    pub edge_type: EdgeType,
}

impl BoundEdge {
    pub fn new(t: i32, prim_num: usize, starting: bool) -> (r: Self)
        ensures
            r.t == t,
            r.prim_num == prim_num,
            r.edge_type == (if starting { EdgeType::Start } else { EdgeType::End }),
    {
        let edge_type: EdgeType;
        if starting {
            edge_type = EdgeType::Start;
        } else {
            edge_type = EdgeType::End;
        }
        BoundEdge { t, prim_num, edge_type }
    }
}

impl Default for BoundEdge {
    fn default() -> (r: Self)
        ensures
            r.t == 0,
            r.prim_num == 0,
            r.edge_type == EdgeType::Start,
    {
        BoundEdge { t: 0, prim_num: 0, edge_type: EdgeType::Start }
    }
}

/// Rank of an edge kind in the edge order: at one position a start comes
/// before an end, so that a primitive of zero width never has its end edge
/// ahead of its start edge.
pub open spec fn kind_rank(k: EdgeType) -> int {
    match k {
        EdgeType::Start => 0,
        EdgeType::End => 1,
    }
}

/// The order edges are swept in: by position, then start before end, then by
/// primitive number. It is total, so a sorted list of given edges is unique.
pub open spec fn edge_le(a: BoundEdge, b: BoundEdge) -> bool {
    ||| a.t < b.t
    ||| a.t == b.t && kind_rank(a.edge_type) < kind_rank(b.edge_type)
    ||| a.t == b.t && a.edge_type == b.edge_type && a.prim_num <= b.prim_num
}

/// `a` strictly ahead of `b` in the edge order.
pub open spec fn edge_lt(a: BoundEdge, b: BoundEdge) -> bool {
    !edge_le(b, a)
}

pub open spec fn is_sorted(s: Seq<BoundEdge>) -> bool {
    forall|i: int, j: int| 0 <= i < j < s.len() ==> edge_le(#[trigger] s[i], #[trigger] s[j])
}

/// Whether `a` comes strictly before `b` in the edge order.
pub fn edge_less(a: &BoundEdge, b: &BoundEdge) -> (r: bool)
    ensures
        r == edge_lt(*a, *b),
{
    if a.t != b.t {
        a.t < b.t
    } else {
        match (a.edge_type, b.edge_type) {
            (EdgeType::Start, EdgeType::End) => true,
            (EdgeType::End, EdgeType::Start) => false,
            _ => a.prim_num < b.prim_num,
        }
    }
}

/// Number of edges of kind `k` in `s`.
pub open spec fn count_kind(s: Seq<BoundEdge>, k: EdgeType) -> nat
    decreases s.len(),
{
    if s.len() == 0 {
        0
    } else {
        count_kind(s.drop_last(), k) + (if s.last().edge_type == k { 1nat } else { 0nat })
    }
}

pub proof fn lemma_count_append(a: Seq<BoundEdge>, b: Seq<BoundEdge>, k: EdgeType)
    ensures
        count_kind(a + b, k) == count_kind(a, k) + count_kind(b, k),
    decreases b.len(),
{
    if b.len() == 0 {
        assert(a + b =~= a);
    } else {
        assert((a + b).drop_last() =~= a + b.drop_last());
        lemma_count_append(a, b.drop_last(), k);
    }
}

/// Counting one more edge of a prefix.
pub proof fn lemma_count_prefix_step(s: Seq<BoundEdge>, i: int, k: EdgeType)
    requires
        0 <= i < s.len(),
    ensures
        count_kind(s.take(i + 1), k) == count_kind(s.take(i), k) + (if s[i].edge_type == k {
            1nat
        } else {
            0nat
        }),
{
    assert(s.take(i + 1).drop_last() =~= s.take(i));
}

/// Exchanging two neighbours keeps the counts.
pub proof fn lemma_count_swap(s: Seq<BoundEdge>, j: int, k: EdgeType)
    requires
        0 <= j,
        j + 1 < s.len(),
    ensures
        count_kind(s.update(j, s[j + 1]).update(j + 1, s[j]), k) == count_kind(s, k),
{
    let u = s.update(j, s[j + 1]).update(j + 1, s[j]);
    let pre = s.take(j);
    let post = s.skip(j + 2);
    let xy = pre.push(s[j]).push(s[j + 1]);
    let yx = pre.push(s[j + 1]).push(s[j]);
    assert(s =~= xy + post);
    assert(u =~= yx + post);
    assert(xy.drop_last() =~= pre.push(s[j]));
    assert(yx.drop_last() =~= pre.push(s[j + 1]));
    assert(pre.push(s[j]).drop_last() =~= pre);
    assert(pre.push(s[j + 1]).drop_last() =~= pre);
    let cx: nat = if s[j].edge_type == k { 1 } else { 0 };
    let cy: nat = if s[j + 1].edge_type == k { 1 } else { 0 };
    assert(count_kind(pre.push(s[j]), k) == count_kind(pre, k) + cx);
    assert(count_kind(pre.push(s[j + 1]), k) == count_kind(pre, k) + cy);
    assert(count_kind(xy, k) == count_kind(pre.push(s[j]), k) + cy);
    assert(count_kind(yx, k) == count_kind(pre.push(s[j + 1]), k) + cx);
    lemma_count_append(xy, post, k);
    lemma_count_append(yx, post, k);
}

/// A prefix holds no more edges of a kind than the whole.
pub proof fn lemma_count_prefix_le(s: Seq<BoundEdge>, i: int, k: EdgeType)
    requires
        0 <= i <= s.len(),
    ensures
        count_kind(s.take(i), k) <= count_kind(s, k),
{
    assert(s =~= s.take(i) + s.skip(i));
    lemma_count_append(s.take(i), s.skip(i), k);
}

pub proof fn lemma_edge_order_total(a: BoundEdge, b: BoundEdge)
    ensures
        edge_le(a, b) || edge_le(b, a),
        edge_le(a, b) && edge_le(b, a) ==> a == b,
{
}

/// The sweep order is one fixed strict order: of two different edges exactly
/// one comes first, and at one position a start edge comes before an end
/// edge.
pub proof fn lemma_edge_tie_break(a: BoundEdge, b: BoundEdge)
    ensures
        a != b ==> (edge_lt(a, b) || edge_lt(b, a)),
        !(edge_lt(a, b) && edge_lt(b, a)),
        !edge_lt(a, a),
        a.t == b.t && a.edge_type == EdgeType::Start && b.edge_type == EdgeType::End ==> edge_lt(a, b),
        a.t == b.t && a.edge_type == b.edge_type ==> (edge_lt(a, b) <==> a.prim_num < b.prim_num),
{
}

pub proof fn lemma_edge_order_transitive(a: BoundEdge, b: BoundEdge, c: BoundEdge)
    requires
        edge_le(a, b),
        edge_le(b, c),
    ensures
        edge_le(a, c),
{
}

/// `s` with `x` inserted after the last edge that does not follow it.
pub open spec fn spec_insert(s: Seq<BoundEdge>, x: BoundEdge) -> Seq<BoundEdge>
    decreases s.len(),
{
    if s.len() == 0 {
        seq![x]
    } else if edge_lt(x, s.last()) {
        spec_insert(s.drop_last(), x).push(s.last())
    } else {
        s.push(x)
    }
}

/// `s` sorted into the edge order.
pub open spec fn spec_sort(s: Seq<BoundEdge>) -> Seq<BoundEdge>
    decreases s.len(),
{
    if s.len() == 0 {
        s
    } else {
        spec_insert(spec_sort(s.drop_last()), s.last())
    }
}

/// Sorts `v` into the edge order in place. Only neighbours are exchanged, so
/// the edges and the count of each kind stay as they were.
pub fn sort_edges(v: &mut Vec<BoundEdge>)
    ensures
        final(v)@ == spec_sort(old(v)@),
        final(v)@.len() == old(v)@.len(),
        is_sorted(final(v)@),
        forall|e: BoundEdge| old(v)@.contains(e) ==> final(v)@.contains(e),
        forall|e: BoundEdge| final(v)@.contains(e) ==> old(v)@.contains(e),
        count_kind(final(v)@, EdgeType::Start) == count_kind(old(v)@, EdgeType::Start),
        count_kind(final(v)@, EdgeType::End) == count_kind(old(v)@, EdgeType::End),
{
    let n = v.len();
    if n == 0 {
        proof {
            assert(v@ =~= spec_sort(old(v)@));
        }
        return;
    }
    proof {
        let o = old(v)@;
        if n > 0 {
            assert(o.take(1).drop_last() =~= Seq::<BoundEdge>::empty());
            assert(o.take(1) =~= seq![o[0]]);
            assert(spec_sort(o.take(0)) =~= Seq::<BoundEdge>::empty()) by {
                assert(o.take(0) =~= Seq::<BoundEdge>::empty());
            }
            assert(spec_sort(o.take(1)) == spec_insert(spec_sort(o.take(0)), o[0]));
            assert(v@.take(1) =~= spec_sort(o.take(1)));
        }
    }
    let mut i: usize = 1;
    while i < n
        invariant
            n == v@.len(),
            n == old(v)@.len(),
            1 <= i || n == 0,
            i <= n || n == 0,
            v@.take(i as int) == spec_sort(old(v)@.take(i as int)),
            v@.skip(i as int) == old(v)@.skip(i as int),
            forall|a: int, b: int| 0 <= a < b < i && b < n ==> edge_le(#[trigger] v@[a], #[trigger] v@[b]),
            forall|e: BoundEdge| old(v)@.contains(e) ==> v@.contains(e),
            forall|e: BoundEdge| v@.contains(e) ==> old(v)@.contains(e),
            count_kind(v@, EdgeType::Start) == count_kind(old(v)@, EdgeType::Start),
            count_kind(v@, EdgeType::End) == count_kind(old(v)@, EdgeType::End),
        decreases n - i,
    {
        let ghost p = v@.take(i as int);
        let ghost x = v@[i as int];
        proof {
            assert(x == old(v)@[i as int]) by {
                assert(v@.skip(i as int)[0] == old(v)@.skip(i as int)[0]);
            }
            assert(p.take(i as int) =~= p);
            assert(v@.skip(i + 1) =~= v@.skip(i as int).skip(1));
            assert(old(v)@.skip(i + 1) =~= old(v)@.skip(i as int).skip(1));
            assert(p.subrange(i as int, i as int) =~= Seq::<BoundEdge>::empty());
            assert(spec_insert(p, x) =~= spec_insert(p.take(i as int), x) + p.subrange(i as int, i as int));
            assert(v@.subrange(i + 1, i + 1) =~= p.subrange(i as int, i as int));
        }
        let mut j: usize = i;
        while j > 0 && edge_less(&v[j], &v[j - 1])
            invariant
                n == v@.len(),
                v@.skip(i + 1) == old(v)@.skip(i + 1),
                v@[j as int] == x,
                v@.take(j as int) == p.take(j as int),
                v@.subrange(j + 1, i + 1) == p.subrange(j as int, i as int),
                spec_insert(p, x) == spec_insert(p.take(j as int), x) + p.subrange(j as int, i as int),
                p.len() == i,
                0 <= j <= i < n,
                forall|a: int, b: int| 0 <= a < b <= i && a != j && b != j ==> edge_le(#[trigger] v@[a], #[trigger] v@[b]),
                forall|b: int| j < b <= i ==> edge_lt(v@[j as int], #[trigger] v@[b]),
                forall|e: BoundEdge| old(v)@.contains(e) ==> v@.contains(e),
                forall|e: BoundEdge| v@.contains(e) ==> old(v)@.contains(e),
                count_kind(v@, EdgeType::Start) == count_kind(old(v)@, EdgeType::Start),
                count_kind(v@, EdgeType::End) == count_kind(old(v)@, EdgeType::End),
            decreases j,
        {
            let ghost s = v@;
            let x = v[j - 1];
            let y = v[j];
            v[j - 1] = y;
            v[j] = x;
            proof {
                assert(v@ =~= s.update(j - 1, s[j as int]).update(j as int, s[j - 1]));
                assert(v@.skip(i + 1) =~= s.skip(i + 1));
                assert(v@.take(j - 1) =~= p.take(j - 1));
                assert(s[j - 1] == p[j - 1]) by {
                    assert(s.take(j as int)[j - 1] == p.take(j as int)[j - 1]);
                }
                assert(v@.subrange(j as int, i + 1) =~= p.subrange(j - 1, i as int)) by {
                    assert forall|k: int| 0 <= k < i + 1 - j implies #[trigger] v@.subrange(j as int, i + 1)[k] == p.subrange(j - 1, i as int)[k] by {
                        if k > 0 {
                            assert(s.subrange(j + 1, i + 1)[k - 1] == p.subrange(j as int, i as int)[k - 1]);
                        }
                    }
                }
                assert(p.take(j as int).drop_last() =~= p.take(j - 1));
                assert(spec_insert(p.take(j as int), x) == spec_insert(p.take(j - 1), x).push(p[j - 1]));
                assert(spec_insert(p.take(j - 1), x).push(p[j - 1]) + p.subrange(j as int, i as int) =~= spec_insert(p.take(j - 1), x) + p.subrange(j - 1, i as int));
                lemma_count_swap(s, j - 1, EdgeType::Start);
                lemma_count_swap(s, j - 1, EdgeType::End);
                assert forall|e: BoundEdge| old(v)@.contains(e) implies v@.contains(e) by {
                    let k = choose|k: int| 0 <= k < s.len() && s[k] == e;
                    if k == j - 1 {
                        assert(v@[j as int] == e);
                    } else if k == j {
                        assert(v@[j - 1] == e);
                    } else {
                        assert(v@[k] == e);
                    }
                }
                assert forall|e: BoundEdge| v@.contains(e) implies old(v)@.contains(e) by {
                    let k = choose|k: int| 0 <= k < v@.len() && v@[k] == e;
                    if k == j - 1 {
                        assert(s[j as int] == e);
                    } else if k == j {
                        assert(s[j - 1] == e);
                    } else {
                        assert(s[k] == e);
                    }
                }
                assert forall|a: int, b: int| 0 <= a < b <= i && a != j - 1 && b != j - 1 implies edge_le(#[trigger] v@[a], #[trigger] v@[b]) by {
                    if b == j {
                        if a < j - 1 {
                            lemma_edge_order_total(s[a], s[j - 1]);
                        }
                    } else if a == j {
                        assert(edge_le(s[j - 1], s[b]));
                    }
                }
                assert forall|b: int| j - 1 < b <= i implies edge_lt(v@[j - 1], #[trigger] v@[b]) by {
                    if b == j {
                    } else {
                        assert(edge_lt(s[j as int], s[b]));
                        lemma_edge_order_total(s[j as int], s[b]);
                    }
                }
            }
            j = j - 1;
        }
        proof {
            let o = old(v)@;
            assert(o.take(i + 1).drop_last() =~= o.take(i as int));
            assert(o.take(i + 1).last() == x);
            assert(spec_sort(o.take(i + 1)) == spec_insert(p, x));
            if j == 0 {
                assert(p.take(0) =~= Seq::<BoundEdge>::empty());
                assert(p.subrange(0, i as int) =~= p);
                assert(v@.take(i + 1) =~= seq![x] + p) by {
                    assert forall|k: int| 0 <= k < i + 1 implies #[trigger] v@.take(i + 1)[k] == (seq![x] + p)[k] by {
                        if k > 0 {
                            assert(v@.subrange(1, i + 1)[k - 1] == p.subrange(0, i as int)[k - 1]);
                        }
                    }
                }
            } else {
                assert(!edge_lt(x, p[j - 1]));
                assert(p.take(j as int).last() == p[j - 1]);
                assert(spec_insert(p.take(j as int), x) == p.take(j as int).push(x));
                assert(v@.take(i + 1) =~= p.take(j as int).push(x) + p.subrange(j as int, i as int)) by {
                    assert forall|k: int| 0 <= k < i + 1 implies #[trigger] v@.take(i + 1)[k] == (p.take(j as int).push(x) + p.subrange(j as int, i as int))[k] by {
                        if k < j {
                            assert(v@.take(j as int)[k] == p.take(j as int)[k]);
                        } else if k > j {
                            assert(v@.subrange(j + 1, i + 1)[k - j - 1] == p.subrange(j as int, i as int)[k - j - 1]);
                        }
                    }
                }
            }
            assert(v@.skip(i + 1) =~= o.skip(i + 1));
        }
        proof {
            assert forall|a: int, b: int| 0 <= a < b < i + 1 && b < n implies edge_le(#[trigger] v@[a], #[trigger] v@[b]) by {
                if a == j {
                    lemma_edge_order_total(v@[a], v@[b]);
                } else if b == j {
                    lemma_edge_order_total(v@[j - 1], v@[b]);
                    if a < j - 1 {
                        lemma_edge_order_transitive(v@[a], v@[j - 1], v@[b]);
                    }
                }
            }
        }
        i = i + 1;
    }
    proof {
        if n > 0 {
            assert(v@.take(n as int) =~= v@);
            assert(old(v)@.take(n as int) =~= old(v)@);
        } else {
            assert(v@ =~= old(v)@);
        }
    }
}

} // verus!
