//! What a dependency order says about a graph: paths, cycles, and the laws
//! that tie them to the orders that the graph computes.

use crate::graph::{comes_before, GraphView};
use vstd::prelude::*;

verus! {

/// Whether `p` walks along edges: each of its vertices has an edge to the
/// next one.
pub open spec fn is_path(g: GraphView, p: Seq<i32>) -> bool {
    &&& p.len() >= 1
    &&& forall|i: int| 0 <= i < p.len() - 1 ==> g.has_edge(#[trigger] p[i], p[i + 1])
}

/// Whether `c` walks along at least one edge and ends where it began.
pub open spec fn is_cycle(g: GraphView, c: Seq<i32>) -> bool {
    &&& is_path(g, c)
    &&& c.len() >= 2
    &&& c.first() == c.last()
}

/// Whether the graph has no cycle.
pub open spec fn is_acyclic(g: GraphView) -> bool {
    forall|c: Seq<i32>| !is_cycle(g, c)
}

/// Whether `v` lies on a cycle or can be reached from one.
pub open spec fn depends_on_cycle(g: GraphView, v: i32) -> bool {
    exists|c: Seq<i32>, p: Seq<i32>|
        #[trigger] is_cycle(g, c) && #[trigger] is_path(g, p) && p.first() == c.first() && p.last()
            == v
}

/// A walk of `extra + 1` vertices that ends at `v` and passes only through
/// vertices that `order` leaves out.
proof fn lemma_left_out_walk(g: GraphView, order: Seq<i32>, v: i32, extra: nat) -> (p: Seq<i32>)
    requires
        g.is_dependency_order(order),
        g.contains(v),
        !order.contains(v),
    ensures
        p.len() == extra + 1,
        is_path(g, p),
        p.last() == v,
        forall|i: int| 0 <= i < p.len() ==> g.contains(#[trigger] p[i]) && !order.contains(p[i]),
    decreases extra,
{
    if extra == 0 {
        seq![v]
    } else {
        let q = lemma_left_out_walk(g, order, v, (extra - 1) as nat);
        let head = q[0];
        assert(g.contains(head) && !order.contains(head));
        let u = choose|u: i32| #[trigger] g.has_edge(u, head) && !order.contains(u);
        let p = seq![u] + q;
        assert forall|i: int| 0 <= i < p.len() - 1 implies g.has_edge(#[trigger] p[i], p[i + 1]) by {
            if i > 0 {
                assert(p[i] == q[i - 1]);
                assert(p[i + 1] == q[i - 1 + 1]);
            }
        }
        p
    }
}

/// No vertex of a cycle stands among the first `upto` vertices of a
/// dependency order.
proof fn lemma_cycle_left_out(g: GraphView, order: Seq<i32>, c: Seq<i32>, upto: int)
    requires
        g.is_dependency_order(order),
        is_cycle(g, c),
        0 <= upto <= order.len(),
    ensures
        forall|i: int, k: int| 0 <= i < upto && 0 <= k < c.len() ==> order[i] != c[k],
    decreases upto,
{
    if upto > 0 {
        lemma_cycle_left_out(g, order, c, upto - 1);
        let i = upto - 1;
        assert forall|k: int| 0 <= k < c.len() implies order[i] != c[k] by {
            if order[i] == c[k] {
                let before = if k > 0 {
                    k - 1
                } else {
                    c.len() - 2
                };
                assert(g.has_edge(c[before], c[before + 1]));
                assert(g.has_edge(c[before], order[i]));
                let j = choose|j: int| 0 <= j < i && order[j] == c[before];
                assert(order[j] != c[before]);
            }
        }
    }
}

/// A dependency order that holds a vertex of a walk holds the walk's start.
proof fn lemma_walk_start_ordered(g: GraphView, order: Seq<i32>, p: Seq<i32>, k: int)
    requires
        g.is_dependency_order(order),
        is_path(g, p),
        0 <= k < p.len(),
        order.contains(p[k]),
    ensures
        order.contains(p[0]),
    decreases k,
{
    if k > 0 {
        let i = choose|i: int| 0 <= i < order.len() && order[i] == p[k];
        assert(g.has_edge(p[k - 1], p[k - 1 + 1]));
        assert(g.has_edge(p[k - 1], order[i]));
        let j = choose|j: int| 0 <= j < i && order[j] == p[k - 1];
        lemma_walk_start_ordered(g, order, p, k - 1);
    }
}

/// A walk over more vertices than the graph has passes some vertex twice.
proof fn lemma_long_walk_repeats(g: GraphView, p: Seq<i32>) -> (at: (int, int))
    requires
        g.wf(),
        p.len() > g.ids.len(),
        forall|i: int| 0 <= i < p.len() ==> g.contains(#[trigger] p[i]),
    ensures
        0 <= at.0 < at.1 < p.len(),
        p[at.0] == p[at.1],
{
    if p.no_duplicates() {
        p.unique_seq_to_set();
        g.ids.unique_seq_to_set();
        assert forall|x: i32| p.to_set().contains(x) implies g.ids.to_set().contains(x) by {
            let i = choose|i: int| 0 <= i < p.len() && p[i] == x;
            assert(g.contains(p[i]));
        }
        vstd::set_lib::lemma_len_subset(p.to_set(), g.ids.to_set());
    }
    let (i, j) = choose|i: int, j: int|
        0 <= i < p.len() && 0 <= j < p.len() && i != j && p[i] == p[j];
    if i < j {
        (i, j)
    } else {
        (j, i)
    }
}

/// The end of a walk that passes a vertex twice depends on a cycle.
proof fn lemma_repeat_closes_cycle(g: GraphView, p: Seq<i32>, lo: int, hi: int)
    requires
        is_path(g, p),
        0 <= lo < hi < p.len(),
        p[lo] == p[hi],
    ensures
        depends_on_cycle(g, p.last()),
{
    let c = p.subrange(lo, hi + 1);
    let rest = p.subrange(hi, p.len() as int);
    assert forall|k: int| 0 <= k < c.len() - 1 implies g.has_edge(#[trigger] c[k], c[k + 1]) by {
        assert(g.has_edge(p[lo + k], p[lo + k + 1]));
    }
    assert forall|k: int| 0 <= k < rest.len() - 1 implies g.has_edge(
        #[trigger] rest[k],
        rest[k + 1],
    ) by {
        assert(g.has_edge(p[hi + k], p[hi + k + 1]));
    }
    assert(is_cycle(g, c));
    assert(is_path(g, rest));
    assert(rest.first() == c.first() && rest.last() == p.last());
}

/// A dependency order holds no vertex that depends on a cycle.
proof fn lemma_cycles_left_out(g: GraphView, order: Seq<i32>, v: i32)
    requires
        g.is_dependency_order(order),
        depends_on_cycle(g, v),
    ensures
        !order.contains(v),
{
    let (c, p) = choose|c: Seq<i32>, p: Seq<i32>|
        #[trigger] is_cycle(g, c) && #[trigger] is_path(g, p) && p.first() == c.first() && p.last()
            == v;
    if order.contains(v) {
        lemma_walk_start_ordered(g, order, p, p.len() - 1);
        let i = choose|i: int| 0 <= i < order.len() && order[i] == p[0];
        lemma_cycle_left_out(g, order, c, order.len() as int);
        assert(order[i] != c[0]);
    }
}

/// A dependency order holds exactly the vertices that do not depend on a
/// cycle: the sort of a graph with cycles stops short of them and of all
/// that follows from them, and of nothing else.
pub proof fn lemma_order_holds_what_is_free_of_cycles(g: GraphView, order: Seq<i32>, v: i32)
    requires
        g.wf(),
        g.is_dependency_order(order),
        g.contains(v),
    ensures
        order.contains(v) <==> !depends_on_cycle(g, v),
{
    if depends_on_cycle(g, v) {
        lemma_cycles_left_out(g, order, v);
    }
    if !order.contains(v) {
        let p = lemma_left_out_walk(g, order, v, g.ids.len());
        let (lo, hi) = lemma_long_walk_repeats(g, p);
        lemma_repeat_closes_cycle(g, p, lo, hi);
    }
}

/// The sort of a graph without cycles is a permutation of its vertices in
/// which the source of every edge stands before its target.
pub proof fn lemma_order_of_acyclic_graph(g: GraphView, order: Seq<i32>)
    requires
        g.wf(),
        is_acyclic(g),
        g.is_dependency_order(order),
    ensures
        order.to_multiset() == g.ids.to_multiset(),
        forall|i: int, j: int|
            0 <= i < order.len() && 0 <= j < order.len() && g.has_edge(order[i], order[j]) ==> i
                < j,
{
    lemma_edges_point_forward(g, order);
    assert forall|v: i32| order.contains(v) <==> g.ids.contains(v) by {
        if g.contains(v) {
            lemma_order_holds_what_is_free_of_cycles(g, order, v);
        }
        if order.contains(v) {
            let i = choose|i: int| 0 <= i < order.len() && order[i] == v;
            assert(g.contains(order[i]));
        }
    }
    lemma_same_elements_same_multiset(order, g.ids);
}

/// In every dependency order the source of an edge between two of its
/// vertices stands before the target.
pub proof fn lemma_edges_point_forward(g: GraphView, order: Seq<i32>)
    requires
        g.is_dependency_order(order),
    ensures
        forall|i: int, j: int|
            0 <= i < order.len() && 0 <= j < order.len() && g.has_edge(order[i], order[j]) ==> i
                < j,
{
    assert forall|i: int, j: int|
        0 <= i < order.len() && 0 <= j < order.len() && g.has_edge(
            order[i],
            order[j],
        ) implies i < j by {
        let k = choose|k: int| 0 <= k < j && order[k] == order[i];
        assert(k == i);
    }
}

/// Two sequences without duplicates that hold the same elements are
/// permutations of each other.
proof fn lemma_same_elements_same_multiset(a: Seq<i32>, b: Seq<i32>)
    requires
        a.no_duplicates(),
        b.no_duplicates(),
        forall|v: i32| a.contains(v) <==> b.contains(v),
    ensures
        a.to_multiset() == b.to_multiset(),
{
    broadcast use vstd::seq_lib::group_to_multiset_ensures;

    a.lemma_multiset_has_no_duplicates();
    b.lemma_multiset_has_no_duplicates();
    assert forall|v: i32| a.to_multiset().count(v) == b.to_multiset().count(v) by {
        assert(a.contains(v) <==> a.to_multiset().count(v) > 0);
        assert(b.contains(v) <==> b.to_multiset().count(v) > 0);
    }
    assert(a.to_multiset() =~= b.to_multiset());
}

/// The last source of a vertex is found at the same place in two orders
/// that agree up to `upto`.
proof fn lemma_last_source_agrees(g: GraphView, a: Seq<i32>, b: Seq<i32>, v: i32, upto: int)
    requires
        upto <= a.len(),
        upto <= b.len(),
        forall|i: int| 0 <= i < upto ==> a[i] == b[i],
    ensures
        g.last_source(a, v, upto) == g.last_source(b, v, upto),
    decreases upto,
{
    if upto > 0 {
        assert(a[upto - 1] == b[upto - 1]);
        lemma_last_source_agrees(g, a, b, v, upto - 1);
    }
}

/// Vertices that have no edge to `v` do not change where its last source
/// is found.
proof fn lemma_last_source_skips(g: GraphView, order: Seq<i32>, v: i32, lo: int, hi: int)
    requires
        0 <= lo <= hi,
        forall|i: int| lo <= i < hi ==> !g.has_edge(#[trigger] order[i], v),
    ensures
        g.last_source(order, v, hi) == g.last_source(order, v, lo),
    decreases hi - lo,
{
    if lo < hi {
        assert(!g.has_edge(order[hi - 1], v));
        lemma_last_source_skips(g, order, v, lo, hi - 1);
    }
}

/// A vertex that stands right behind what two dependency orders have in
/// common in the one became free at the same time in the other.
proof fn lemma_freed_at_agrees(g: GraphView, a: Seq<i32>, b: Seq<i32>, k: int, m: int)
    requires
        g.is_dependency_order(a),
        g.is_dependency_order(b),
        0 <= k < a.len(),
        k <= m < b.len(),
        forall|i: int| 0 <= i < k ==> a[i] == b[i],
        b[m] == a[k],
    ensures
        g.freed_at(b, m) == g.freed_at(a, k),
{
    let x = a[k];
    assert forall|i: int| k <= i < m implies !g.has_edge(#[trigger] b[i], x) by {
        if g.has_edge(b[i], x) {
            assert(g.has_edge(b[i], a[k]));
            let j = choose|j: int| 0 <= j < k && a[j] == b[i];
            assert(b[j] == b[i]);
        }
    }
    lemma_last_source_skips(g, b, x, k, m);
    lemma_last_source_agrees(g, a, b, x, k);
    let last = g.last_source(a, x, k);
    if last >= 0 {
        lemma_last_source_below(g, a, x, k);
        assert(a[last] == b[last]);
    }
}

/// The last source of a vertex below `upto` stands below `upto`.
proof fn lemma_last_source_below(g: GraphView, order: Seq<i32>, v: i32, upto: int)
    ensures
        -1 <= g.last_source(order, v, upto),
        g.last_source(order, v, upto) < upto || upto <= 0,
    decreases upto,
{
    if upto > 0 {
        lemma_last_source_below(g, order, v, upto - 1);
    }
}

/// Two orders in which the vertices of a graph became free agree in their
/// first `upto` places.
proof fn lemma_kahn_orders_agree(g: GraphView, a: Seq<i32>, b: Seq<i32>, upto: int)
    requires
        g.is_kahn_order(a),
        g.is_kahn_order(b),
        forall|v: i32| a.contains(v) <==> b.contains(v),
        0 <= upto <= a.len(),
    ensures
        upto <= b.len(),
        forall|i: int| 0 <= i < upto ==> a[i] == b[i],
    decreases upto,
{
    if upto > 0 {
        lemma_kahn_orders_agree(g, a, b, upto - 1);
        let k = upto - 1;
        let x = a[k];
        assert(a.contains(x));
        let m = choose|m: int| 0 <= m < b.len() && b[m] == x;
        if m < k {
            assert(a[m] == b[m]);
        }
        assert(k <= m);
        let y = b[k];
        if y != x {
            assert(b.contains(y));
            let w = choose|w: int| 0 <= w < a.len() && a[w] == y;
            if w < k {
                assert(a[w] == b[w]);
            }
            assert(k < w && k < m);
            assert forall|i: int| 0 <= i < k implies b[i] == a[i] by {}
            lemma_freed_at_agrees(g, a, b, k, m);
            lemma_freed_at_agrees(g, b, a, k, w);
            assert(comes_before(g.freed_at(a, k), g.freed_at(a, w))) by {
                assert(a[k] == x && a[w] == y);
            }
            assert(comes_before(g.freed_at(b, k), g.freed_at(b, m))) by {
                assert(b[k] == y && b[m] == x);
            }
        }
    }
}

/// The order in which the vertices of a graph became free is determined by
/// the graph: the sort gives the same order whenever it is asked.
pub proof fn lemma_kahn_order_is_unique(g: GraphView, a: Seq<i32>, b: Seq<i32>)
    requires
        g.wf(),
        g.is_kahn_order(a),
        g.is_kahn_order(b),
    ensures
        a == b,
{
    assert forall|v: i32| a.contains(v) <==> b.contains(v) by {
        if a.contains(v) {
            let i = choose|i: int| 0 <= i < a.len() && a[i] == v;
            assert(g.contains(a[i]));
        }
        if b.contains(v) {
            let i = choose|i: int| 0 <= i < b.len() && b[i] == v;
            assert(g.contains(b[i]));
        }
        if g.contains(v) {
            lemma_order_holds_what_is_free_of_cycles(g, a, v);
            lemma_order_holds_what_is_free_of_cycles(g, b, v);
        }
    }
    lemma_kahn_orders_agree(g, a, b, a.len() as int);
    lemma_kahn_orders_agree(g, b, a, b.len() as int);
    assert(a =~= b);
}

} // verus!
