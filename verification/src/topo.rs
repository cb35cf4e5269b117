//! The deterministic topological scheduler.
//!
//! Blocks are ordered by Kahn's algorithm over the live connections, with
//! a deterministic tie-break: ready nodes are taken top-to-bottom, then
//! left-to-right, then by identity. Ready nodes freed by one emission are
//! appended as one key-sorted wave, so the order depends only on the set
//! of placed blocks and the set of live edges — never on insertion
//! history.

use vstd::prelude::*;
use vstd::relations::{sorted_by, total_ordering};
use vstd::seq_lib::lemma_sorted_unique;

verus! {

/// What the scheduler reads of a block: its identity and placement.
#[derive(Debug, Clone, Copy, PartialEq, Eq, Structural)]
pub struct Node {
    pub id: u128,
    pub x: i64,
    pub y: i64,
}

/// The scheduling key order: top-to-bottom, left-to-right, then identity.
pub open spec fn key_le(a: Node, b: Node) -> bool {
    ||| a.y < b.y
    ||| (a.y == b.y && a.x < b.x)
    ||| (a.y == b.y && a.x == b.x && a.id <= b.id)
}

/// The key order as a relation value.
pub open spec fn key_order() -> spec_fn(Node, Node) -> bool {
    |a: Node, b: Node| key_le(a, b)
}

/// The scheduling key order is total.
pub proof fn lemma_key_order_total()
    ensures
        total_ordering(key_order()),
{
    assert forall|a: Node, b: Node| #[trigger] key_order()(a, b) && key_order()(b, a)
        implies a == b by {
        assert(a.y == b.y && a.x == b.x && a.id == b.id);
    }
}

/// Key comparison.
pub fn node_le(a: &Node, b: &Node) -> (r: bool)
    ensures
        r == key_le(*a, *b),
{
    a.y < b.y || (a.y == b.y && a.x < b.x) || (a.y == b.y && a.x == b.x && a.id <= b.id)
}

/// Sorts nodes by the scheduling key; the result is the key-sorted
/// arrangement of the same nodes.
pub fn sort_nodes(nodes: Vec<Node>) -> (r: Vec<Node>)
    ensures
        sorted_by(r@, key_order()),
        r@.to_multiset() == nodes@.to_multiset(),
        r@.len() == nodes@.len(),
{
    broadcast use vstd::seq_lib::group_to_multiset_ensures;

    let mut src = nodes;
    let mut out: Vec<Node> = Vec::new();
    proof {
        assert(out@.to_multiset().add(src@.to_multiset()) =~= nodes@.to_multiset());
    }
    while src.len() > 0
        invariant
            forall|i: int, j: int| 0 <= i < j < out@.len() ==> key_le(out@[i], out@[j]),
            forall|i: int, j: int|
                0 <= i < out@.len() && 0 <= j < src@.len() ==> key_le(out@[i], src@[j]),
            out@.to_multiset().add(src@.to_multiset()) == nodes@.to_multiset(),
            out@.len() + src@.len() == nodes@.len(),
        decreases src@.len(),
    {
        broadcast use vstd::seq_lib::group_to_multiset_ensures;

        let mut m: usize = 0;
        let mut i: usize = 1;
        while i < src.len()
            invariant
                src@.len() > 0,
                m < i <= src@.len(),
                forall|k: int| 0 <= k < i ==> key_le(src@[m as int], src@[k]),
            decreases src@.len() - i,
        {
            if node_le(&src[i], &src[m]) {
                proof {
                    lemma_key_order_total();
                    assert forall|k: int| 0 <= k < i + 1 implies key_le(
                        src@[i as int],
                        src@[k],
                    ) by {
                        if k < i {
                            assert(key_le(src@[m as int], src@[k]));
                        }
                    }
                }
                m = i;
            }
            i += 1;
        }
        let ghost old_src = src@;
        let ghost old_out = out@;
        let x = src.remove(m);
        out.push(x);
        proof {
            assert(old_src.remove(m as int).to_multiset() =~= old_src.to_multiset().remove(x));
            assert(old_out.push(x).to_multiset() =~= old_out.to_multiset().insert(x));
            assert(out@.to_multiset().add(src@.to_multiset()) =~= nodes@.to_multiset());
            assert forall|i2: int, j2: int|
                0 <= i2 < out@.len() && 0 <= j2 < src@.len() implies key_le(
                out@[i2],
                src@[j2],
            ) by {
                let orig: int = if j2 < m { j2 } else { j2 + 1 };
                assert(src@[j2] == old_src[orig]);
                if i2 < out@.len() - 1 {
                    assert(key_le(out@[i2], x));
                } else {
                    assert(out@[i2] == x);
                    assert(key_le(x, old_src[orig]));
                }
            }
            assert forall|i2: int, j2: int|
                0 <= i2 < j2 < out@.len() implies key_le(out@[i2], out@[j2]) by {
                if j2 < out@.len() - 1 {
                    assert(key_le(out@[i2], out@[j2]));
                } else {
                    assert(out@[j2] == x);
                    if i2 < out@.len() - 1 {
                        assert(old_src.to_multiset().contains(x));
                        assert(old_src.contains(x));
                        let w = choose|w: int| 0 <= w < old_src.len() && old_src[w] == x;
                        assert(key_le(old_out[i2], old_src[w]));
                    } else {
                        lemma_key_order_total();
                    }
                }
            }
        }
    }
    proof {
        assert(src@.to_multiset().len() == 0);
        assert(out@.to_multiset() =~= nodes@.to_multiset());
        assert forall|i: int, j: int|
            0 <= i < j < out@.len() implies #[trigger] key_order()(out@[i], out@[j]) by {
            assert(key_le(out@[i], out@[j]));
        }
    }
    out
}

/// The identities of a node list, in order.
pub open spec fn ids_of(nodes: Seq<Node>) -> Seq<u128> {
    nodes.map_values(|n: Node| n.id)
}

/// Whether every predecessor of `v` along `edges` stands in `emitted`.
pub open spec fn preds_in(edges: Set<(u128, u128)>, emitted: Seq<u128>, v: u128) -> bool {
    forall|u: u128| #[trigger] edges.contains((u, v)) ==> emitted.contains(u)
}

/// The wave of nodes freed by emitting `order[qi]`: the nodes, in key
/// order, led to only from emitted nodes, not yet scheduled.
pub open spec fn wave_of(
    nodes: Seq<Node>,
    edges: Set<(u128, u128)>,
    order: Seq<u128>,
    qi: int,
) -> Seq<u128>
    decreases nodes.len(),
{
    if nodes.len() == 0 {
        Seq::empty()
    } else {
        let rest = wave_of(nodes.drop_last(), edges, order, qi);
        let v = nodes.last();
        if edges.contains((order[qi], v.id)) && !order.contains(v.id) && preds_in(
            edges,
            order.subrange(0, qi + 1),
            v.id,
        ) {
            rest.push(v.id)
        } else {
            rest
        }
    }
}

/// The nodes with no inbound live edge, in key order: the scheduler's
/// starting queue.
pub open spec fn seeds_of(nodes: Seq<Node>, edges: Set<(u128, u128)>) -> Seq<u128>
    decreases nodes.len(),
{
    if nodes.len() == 0 {
        Seq::empty()
    } else {
        let rest = seeds_of(nodes.drop_last(), edges);
        let v = nodes.last();
        if preds_in(edges, Seq::empty(), v.id) {
            rest.push(v.id)
        } else {
            rest
        }
    }
}

/// The scheduler's run: the queue is also the result; `qi` points at the
/// next node to process, and each processed node appends its wave.
pub open spec fn run_from(
    nodes: Seq<Node>,
    edges: Set<(u128, u128)>,
    order: Seq<u128>,
    qi: int,
    fuel: nat,
) -> Seq<u128>
    decreases fuel,
{
    if fuel == 0 || qi >= order.len() {
        order
    } else {
        run_from(nodes, edges, order + wave_of(nodes, edges, order, qi), qi + 1, (fuel - 1) as nat)
    }
}

/// The execution order of a key-sorted node list over a live edge set.
pub open spec fn spec_topo(nodes: Seq<Node>, edges: Set<(u128, u128)>) -> Seq<u128> {
    run_from(nodes, edges, seeds_of(nodes, edges), 0, nodes.len())
}

/// Whether the prefix `order[0..upto]` carries `x`.
fn prefix_contains(order: &Vec<u128>, upto: usize, x: u128) -> (r: bool)
    requires
        upto <= order@.len(),
    ensures
        r == order@.subrange(0, upto as int).contains(x),
{
    let mut i: usize = 0;
    while i < upto
        invariant
            upto <= order@.len(),
            i <= upto,
            forall|k: int| 0 <= k < i ==> order@[k] != x,
        decreases upto - i,
    {
        if order[i] == x {
            proof {
                assert(order@.subrange(0, upto as int)[i as int] == x);
            }
            return true;
        }
        i += 1;
    }
    proof {
        assert forall|k: int|
            0 <= k < upto implies order@.subrange(0, upto as int)[k] != x by {}
    }
    false
}

/// Whether every predecessor of `v` stands in `order[0..upto]`.
fn preds_emitted(edges: &Vec<(u128, u128)>, order: &Vec<u128>, upto: usize, v: u128) -> (r: bool)
    requires
        upto <= order@.len(),
    ensures
        r == preds_in(edges@.to_set(), order@.subrange(0, upto as int), v),
{
    let mut e: usize = 0;
    while e < edges.len()
        invariant
            upto <= order@.len(),
            e <= edges@.len(),
            forall|k: int|
                0 <= k < e && (#[trigger] edges@[k]).1 == v ==> order@.subrange(
                    0,
                    upto as int,
                ).contains(edges@[k].0),
        decreases edges@.len() - e,
    {
        if edges[e].1 == v {
            if !prefix_contains(order, upto, edges[e].0) {
                proof {
                    assert(edges@.contains(edges@[e as int]));
                    assert(edges@.to_set().contains((edges@[e as int].0, v)));
                }
                return false;
            }
        }
        e += 1;
    }
    proof {
        assert forall|u: u128| #[trigger]
            edges@.to_set().contains((u, v)) implies order@.subrange(0, upto as int).contains(
            u,
        ) by {
            assert(edges@.contains((u, v)));
            let k = choose|k: int| 0 <= k < edges@.len() && edges@[k] == (u, v);
            assert(edges@[k].1 == v);
        }
    }
    true
}

/// Pairwise-distinct identities in a node list.
pub open spec fn unique_ids(nodes: Seq<Node>) -> bool {
    forall|i: int, j: int| 0 <= i < j < nodes.len() ==> nodes[i].id != nodes[j].id
}

/// A sequence without duplicates whose elements are all identities of a
/// duplicate-free node list is no longer than that list.
proof fn lemma_bounded_by_ids(order: Seq<u128>, nodes: Seq<Node>)
    requires
        order.no_duplicates(),
        unique_ids(nodes),
        forall|j: int| 0 <= j < order.len() ==> ids_of(nodes).contains(#[trigger] order[j]),
    ensures
        order.len() <= nodes.len(),
{
    broadcast use vstd::set_lib::group_set_lib_default;

    order.unique_seq_to_set();
    let ids = ids_of(nodes);
    assert(ids.no_duplicates());
    ids.unique_seq_to_set();
    assert forall|x: u128| order.to_set().contains(x) implies ids.to_set().contains(x) by {
        let j = choose|j: int| 0 <= j < order.len() && order[j] == x;
        assert(ids.contains(order[j]));
    }
    vstd::set_lib::lemma_len_subset(order.to_set(), ids.to_set());
}

/// Kahn's algorithm over a key-sorted node list and a live edge list.
/// The result is exactly the mathematical schedule of the node list over
/// the edge set.
pub fn kahn(nodes: &Vec<Node>, edges: &Vec<(u128, u128)>) -> (r: Vec<u128>)
    requires
        sorted_by(nodes@, key_order()),
        unique_ids(nodes@),
    ensures
        r@ == spec_topo(nodes@, edges@.to_set()),
{
    let ghost eset = edges@.to_set();
    let ghost nall = nodes@.len() as int;
    let mut order: Vec<u128> = Vec::new();

    // Seed with the nodes that no live edge leads into.
    let mut i: usize = 0;
    while i < nodes.len()
        invariant
            eset == edges@.to_set(),
            unique_ids(nodes@),
            i <= nodes@.len(),
            order@ == seeds_of(nodes@.subrange(0, i as int), eset),
            order@.no_duplicates(),
            forall|j: int|
                0 <= j < order@.len() ==> exists|k: int|
                    0 <= k < i && nodes@[k].id == #[trigger] order@[j],
        decreases nodes@.len() - i,
    {
        let ghost old_order = order@;
        let ready = preds_emitted(edges, &order, 0, nodes[i].id);
        proof {
            assert(order@.subrange(0, 0) =~= Seq::<u128>::empty());
            assert(ready == preds_in(eset, Seq::<u128>::empty(), nodes@[i as int].id));
        }
        if ready {
            proof {
                assert forall|j: int| 0 <= j < old_order.len() implies old_order[j]
                    != nodes@[i as int].id by {
                    let k = choose|k: int| 0 <= k < i && nodes@[k].id == old_order[j];
                }
            }
            order.push(nodes[i].id);
        }
        proof {
            let pre = nodes@.subrange(0, i as int);
            let cur = nodes@.subrange(0, i + 1);
            assert(cur.drop_last() =~= pre);
            assert(cur.last() == nodes@[i as int]);
            if ready {
                assert(seeds_of(cur, eset) =~= seeds_of(pre, eset).push(nodes@[i as int].id));
            } else {
                assert(seeds_of(cur, eset) =~= seeds_of(pre, eset));
            }
        }
        i += 1;
    }
    proof {
        assert(nodes@.subrange(0, nodes@.len() as int) =~= nodes@);
        assert forall|j: int|
            0 <= j < order@.len() implies ids_of(nodes@).contains(#[trigger] order@[j]) by {
            let k = choose|k: int| 0 <= k < nodes@.len() && nodes@[k].id == order@[j];
            assert(ids_of(nodes@)[k] == order@[j]);
        }
        lemma_bounded_by_ids(order@, nodes@);
    }

    let ghost seeds = order@;
    let mut qi: usize = 0;
    while qi < order.len()
        invariant
            eset == edges@.to_set(),
            sorted_by(nodes@, key_order()),
            unique_ids(nodes@),
            qi <= order@.len(),
            order@.len() <= nodes@.len(),
            order@.no_duplicates(),
            forall|j: int|
                0 <= j < order@.len() ==> ids_of(nodes@).contains(#[trigger] order@[j]),
            run_from(nodes@, eset, seeds, 0, nodes@.len() as nat) == run_from(
                nodes@,
                eset,
                order@,
                qi as int,
                (nodes@.len() - qi) as nat,
            ),
        decreases nodes@.len() - qi,
    {
        let n = order[qi];
        // Collect, in key order, the nodes this emission frees.
        let mut w: usize = 0;
        let ghost before = order@;
        while w < nodes.len()
            invariant
                eset == edges@.to_set(),
                unique_ids(nodes@),
                qi < before.len(),
                w <= nodes@.len(),
                order@.len() >= before.len(),
                before == order@.subrange(0, before.len() as int),
                n == before[qi as int],
                order@ == before + wave_of(nodes@.subrange(0, w as int), eset, before, qi as int),
                order@.no_duplicates(),
                forall|j: int|
                    before.len() <= j < order@.len() ==> exists|k: int|
                        0 <= k < w && nodes@[k].id == #[trigger] order@[j],
                forall|j: int|
                    0 <= j < order@.len() ==> ids_of(nodes@).contains(#[trigger] order@[j]),
            decreases nodes@.len() - w,
        {
            let v = nodes[w].id;
            let has_edge = {
                let mut found = false;
                let mut e: usize = 0;
                while e < edges.len()
                    invariant
                        e <= edges@.len(),
                        found == exists|k: int| 0 <= k < e && edges@[k] == (n, v),
                    decreases edges@.len() - e,
                {
                    if edges[e].0 == n && edges[e].1 == v {
                        found = true;
                    }
                    e += 1;
                }
                found
            };
            proof {
                assert(eset.contains((n, v)) == edges@.contains((n, v)));
                assert(has_edge == eset.contains((n, v)));
            }
            let already = {
                let mut found = false;
                let mut k: usize = 0;
                while k < order.len()
                    invariant
                        k <= order@.len(),
                        found == exists|j: int| 0 <= j < k && order@[j] == v,
                    decreases order@.len() - k,
                {
                    if order[k] == v {
                        found = true;
                    }
                    k += 1;
                }
                found
            };
            let take = if has_edge && !already {
                preds_emitted(edges, &order, qi + 1, v)
            } else {
                false
            };
            proof {
                assert(order@.subrange(0, qi + 1) =~= before.subrange(0, qi + 1));
                // The exec test agrees with the wave condition: a node
                // appended within this wave never shares the identity of
                // a later node.
                if already && !before.contains(v) {
                    let j = choose|j: int| 0 <= j < order@.len() && order@[j] == v;
                    assert(before.len() <= j);
                    let k = choose|k: int| 0 <= k < w && nodes@[k].id == order@[j];
                    assert(nodes@[k].id == nodes@[w as int].id);
                    assert(false);
                }
                if !already {
                    assert forall|j: int| 0 <= j < before.len() implies before[j] != v by {
                        assert(order@[j] == before[j]);
                    }
                    assert(!before.contains(v));
                }
            }
            if take {
                order.push(v);
                proof {
                    assert(ids_of(nodes@)[w as int] == v);
                }
            }
            proof {
                let pre = nodes@.subrange(0, w as int);
                let cur = nodes@.subrange(0, w + 1);
                assert(cur.drop_last() =~= pre);
                assert(cur.last() == nodes@[w as int]);
                let wv = wave_of(cur, eset, before, qi as int);
                if take {
                    assert(wv =~= wave_of(pre, eset, before, qi as int).push(v));
                    assert(before + wave_of(pre, eset, before, qi as int).push(v) =~= (before
                        + wave_of(pre, eset, before, qi as int)).push(v));
                    assert(order@ =~= before + wv);
                } else {
                    assert(wv =~= wave_of(pre, eset, before, qi as int));
                }
                assert(order@.subrange(0, before.len() as int) =~= before);
            }
            w += 1;
        }
        proof {
            assert(nodes@.subrange(0, nodes@.len() as int) =~= nodes@);
            assert(order@ == before + wave_of(nodes@, eset, before, qi as int));
            assert forall|j: int|
                0 <= j < order@.len() implies ids_of(nodes@).contains(#[trigger] order@[j]) by {}
            lemma_bounded_by_ids(order@, nodes@);
        }
        qi += 1;
        proof {
            // One unfolding of the run: processing `before[qi]` appended
            // its wave.
            assert(run_from(nodes@, eset, before, qi - 1, (nodes@.len() - (qi - 1)) as nat)
                == run_from(nodes@, eset, order@, qi as int, (nodes@.len() - qi) as nat));
        }
    }
    order
}


/// Every edge runs between listed identities.
pub open spec fn edges_within(nodes: Seq<Node>, edges: Set<(u128, u128)>) -> bool {
    forall|p: (u128, u128)| #[trigger]
        edges.contains(p) ==> ids_of(nodes).contains(p.0) && ids_of(nodes).contains(p.1)
}

/// Acyclicity, as well-foundedness: every nonempty set of identities has
/// a member into which no edge from the set leads.
pub open spec fn acyclic(nodes: Seq<Node>, edges: Set<(u128, u128)>) -> bool {
    forall|s: Set<u128>|
        #![trigger s.subset_of(ids_of(nodes).to_set())]
        s.finite() && s.subset_of(ids_of(nodes).to_set()) && s.len() > 0 ==> exists|v: u128|
            s.contains(v) && forall|u: u128| s.contains(u) ==> !edges.contains((u, v))
}

/// What holds of every state the scheduler's run passes through: the
/// order is duplicate-free, over listed identities, every scheduled
/// node's predecessors are scheduled strictly before it, and every
/// unscheduled node still waits for an unprocessed predecessor.
pub open spec fn run_inv(
    nodes: Seq<Node>,
    edges: Set<(u128, u128)>,
    order: Seq<u128>,
    qi: int,
) -> bool {
    &&& 0 <= qi <= order.len()
    &&& order.no_duplicates()
    &&& forall|j: int| 0 <= j < order.len() ==> ids_of(nodes).contains(#[trigger] order[j])
    &&& forall|j: int, u: u128|
        0 <= j < order.len() && #[trigger] edges.contains((u, order[j])) ==> exists|k: int|
            0 <= k < j && order[k] == u
    &&& forall|v: Node|
        #[trigger] nodes.contains(v) && !order.contains(v.id) ==> !preds_in(
            edges,
            order.subrange(0, qi),
            v.id,
        )
}

proof fn lemma_seeds_props(nodes: Seq<Node>, edges: Set<(u128, u128)>)
    requires
        unique_ids(nodes),
    ensures
        seeds_of(nodes, edges).no_duplicates(),
        forall|j: int|
            0 <= j < seeds_of(nodes, edges).len() ==> ids_of(nodes).contains(
                #[trigger] seeds_of(nodes, edges)[j],
            ),
        forall|j: int|
            0 <= j < seeds_of(nodes, edges).len() ==> preds_in(
                edges,
                Seq::<u128>::empty(),
                #[trigger] seeds_of(nodes, edges)[j],
            ),
        forall|v: Node|
            #[trigger] nodes.contains(v) && preds_in(edges, Seq::<u128>::empty(), v.id)
                ==> seeds_of(nodes, edges).contains(v.id),
    decreases nodes.len(),
{
    if nodes.len() > 0 {
        let pre = nodes.drop_last();
        lemma_seeds_props(pre, edges);
        let rest = seeds_of(pre, edges);
        let v = nodes.last();
        assert forall|j: int|
            0 <= j < rest.len() implies ids_of(nodes).contains(#[trigger] rest[j]) by {
            let k = choose|k: int| 0 <= k < ids_of(pre).len() && ids_of(pre)[k] == rest[j];
            assert(ids_of(nodes)[k] == rest[j]);
        }
        if preds_in(edges, Seq::<u128>::empty(), v.id) {
            let cur = seeds_of(nodes, edges);
            assert(cur == rest.push(v.id));
            assert forall|j: int| 0 <= j < rest.len() implies rest[j] != v.id by {
                let k = choose|k: int| 0 <= k < ids_of(pre).len() && ids_of(pre)[k] == rest[j];
                assert(nodes[k].id == rest[j]);
            }
            assert(ids_of(nodes)[nodes.len() - 1] == v.id);
        }
        assert forall|w: Node|
            #[trigger] nodes.contains(w) && preds_in(edges, Seq::<u128>::empty(), w.id)
                implies seeds_of(nodes, edges).contains(w.id) by {
            let k = choose|k: int| 0 <= k < nodes.len() && nodes[k] == w;
            if k < nodes.len() - 1 {
                assert(pre[k] == w);
                assert(pre.contains(w));
                assert(rest.contains(w.id));
                let j = choose|j: int| 0 <= j < rest.len() && rest[j] == w.id;
                assert(seeds_of(nodes, edges)[j] == w.id);
            } else {
                assert(w == v);
                assert(seeds_of(nodes, edges).last() == w.id);
            }
        }
    }
}

proof fn lemma_wave_props(nodes: Seq<Node>, edges: Set<(u128, u128)>, order: Seq<u128>, qi: int)
    requires
        unique_ids(nodes),
        0 <= qi < order.len(),
    ensures
        wave_of(nodes, edges, order, qi).no_duplicates(),
        forall|j: int|
            0 <= j < wave_of(nodes, edges, order, qi).len() ==> ids_of(nodes).contains(
                #[trigger] wave_of(nodes, edges, order, qi)[j],
            ),
        forall|j: int|
            0 <= j < wave_of(nodes, edges, order, qi).len() ==> !order.contains(
                #[trigger] wave_of(nodes, edges, order, qi)[j],
            ),
        forall|j: int|
            0 <= j < wave_of(nodes, edges, order, qi).len() ==> preds_in(
                edges,
                order.subrange(0, qi + 1),
                #[trigger] wave_of(nodes, edges, order, qi)[j],
            ),
        forall|v: Node|
            #[trigger] nodes.contains(v) && edges.contains((order[qi], v.id)) && !order.contains(
                v.id,
            ) && preds_in(edges, order.subrange(0, qi + 1), v.id) ==> wave_of(
                nodes,
                edges,
                order,
                qi,
            ).contains(v.id),
    decreases nodes.len(),
{
    if nodes.len() > 0 {
        let pre = nodes.drop_last();
        lemma_wave_props(pre, edges, order, qi);
        let rest = wave_of(pre, edges, order, qi);
        let v = nodes.last();
        assert forall|j: int|
            0 <= j < rest.len() implies ids_of(nodes).contains(#[trigger] rest[j]) by {
            let k = choose|k: int| 0 <= k < ids_of(pre).len() && ids_of(pre)[k] == rest[j];
            assert(ids_of(nodes)[k] == rest[j]);
        }
        let cur = wave_of(nodes, edges, order, qi);
        if edges.contains((order[qi], v.id)) && !order.contains(v.id) && preds_in(
            edges,
            order.subrange(0, qi + 1),
            v.id,
        ) {
            assert(cur == rest.push(v.id));
            assert forall|j: int| 0 <= j < rest.len() implies rest[j] != v.id by {
                let k = choose|k: int| 0 <= k < ids_of(pre).len() && ids_of(pre)[k] == rest[j];
                assert(nodes[k].id == rest[j]);
            }
            assert(ids_of(nodes)[nodes.len() - 1] == v.id);
        }
        assert forall|w: Node|
            #[trigger] nodes.contains(w) && edges.contains((order[qi], w.id)) && !order.contains(
                w.id,
            ) && preds_in(edges, order.subrange(0, qi + 1), w.id) implies cur.contains(w.id) by {
            let k = choose|k: int| 0 <= k < nodes.len() && nodes[k] == w;
            if k < nodes.len() - 1 {
                assert(pre[k] == w);
                assert(pre.contains(w));
                assert(rest.contains(w.id));
                let j = choose|j: int| 0 <= j < rest.len() && rest[j] == w.id;
                assert(cur[j] == w.id);
            } else {
                assert(w == v);
                assert(cur.last() == w.id);
            }
        }
    }
}

proof fn lemma_run_preserves(
    nodes: Seq<Node>,
    edges: Set<(u128, u128)>,
    order: Seq<u128>,
    qi: int,
    fuel: nat,
)
    requires
        unique_ids(nodes),
        run_inv(nodes, edges, order, qi),
        fuel >= nodes.len() - qi,
    ensures
        ({
            let r = run_from(nodes, edges, order, qi, fuel);
            &&& run_inv(nodes, edges, r, r.len() as int)
            &&& r.len() >= order.len()
            &&& forall|j: int| 0 <= j < order.len() ==> r[j] == #[trigger] order[j]
        }),
    decreases fuel,
{
    lemma_bounded_by_ids(order, nodes);
    if qi >= order.len() {
        assert(qi == order.len());
        assert(order.subrange(0, qi) =~= order);
    } else {
        assert(fuel > 0);
        lemma_wave_props(nodes, edges, order, qi);
        let wave = wave_of(nodes, edges, order, qi);
        let next = order + wave;
        assert(order.subrange(0, qi + 1) =~= next.subrange(0, qi + 1));
        assert(order.subrange(0, qi) =~= next.subrange(0, qi));

        // The grown order is still duplicate-free over listed identities.
        assert forall|i: int, j: int| 0 <= i < j < next.len() implies next[i] != next[j] by {
            if j < order.len() {
            } else if i < order.len() {
                assert(next[j] == wave[j - order.len()]);
                assert(!order.contains(wave[j - order.len()]));
            } else {
                assert(next[i] == wave[i - order.len()]);
                assert(next[j] == wave[j - order.len()]);
            }
        }
        assert forall|j: int|
            0 <= j < next.len() implies ids_of(nodes).contains(#[trigger] next[j]) by {
            if j >= order.len() {
                assert(next[j] == wave[j - order.len()]);
            }
        }

        // Every newly scheduled node's predecessors stand before it.
        assert forall|j: int, u: u128|
            0 <= j < next.len() && #[trigger] edges.contains((u, next[j])) implies exists|k: int|
            0 <= k < j && next[k] == u by {
            if j < order.len() {
                let k = choose|k: int| 0 <= k < j && order[k] == u;
                assert(next[k] == u);
            } else {
                assert(next[j] == wave[j - order.len()]);
                assert(preds_in(edges, order.subrange(0, qi + 1), next[j]));
                assert(order.subrange(0, qi + 1).contains(u));
                let k = choose|k: int|
                    0 <= k < qi + 1 && #[trigger] order.subrange(0, qi + 1)[k] == u;
                assert(next[k] == u);
            }
        }

        // Every still-unscheduled node still waits for a predecessor.
        assert forall|v: Node|
            #[trigger] nodes.contains(v) && !next.contains(v.id) implies !preds_in(
            edges,
            next.subrange(0, qi + 1),
            v.id,
        ) by {
            assert forall|j: int| 0 <= j < order.len() implies order[j] != v.id by {
                assert(next[j] == order[j]);
            }
            assert(!order.contains(v.id));
            if preds_in(edges, order.subrange(0, qi + 1), v.id) {
                if edges.contains((order[qi], v.id)) {
                    assert(wave.contains(v.id));
                    let j = choose|j: int| 0 <= j < wave.len() && wave[j] == v.id;
                    assert(next[order.len() + j] == v.id);
                    assert(false);
                } else {
                    assert(!preds_in(edges, order.subrange(0, qi), v.id));
                    let u = choose|u: u128|
                        edges.contains((u, v.id)) && !order.subrange(0, qi).contains(u);
                    assert(order.subrange(0, qi + 1).contains(u));
                    let k = choose|k: int|
                        0 <= k < qi + 1 && #[trigger] order.subrange(0, qi + 1)[k] == u;
                    assert forall|k2: int|
                        0 <= k2 < qi implies order.subrange(0, qi)[k2] != u by {}
                    assert(k == qi);
                    assert(u == order[qi]);
                    assert(false);
                }
            }
        }
        assert(run_inv(nodes, edges, next, qi + 1));
        lemma_run_preserves(nodes, edges, next, qi + 1, (fuel - 1) as nat);
        assert forall|j: int|
            0 <= j < order.len() implies run_from(nodes, edges, order, qi, fuel)[j] == #[trigger]
            order[j] by {
            assert(run_from(nodes, edges, order, qi, fuel)[j] == next[j]);
        }
    }
}

/// The scheduler's guarantees. The schedule never lists an identity
/// twice, lists only placed blocks, and schedules every predecessor
/// strictly before its consumer. On an acyclic graph it schedules every
/// placed block.
pub proof fn lemma_topo_properties(nodes: Seq<Node>, edges: Set<(u128, u128)>)
    requires
        unique_ids(nodes),
    ensures
        spec_topo(nodes, edges).no_duplicates(),
        forall|j: int|
            0 <= j < spec_topo(nodes, edges).len() ==> ids_of(nodes).contains(
                #[trigger] spec_topo(nodes, edges)[j],
            ),
        forall|j: int, u: u128|
            0 <= j < spec_topo(nodes, edges).len() && #[trigger] edges.contains(
                (u, spec_topo(nodes, edges)[j]),
            ) ==> exists|k: int| 0 <= k < j && spec_topo(nodes, edges)[k] == u,
        edges_within(nodes, edges) && acyclic(nodes, edges) ==> spec_topo(nodes, edges).len()
            == nodes.len(),
        edges_within(nodes, edges) && acyclic(nodes, edges) ==> forall|v: Node|
            #[trigger] nodes.contains(v) ==> spec_topo(nodes, edges).contains(v.id),
{
    broadcast use vstd::set_lib::group_set_lib_default;

    lemma_seeds_props(nodes, edges);
    let seeds = seeds_of(nodes, edges);
    assert forall|j: int, u: u128|
        0 <= j < seeds.len() && #[trigger] edges.contains((u, seeds[j])) implies exists|k: int|
        0 <= k < j && seeds[k] == u by {
        assert(preds_in(edges, Seq::<u128>::empty(), seeds[j]));
        assert(Seq::<u128>::empty().contains(u));
    }
    assert forall|v: Node|
        #[trigger] nodes.contains(v) && !seeds.contains(v.id) implies !preds_in(
        edges,
        seeds.subrange(0, 0),
        v.id,
    ) by {
        if preds_in(edges, seeds.subrange(0, 0), v.id) {
            assert forall|u: u128| #[trigger]
                edges.contains((u, v.id)) implies Seq::<u128>::empty().contains(u) by {
                assert(seeds.subrange(0, 0).contains(u));
            }
            assert(seeds.contains(v.id));
        }
    }
    assert(run_inv(nodes, edges, seeds, 0));
    lemma_run_preserves(nodes, edges, seeds, 0, nodes.len() as nat);
    let r = spec_topo(nodes, edges);
    assert(run_inv(nodes, edges, r, r.len() as int));

    if edges_within(nodes, edges) && acyclic(nodes, edges) {
        lemma_bounded_by_ids(r, nodes);
        let ids = ids_of(nodes);
        ids.unique_seq_to_set();
        r.unique_seq_to_set();
        let missing = ids.to_set().difference(r.to_set());
        if missing.len() > 0 {
            assert(missing.subset_of(ids.to_set()));
            let v_id = choose|v_id: u128|
                missing.contains(v_id) && forall|u: u128|
                    missing.contains(u) ==> !edges.contains((u, v_id));
            assert(ids.contains(v_id));
            let k = choose|k: int| 0 <= k < ids.len() && ids[k] == v_id;
            let v = nodes[k];
            assert(nodes.contains(v) && v.id == v_id);
            assert(!r.contains(v_id));
            assert(r.subrange(0, r.len() as int) =~= r);
            assert(!preds_in(edges, r, v_id));
            let u = choose|u: u128| edges.contains((u, v_id)) && !r.contains(u);
            assert(ids.contains(u));
            assert(missing.contains(u));
            assert(false);
        }
        assert(missing.len() == 0);
        assert(missing =~= Set::<u128>::empty());
        assert forall|x: u128| ids.to_set().contains(x) implies r.to_set().contains(x) by {
            if !r.to_set().contains(x) {
                assert(missing.contains(x));
            }
        }
        assert(ids.to_set().subset_of(r.to_set()));
        assert forall|x: u128| r.to_set().contains(x) implies ids.to_set().contains(x) by {
            let j = choose|j: int| 0 <= j < r.len() && r[j] == x;
            assert(ids.contains(r[j]));
        }
        assert(r.to_set() =~= ids.to_set());
        assert(r.len() == r.to_set().len());
        assert(ids.len() == ids.to_set().len());
        assert(r.len() == nodes.len());
        assert forall|v: Node| #[trigger] nodes.contains(v) implies r.contains(v.id) by {
            let k = choose|k: int| 0 <= k < nodes.len() && nodes[k] == v;
            assert(ids[k] == v.id);
            assert(ids.contains(v.id));
            assert(r.to_set().contains(v.id));
        }
    }
}

} // verus!
