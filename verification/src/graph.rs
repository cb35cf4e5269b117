//! The workflow graph: blocks, connections, groups, the derived
//! execution order, the dirty set and the activation feedback.

use vstd::prelude::*;
use vstd::relations::sorted_by;
use vstd::seq_lib::lemma_sorted_unique;

use crate::block::{Block, BlockView, block_wf};
use crate::connection::Connection;
use crate::group::BlockGroup;
use crate::topo;
use crate::topo::{Node, key_order, spec_topo};

verus! {

/// Intensity carried by a fresh activation, in thousandths.
pub const ACTIVATION_FULL: u32 = 1000;

/// Intensity at or below which an activation entry is evicted, in
/// thousandths.
pub const ACTIVATION_EPSILON: u32 = 10;

/// A complete workflow graph.
#[derive(Debug)]
pub struct Workflow {
    pub name: String,
    /// The live blocks; no identity twice.
    pub blocks: Vec<Block>,
    /// The connections; no identity twice.
    pub connections: Vec<Connection>,
    pub groups: Vec<BlockGroup>,
    /// Advisory flag read by the editor layer; the engine does not check
    /// it.
    pub readonly: bool,
    /// Derived: the deterministic execution order. Not persisted.
    pub execution_order: Vec<u128>,
    /// Derived: the blocks pending re-evaluation. Not persisted.
    pub dirty_blocks: Vec<u128>,
    /// Decaying visual activation of blocks, in thousandths.
    pub active_blocks: Vec<(u128, u32)>,
    /// Decaying visual activation of connections, in thousandths.
    pub active_connections: Vec<(u128, u32)>,
}

impl Workflow {
    /// The identities of the live blocks, in storage order.
    pub open spec fn block_ids(&self) -> Seq<u128> {
        self.blocks@.map_values(|b: Block| b.id)
    }

    /// Whether a block with this identity is live.
    pub open spec fn has_block(&self, id: u128) -> bool {
        self.block_ids().contains(id)
    }

    /// What the scheduler reads of the blocks.
    pub open spec fn node_seq(&self) -> Seq<Node> {
        self.blocks@.map_values(|b: Block| Node { id: b.id, x: b.position.x, y: b.position.y })
    }

    /// The edges both of whose endpoints are live blocks.
    pub open spec fn live_edge_set(&self) -> Set<(u128, u128)> {
        Set::new(
            |p: (u128, u128)|
                self.has_block(p.0) && self.has_block(p.1) && exists|i: int|
                    0 <= i < self.connections@.len() && (#[trigger] self.connections@[i]).from_block
                        == p.0 && self.connections@[i].to_block == p.1,
        )
    }

    /// Whether a connection leads from `a` to `b`, live or not.
    pub open spec fn conn_succ(&self, a: u128, b: u128) -> bool {
        exists|i: int|
            0 <= i < self.connections@.len() && (#[trigger] self.connections@[i]).from_block == a
                && self.connections@[i].to_block == b
    }

    /// The dirty set.
    pub open spec fn dirty_set(&self) -> Set<u128> {
        self.dirty_blocks@.to_set()
    }

    /// Structural well-formedness: distinct block, connection, dirty and
    /// activation identities, and well-formed block value maps.
    pub open spec fn wf(&self) -> bool {
        &&& forall|i: int, j: int|
            0 <= i < j < self.blocks@.len() ==> self.blocks@[i].id != self.blocks@[j].id
        &&& forall|i: int, j: int|
            0 <= i < j < self.connections@.len() ==> self.connections@[i].id
                != self.connections@[j].id
        &&& self.dirty_blocks@.no_duplicates()
        &&& forall|i: int, j: int|
            0 <= i < j < self.active_blocks@.len() ==> self.active_blocks@[i].0
                != self.active_blocks@[j].0
        &&& forall|i: int, j: int|
            0 <= i < j < self.active_connections@.len() ==> self.active_connections@[i].0
                != self.active_connections@[j].0
        &&& forall|i: int| 0 <= i < self.blocks@.len() ==> block_wf(#[trigger] self.blocks@[i])
    }

    /// The execution order a workflow's shape determines: the schedule of
    /// its key-sorted blocks over its live edges.
    pub open spec fn spec_execution_order(&self) -> Seq<u128> {
        spec_topo(self.node_seq().sort_by(key_order()), self.live_edge_set())
    }

    /// An empty, editable workflow of the given name.
    pub fn new(name: String) -> (r: Workflow)
        ensures
            r.wf(),
            r.name@ == name@,
            r.blocks@.len() == 0,
            r.connections@.len() == 0,
            r.groups@.len() == 0,
            !r.readonly,
            r.execution_order@.len() == 0,
            r.dirty_blocks@.len() == 0,
            r.active_blocks@.len() == 0,
            r.active_connections@.len() == 0,
    {
        Workflow {
            name,
            blocks: Vec::new(),
            connections: Vec::new(),
            groups: Vec::new(),
            readonly: false,
            execution_order: Vec::new(),
            dirty_blocks: Vec::new(),
            active_blocks: Vec::new(),
            active_connections: Vec::new(),
        }
    }

    /// Whether the editor layer may mutate this workflow.
    pub fn is_editable(&self) -> (r: bool)
        ensures
            r == !self.readonly,
    {
        !self.readonly
    }

    /// Whether a block with this identity is live.
    pub fn contains_block(&self, id: u128) -> (r: bool)
        ensures
            r == self.has_block(id),
    {
        let mut i: usize = 0;
        while i < self.blocks.len()
            invariant
                i <= self.blocks@.len(),
                forall|k: int| 0 <= k < i ==> self.blocks@[k].id != id,
            decreases self.blocks@.len() - i,
        {
            if self.blocks[i].id == id {
                proof {
                    assert(self.block_ids()[i as int] == id);
                }
                return true;
            }
            i += 1;
        }
        proof {
            if self.has_block(id) {
                let k = choose|k: int|
                    0 <= k < self.block_ids().len() && self.block_ids()[k] == id;
                assert(self.blocks@[k].id == id);
            }
        }
        false
    }

    /// The position of the live block with this identity, if any.
    pub fn block_index(&self, id: u128) -> (r: Option<usize>)
        ensures
            match r {
                Some(i) => i < self.blocks@.len() && self.blocks@[i as int].id == id,
                None => !self.has_block(id),
            },
    {
        let mut i: usize = 0;
        while i < self.blocks.len()
            invariant
                i <= self.blocks@.len(),
                forall|k: int| 0 <= k < i ==> self.blocks@[k].id != id,
            decreases self.blocks@.len() - i,
        {
            if self.blocks[i].id == id {
                return Some(i);
            }
            i += 1;
        }
        proof {
            if self.has_block(id) {
                let k = choose|k: int|
                    0 <= k < self.block_ids().len() && self.block_ids()[k] == id;
                assert(self.blocks@[k].id == id);
            }
        }
        None
    }

    /// Computes the deterministic execution order: Kahn's algorithm over
    /// the live edges, ready blocks taken top-to-bottom, left-to-right,
    /// then by identity. On a cyclic graph the order is the partial
    /// schedule that omits every block on or downstream of a cycle.
    pub fn topological_sort(&self) -> (r: Vec<u128>)
        requires
            self.wf(),
        ensures
            r@ == self.spec_execution_order(),
    {
        // The scheduler's view of the blocks.
        let mut nodes: Vec<Node> = Vec::new();
        let mut i: usize = 0;
        while i < self.blocks.len()
            invariant
                i <= self.blocks@.len(),
                nodes@ == self.node_seq().subrange(0, i as int),
            decreases self.blocks@.len() - i,
        {
            let b = &self.blocks[i];
            nodes.push(Node { id: b.id, x: b.position.x, y: b.position.y });
            proof {
                assert(nodes@ =~= self.node_seq().subrange(0, i + 1));
            }
            i += 1;
        }
        proof {
            assert(nodes@ =~= self.node_seq());
        }

        // The live edges.
        let mut edges: Vec<(u128, u128)> = Vec::new();
        let mut i: usize = 0;
        while i < self.connections.len()
            invariant
                i <= self.connections@.len(),
                forall|e: (u128, u128)| #[trigger]
                    edges@.contains(e) ==> self.live_edge_set().contains(e),
                forall|k: int|
                    0 <= k < i ==> {
                        let c = #[trigger] self.connections@[k];
                        self.has_block(c.from_block) && self.has_block(c.to_block)
                            ==> edges@.contains((c.from_block, c.to_block))
                    },
            decreases self.connections@.len() - i,
        {
            let c = &self.connections[i];
            let from_live = self.contains_block(c.from_block);
            let to_live = self.contains_block(c.to_block);
            if from_live && to_live {
                let ghost before = edges@;
                edges.push((c.from_block, c.to_block));
                proof {
                    assert(self.live_edge_set().contains(
                        (self.connections@[i as int].from_block,
                        self.connections@[i as int].to_block),
                    ));
                    assert forall|e: (u128, u128)| #[trigger]
                        edges@.contains(e) implies self.live_edge_set().contains(e) by {
                        let k = choose|k: int| 0 <= k < edges@.len() && edges@[k] == e;
                        if k < before.len() {
                            assert(before.contains(e));
                        }
                    }
                    assert forall|k: int|
                        0 <= k < i + 1 && (self.has_block(
                            (#[trigger] self.connections@[k]).from_block,
                        ) && self.has_block(self.connections@[k].to_block)) implies edges@.contains(
                        (self.connections@[k].from_block, self.connections@[k].to_block),
                    ) by {
                        let t = (self.connections@[k].from_block, self.connections@[k].to_block);
                        if k < i {
                            assert(before.contains(t));
                            let w = choose|w: int| 0 <= w < before.len() && before[w] == t;
                            assert(edges@[w] == t);
                        } else {
                            assert(edges@.last() == t);
                        }
                    }
                }
            }
            i += 1;
        }
        proof {
            assert forall|e: (u128, u128)| #[trigger]
                self.live_edge_set().contains(e) implies edges@.contains(e) by {
                let k = choose|k: int|
                    0 <= k < self.connections@.len() && (#[trigger] self.connections@[k]).from_block
                        == e.0 && self.connections@[k].to_block == e.1;
            }
            assert(edges@.to_set() =~= self.live_edge_set());
        }

        // Deterministic order: key-sort, then schedule.
        proof {
            assert forall|a: int, b: int|
                0 <= a < b < self.node_seq().len() implies self.node_seq()[a].id
                != self.node_seq()[b].id by {
                assert(self.blocks@[a].id != self.blocks@[b].id);
            }
        }
        let sorted = topo::sort_nodes(nodes);
        proof {
            self.node_seq().lemma_sort_by_ensures(key_order());
            topo::lemma_key_order_total();
            lemma_sorted_unique(sorted@, self.node_seq().sort_by(key_order()), key_order());
            lemma_unique_ids_preserved(self.node_seq(), sorted@);
        }
        topo::kahn(&sorted, &edges)
    }

    /// Recomputes the execution order from the current shape.
    pub fn update_execution_order(&mut self)
        requires
            old(self).wf(),
        ensures
            final(self).wf(),
            final(self).execution_order@ == old(self).spec_execution_order(),
            *final(self) == (Workflow {
                execution_order: final(self).execution_order,
                ..*old(self)
            }),
    {
        let order = self.topological_sort();
        self.execution_order = order;
    }
}


/// A path along connections: consecutive entries are joined by some
/// connection, in direction.
pub open spec fn is_succ_path(w: Workflow, p: Seq<u128>) -> bool {
    p.len() >= 1 && forall|i: int| 0 <= i < p.len() - 1 ==> w.conn_succ(#[trigger] p[i], p[i + 1])
}

/// Whether `b` is reachable from `a` along connections; every identity
/// reaches itself.
pub open spec fn reaches(w: Workflow, a: u128, b: u128) -> bool {
    exists|p: Seq<u128>| is_succ_path(w, p) && p.first() == a && p.last() == b
}

/// Everything reachable from `a` along connections, `a` included.
pub open spec fn reach_set(w: Workflow, a: u128) -> Set<u128> {
    Set::new(|b: u128| reaches(w, a, b))
}

/// A set into which marking from `b` cannot escape: it holds the dirty
/// set, every direct successor of `b`, and the successors of each of its
/// own members that was not dirty before.
pub open spec fn absorbs(w: Workflow, b: u128, s: Set<u128>) -> bool {
    &&& w.dirty_set().subset_of(s)
    &&& forall|t: u128| w.conn_succ(b, t) ==> s.contains(t)
    &&& forall|v: u128, t: u128|
        s.contains(v) && !w.dirty_set().contains(v) && #[trigger] w.conn_succ(v, t)
            ==> s.contains(t)
}

/// A successor-closed set holding a path's head holds its last entry.
proof fn lemma_path_absorbed(w: Workflow, d: Set<u128>, p: Seq<u128>)
    requires
        is_succ_path(w, p),
        d.contains(p.first()),
        forall|v: u128, t: u128| d.contains(v) && #[trigger] w.conn_succ(v, t) ==> d.contains(t),
    ensures
        d.contains(p.last()),
    decreases p.len(),
{
    if p.len() > 1 {
        assert(w.conn_succ(p[0], p[1]));
        let q = p.drop_first();
        assert forall|i: int| 0 <= i < q.len() - 1 implies w.conn_succ(#[trigger] q[i], q[i + 1]) by {
            assert(q[i] == p[i + 1]);
            assert(q[i + 1] == p[i + 2]);
            assert(w.conn_succ(p[i + 1], p[i + 2]));
        }
        assert(d.contains(q.first()));
        lemma_path_absorbed(w, d, q);
        assert(q.last() == p.last());
    }
}

impl Workflow {
    /// The targets of all connections, live or not.
    pub open spec fn conn_target_set(&self) -> Set<u128> {
        self.connections@.map_values(|c: Connection| c.to_block).to_set()
    }

    /// Whether the dirty set holds this identity.
    pub fn is_dirty(&self, id: u128) -> (r: bool)
        ensures
            r == self.dirty_set().contains(id),
    {
        let mut i: usize = 0;
        while i < self.dirty_blocks.len()
            invariant
                i <= self.dirty_blocks@.len(),
                forall|k: int| 0 <= k < i ==> self.dirty_blocks@[k] != id,
            decreases self.dirty_blocks@.len() - i,
        {
            if self.dirty_blocks[i] == id {
                assert(self.dirty_blocks@.contains(id));
                return true;
            }
            i += 1;
        }
        false
    }

    /// Marks every downstream consumer of `b`, stopping at blocks already
    /// marked.
    fn mark_downstream(&mut self, b: u128)
        requires
            old(self).wf(),
        ensures
            final(self).wf(),
            *final(self) == (Workflow { dirty_blocks: final(self).dirty_blocks, ..*old(self) }),
            old(self).dirty_set().subset_of(final(self).dirty_set()),
            forall|t: u128| old(self).conn_succ(b, t) ==> final(self).dirty_set().contains(t),
            forall|v: u128, t: u128|
                final(self).dirty_set().contains(v) && !old(self).dirty_set().contains(v)
                    && #[trigger] old(self).conn_succ(v, t) ==> final(self).dirty_set().contains(
                    t,
                ),
            forall|s: Set<u128>| #[trigger]
                absorbs(*old(self), b, s) ==> final(self).dirty_set().subset_of(s),
        decreases self.conn_target_set().difference(self.dirty_set()).len(),
    {
        broadcast use vstd::seq_lib::group_seq_properties;
        broadcast use vstd::set_lib::group_set_lib_default;
        broadcast use vstd::seq_lib::seq_to_set_is_finite;
        broadcast use Seq::lemma_push_to_set_commute;

        let ghost pre = *self;

        // The direct successors of `b`.
        let mut targets: Vec<u128> = Vec::new();
        let mut i: usize = 0;
        while i < self.connections.len()
            invariant
                i <= self.connections@.len(),
                forall|t: u128| #[trigger]
                    targets@.contains(t) ==> self.conn_succ(b, t) && self.conn_target_set().contains(
                        t,
                    ),
                forall|k: int|
                    0 <= k < i && (#[trigger] self.connections@[k]).from_block == b
                        ==> targets@.contains(self.connections@[k].to_block),
            decreases self.connections@.len() - i,
        {
            if self.connections[i].from_block == b {
                let ghost before = targets@;
                targets.push(self.connections[i].to_block);
                proof {
                    assert(self.connections@.map_values(|c: Connection| c.to_block)[i as int]
                        == self.connections@[i as int].to_block);
                    assert forall|t: u128| #[trigger]
                        targets@.contains(t) implies self.conn_succ(b, t)
                        && self.conn_target_set().contains(t) by {
                        let k = choose|k: int| 0 <= k < targets@.len() && targets@[k] == t;
                        if k < before.len() {
                            assert(before.contains(t));
                        } else {
                            assert(t == self.connections@[i as int].to_block);
                        }
                    }
                    assert forall|k: int|
                        0 <= k < i + 1 && (#[trigger] self.connections@[k]).from_block == b
                            implies targets@.contains(self.connections@[k].to_block) by {
                        if k < i {
                            assert(before.contains(self.connections@[k].to_block));
                            let w = choose|w: int|
                                0 <= w < before.len() && before[w] == self.connections@[k].to_block;
                            assert(targets@[w] == self.connections@[k].to_block);
                        } else {
                            assert(targets@.last() == self.connections@[k].to_block);
                        }
                    }
                }
            }
            i += 1;
        }
        proof {
            assert forall|t: u128| pre.conn_succ(b, t) implies targets@.contains(t) by {
                let k = choose|k: int|
                    0 <= k < pre.connections@.len() && (#[trigger] pre.connections@[k]).from_block
                        == b && pre.connections@[k].to_block == t;
            }
        }

        // Mark each target not already dirty, then its own consumers.
        let mut k: usize = 0;
        while k < targets.len()
            invariant
                pre == *old(self),
                self.wf(),
                *self == (Workflow { dirty_blocks: self.dirty_blocks, ..pre }),
                pre.dirty_set().subset_of(self.dirty_set()),
                k <= targets@.len(),
                forall|t: u128| #[trigger] targets@.contains(t) ==> pre.conn_succ(b, t),
                forall|j: int| 0 <= j < k ==> self.dirty_set().contains(#[trigger] targets@[j]),
                forall|v: u128, t: u128|
                    self.dirty_set().contains(v) && !pre.dirty_set().contains(v) && #[trigger]
                    pre.conn_succ(v, t) ==> self.dirty_set().contains(t),
                forall|s: Set<u128>| #[trigger]
                    absorbs(pre, b, s) ==> self.dirty_set().subset_of(s),
            decreases targets@.len() - k,
        {
            let t = targets[k];
            if !self.is_dirty(t) {
                let ghost mid = *self;
                self.dirty_blocks.push(t);
                proof {
                    mid.dirty_blocks@.lemma_push_to_set_commute(t);
                    assert(self.dirty_set() =~= mid.dirty_set().insert(t));
                    assert(targets@.contains(t));
                    assert(pre.conn_succ(b, t));
                    assert(self.conn_target_set() == mid.conn_target_set());
                    assert(mid.conn_target_set().contains(t)) by {
                        let ci = choose|ci: int|
                            0 <= ci < pre.connections@.len() && (#[trigger] pre.connections@[
                            ci]).from_block == b && pre.connections@[ci].to_block == t;
                        assert(mid.connections@.map_values(|c: Connection| c.to_block)[ci] == t);
                        assert(mid.connections@.map_values(|c: Connection| c.to_block).contains(
                            t,
                        ));
                    }
                    assert forall|s: Set<u128>| #[trigger]
                        absorbs(pre, b, s) implies self.dirty_set().subset_of(s) by {
                        assert(mid.dirty_set().subset_of(s));
                        assert(s.contains(t));
                    }
                    // The frontier shrank: `t` left it.
                    let fr_pre = mid.conn_target_set().difference(mid.dirty_set());
                    let fr_now = self.conn_target_set().difference(self.dirty_set());
                    assert(mid.conn_target_set().finite());
                    assert(fr_pre.finite());
                    assert(fr_pre.contains(t));
                    assert(fr_now =~= fr_pre.remove(t));
                    assert(fr_now.len() < fr_pre.len());
                    // And it is still smaller than at entry.
                    let fr_start = pre.conn_target_set().difference(pre.dirty_set());
                    assert(fr_start.finite());
                    assert(fr_pre.subset_of(fr_start));
                    vstd::set_lib::lemma_len_subset(fr_pre, fr_start);
                    assert(fr_now.len() < fr_start.len());
                }
                let ghost before_call = *self;
                self.mark_downstream(t);
                proof {
                    assert(before_call.connections@ == pre.connections@);
                    assert forall|v: u128, t2: u128|
                        self.dirty_set().contains(v) && !pre.dirty_set().contains(v) && #[trigger]
                        pre.conn_succ(v, t2) implies self.dirty_set().contains(t2) by {
                        assert(before_call.conn_succ(v, t2) == pre.conn_succ(v, t2));
                        if before_call.dirty_set().contains(v) {
                            if v == t {
                                assert(before_call.conn_succ(t, t2));
                                assert(self.dirty_set().contains(t2));
                            } else {
                                assert(mid.dirty_set().contains(v));
                                assert(mid.dirty_set().contains(t2));
                                assert(before_call.dirty_set().contains(t2));
                                assert(before_call.dirty_set().subset_of(self.dirty_set()));
                            }
                        } else {
                            assert(self.dirty_set().contains(v));
                            assert(before_call.conn_succ(v, t2));
                        }
                    }
                    assert forall|s: Set<u128>| #[trigger]
                        absorbs(pre, b, s) implies self.dirty_set().subset_of(s) by {
                        assert(before_call.dirty_set().subset_of(s));
                        assert(s.contains(t));
                        assert(!pre.dirty_set().contains(t));
                        assert(absorbs(before_call, t, s)) by {
                            assert forall|t2: u128| before_call.conn_succ(t, t2) implies s.contains(
                                t2,
                            ) by {
                                assert(pre.conn_succ(t, t2));
                            }
                            assert forall|v: u128, t2: u128|
                                s.contains(v) && !before_call.dirty_set().contains(v) && #[trigger]
                                before_call.conn_succ(v, t2) implies s.contains(t2) by {
                                assert(!pre.dirty_set().contains(v));
                                assert(pre.conn_succ(v, t2));
                            }
                        }
                    }
                }
            }
            k += 1;
        }
    }

    /// Marks a block as pending re-evaluation, and with it every block a
    /// chain of connections leads to from it, stopping at blocks already
    /// marked. On a workflow whose dirty set was empty, the dirty set
    /// becomes exactly what `id` reaches.
    pub fn mark_dirty(&mut self, block_id: u128)
        requires
            old(self).wf(),
        ensures
            final(self).wf(),
            *final(self) == (Workflow { dirty_blocks: final(self).dirty_blocks, ..*old(self) }),
            old(self).dirty_set().subset_of(final(self).dirty_set()),
            final(self).dirty_set().contains(block_id),
            forall|t: u128|
                old(self).conn_succ(block_id, t) ==> final(self).dirty_set().contains(t),
            forall|v: u128, t: u128|
                final(self).dirty_set().contains(v) && !old(self).dirty_set().contains(v)
                    && #[trigger] old(self).conn_succ(v, t) ==> final(self).dirty_set().contains(
                    t,
                ),
            forall|s: Set<u128>|
                #[trigger] absorbs(*old(self), block_id, s) && s.contains(block_id)
                    ==> final(self).dirty_set().subset_of(s),
            old(self).dirty_blocks@.len() == 0 ==> final(self).dirty_set() == reach_set(
                *old(self),
                block_id,
            ),
    {
        broadcast use Seq::lemma_push_to_set_commute;

        let ghost pre = *self;
        if !self.is_dirty(block_id) {
            let ghost d0 = self.dirty_blocks@;
            self.dirty_blocks.push(block_id);
            proof {
                d0.lemma_push_to_set_commute(block_id);
                assert(self.dirty_set() =~= pre.dirty_set().insert(block_id));
            }
        } else {
            proof {
                assert(self.dirty_set() =~= pre.dirty_set().insert(block_id));
            }
        }
        let ghost mid = *self;
        proof {
            assert(mid.dirty_set() == pre.dirty_set().insert(block_id));
        }
        self.mark_downstream(block_id);
        proof {
            assert forall|v: u128, t: u128|
                self.dirty_set().contains(v) && !pre.dirty_set().contains(v) && #[trigger]
                pre.conn_succ(v, t) implies self.dirty_set().contains(t) by {
                assert(mid.conn_succ(v, t) == pre.conn_succ(v, t));
                if v == block_id {
                    assert(mid.conn_succ(block_id, t));
                    assert(self.dirty_set().contains(t));
                } else {
                    assert(!mid.dirty_set().contains(v));
                    assert(self.dirty_set().contains(t));
                }
            }
            assert forall|s: Set<u128>|
                #[trigger] absorbs(pre, block_id, s) && s.contains(block_id)
                    implies self.dirty_set().subset_of(s) by {
                assert(mid.dirty_set().subset_of(s));
                assert(absorbs(mid, block_id, s)) by {
                    assert forall|v: u128, t2: u128|
                        s.contains(v) && !mid.dirty_set().contains(v) && #[trigger]
                        mid.conn_succ(v, t2) implies s.contains(t2) by {
                        assert(!pre.dirty_set().contains(v));
                        assert(pre.conn_succ(v, t2));
                    }
                }
            }
            if pre.dirty_blocks@.len() == 0 {
                let d = self.dirty_set();
                let rs = reach_set(pre, block_id);
                // Everything reachable is marked: walk the path.
                assert forall|x: u128| rs.contains(x) implies d.contains(x) by {
                    let p = choose|p: Seq<u128>|
                        is_succ_path(pre, p) && p.first() == block_id && p.last() == x;
                    assert forall|v: u128, t: u128|
                        d.contains(v) && #[trigger] pre.conn_succ(v, t) implies d.contains(t) by {
                        assert(pre.dirty_set() =~= Set::<u128>::empty());
                        assert(!pre.dirty_set().contains(v));
                    }
                    lemma_path_absorbed(pre, d, p);
                }
                // Nothing beyond reach is marked: the reach set absorbs
                // the marking.
                assert(absorbs(pre, block_id, rs)) by {
                    assert(pre.dirty_set() =~= Set::<u128>::empty());
                    assert(rs.contains(block_id)) by {
                        let p: Seq<u128> = seq![block_id];
                        assert(is_succ_path(pre, p) && p.first() == block_id && p.last()
                            == block_id);
                    }
                    assert forall|t: u128| pre.conn_succ(block_id, t) implies rs.contains(t) by {
                        let p: Seq<u128> = seq![block_id, t];
                        assert(is_succ_path(pre, p)) by {
                            assert forall|i: int| 0 <= i < p.len() - 1 implies pre.conn_succ(
                                #[trigger] p[i],
                                p[i + 1],
                            ) by {
                                assert(p[0] == block_id && p[1] == t);
                            }
                        }
                        assert(p.first() == block_id && p.last() == t);
                    }
                    assert forall|v: u128, t: u128|
                        rs.contains(v) && !pre.dirty_set().contains(v) && #[trigger] pre.conn_succ(
                            v,
                            t,
                        ) implies rs.contains(t) by {
                        let p = choose|p: Seq<u128>|
                            is_succ_path(pre, p) && p.first() == block_id && p.last() == v;
                        let q = p.push(t);
                        assert(is_succ_path(pre, q)) by {
                            assert forall|i: int| 0 <= i < q.len() - 1 implies pre.conn_succ(
                                #[trigger] q[i],
                                q[i + 1],
                            ) by {
                                if i < p.len() - 1 {
                                    assert(q[i] == p[i] && q[i + 1] == p[i + 1]);
                                    assert(pre.conn_succ(p[i], p[i + 1]));
                                } else {
                                    assert(q[i] == p.last() && q[i + 1] == t);
                                }
                            }
                        }
                        assert(q.first() == block_id && q.last() == t);
                    }
                }
                assert(rs.contains(block_id)) by {
                    let p: Seq<u128> = seq![block_id];
                    assert(is_succ_path(pre, p) && p.first() == block_id && p.last() == block_id);
                }
                assert(d.subset_of(rs));
                assert(d =~= rs);
            }
        }
    }
}


/// Whether an activation list carries an entry for `id`.
pub open spec fn has_level(s: Seq<(u128, u32)>, id: u128) -> bool {
    exists|i: int| 0 <= i < s.len() && s[i].0 == id
}

/// The intensity an activation list carries for `id`; zero without an
/// entry.
pub open spec fn level_of(s: Seq<(u128, u32)>, id: u128) -> u32 {
    if has_level(s, id) {
        s[choose|i: int| 0 <= i < s.len() && s[i].0 == id].1
    } else {
        0
    }
}

/// In a duplicate-free activation list, an entry's index determines the
/// level.
proof fn lemma_level_at(s: Seq<(u128, u32)>, i: int)
    requires
        forall|x: int, y: int| 0 <= x < y < s.len() ==> s[x].0 != s[y].0,
        0 <= i < s.len(),
    ensures
        has_level(s, s[i].0),
        level_of(s, s[i].0) == s[i].1,
{
    let j = choose|j: int| 0 <= j < s.len() && s[j].0 == s[i].0;
    if i < j {
        assert(s[i].0 != s[j].0);
    } else if j < i {
        assert(s[j].0 != s[i].0);
    }
}

/// Sets `id` to `value` in an activation list, replacing in place or
/// appending.
fn set_level(s: &mut Vec<(u128, u32)>, id: u128, value: u32)
    requires
        forall|x: int, y: int|
            0 <= x < y < old(s)@.len() ==> old(s)@[x].0 != old(s)@[y].0,
    ensures
        forall|x: int, y: int| 0 <= x < y < final(s)@.len() ==> final(s)@[x].0 != final(s)@[y].0,
        has_level(final(s)@, id),
        level_of(final(s)@, id) == value,
        forall|o: u128| o != id ==> has_level(final(s)@, o) == has_level(old(s)@, o),
        forall|o: u128| o != id ==> level_of(final(s)@, o) == level_of(old(s)@, o),
{
    let ghost pre = s@;
    let mut i: usize = 0;
    while i < s.len()
        invariant
            pre == old(s)@,
            s@ == pre,
            i <= pre.len(),
            forall|k: int| 0 <= k < i ==> pre[k].0 != id,
            forall|x: int, y: int| 0 <= x < y < pre.len() ==> pre[x].0 != pre[y].0,
        decreases pre.len() - i,
    {
        if s[i].0 == id {
            s.remove(i);
            s.insert(i, (id, value));
            proof {
                assert forall|x: int, y: int|
                    0 <= x < y < s@.len() implies s@[x].0 != s@[y].0 by {
                    assert(pre[x].0 != pre[y].0);
                }
                lemma_level_at(s@, i as int);
                assert forall|o: u128| o != id implies has_level(s@, o) == has_level(pre, o)
                    && level_of(s@, o) == level_of(pre, o) by {
                    if has_level(s@, o) {
                        let k = choose|k: int| 0 <= k < s@.len() && s@[k].0 == o;
                        assert(k != i);
                        assert(pre[k].0 == o);
                        lemma_level_at(pre, k);
                        lemma_level_at(s@, k);
                    }
                    if has_level(pre, o) {
                        let k = choose|k: int| 0 <= k < pre.len() && pre[k].0 == o;
                        assert(k != i) by {
                            assert(pre[i as int].0 == id);
                        }
                        assert(s@[k].0 == o);
                        lemma_level_at(pre, k);
                        lemma_level_at(s@, k);
                    }
                }
            }
            return ;
        }
        i += 1;
    }
    s.push((id, value));
    proof {
        assert forall|x: int, y: int| 0 <= x < y < s@.len() implies s@[x].0 != s@[y].0 by {
            if y < s@.len() - 1 {
                assert(pre[x].0 != pre[y].0);
            } else {
                assert(pre[x].0 != id);
            }
        }
        lemma_level_at(s@, s@.len() - 1);
        assert forall|o: u128| o != id implies has_level(s@, o) == has_level(pre, o) && level_of(
            s@,
            o,
        ) == level_of(pre, o) by {
            if has_level(s@, o) {
                let k = choose|k: int| 0 <= k < s@.len() && s@[k].0 == o;
                assert(k < pre.len());
                assert(pre[k].0 == o);
                lemma_level_at(pre, k);
                lemma_level_at(s@, k);
            }
            if has_level(pre, o) {
                let k = choose|k: int| 0 <= k < pre.len() && pre[k].0 == o;
                assert(s@[k].0 == o);
                lemma_level_at(pre, k);
                lemma_level_at(s@, k);
            }
        }
    }
}

impl Workflow {
    /// Reads a block's activation intensity, in thousandths.
    pub fn get_block_activation(&self, block_id: u128) -> (r: u32)
        requires
            self.wf(),
        ensures
            r == level_of(self.active_blocks@, block_id),
    {
        let mut i: usize = 0;
        while i < self.active_blocks.len()
            invariant
                self.wf(),
                i <= self.active_blocks@.len(),
                forall|k: int| 0 <= k < i ==> self.active_blocks@[k].0 != block_id,
            decreases self.active_blocks@.len() - i,
        {
            if self.active_blocks[i].0 == block_id {
                proof {
                    lemma_level_at(self.active_blocks@, i as int);
                }
                return self.active_blocks[i].1;
            }
            i += 1;
        }
        0
    }

    /// Reads a connection's activation intensity, in thousandths.
    pub fn get_connection_activation(&self, conn_id: u128) -> (r: u32)
        requires
            self.wf(),
        ensures
            r == level_of(self.active_connections@, conn_id),
    {
        let mut i: usize = 0;
        while i < self.active_connections.len()
            invariant
                self.wf(),
                i <= self.active_connections@.len(),
                forall|k: int| 0 <= k < i ==> self.active_connections@[k].0 != conn_id,
            decreases self.active_connections@.len() - i,
        {
            if self.active_connections[i].0 == conn_id {
                proof {
                    lemma_level_at(self.active_connections@, i as int);
                }
                return self.active_connections[i].1;
            }
            i += 1;
        }
        0
    }

    /// Marks a block and its outbound connections at full intensity, for
    /// the flow animation.
    pub fn activate_block(&mut self, block_id: u128)
        requires
            old(self).wf(),
        ensures
            final(self).wf(),
            *final(self) == (Workflow {
                active_blocks: final(self).active_blocks,
                active_connections: final(self).active_connections,
                ..*old(self)
            }),
            level_of(final(self).active_blocks@, block_id) == ACTIVATION_FULL,
            forall|o: u128|
                o != block_id ==> level_of(final(self).active_blocks@, o) == level_of(
                    old(self).active_blocks@,
                    o,
                ),
            forall|i: int|
                0 <= i < old(self).connections@.len() && (#[trigger] old(
                    self,
                ).connections@[i]).from_block == block_id ==> level_of(
                    final(self).active_connections@,
                    old(self).connections@[i].id,
                ) == ACTIVATION_FULL,
            forall|c: u128|
                (forall|i: int|
                    0 <= i < old(self).connections@.len() ==> ((#[trigger] old(
                        self,
                    ).connections@[i]).id != c || old(self).connections@[i].from_block
                        != block_id)) ==> level_of(final(self).active_connections@, c) == level_of(
                    old(self).active_connections@,
                    c,
                ),
    {
        set_level(&mut self.active_blocks, block_id, ACTIVATION_FULL);
        let ghost pre = *self;
        let mut i: usize = 0;
        while i < self.connections.len()
            invariant
                old(self).wf(),
                pre.connections@ == old(self).connections@,
                *self == (Workflow { active_connections: self.active_connections, ..pre }),
                i <= self.connections@.len(),
                forall|x: int, y: int|
                    0 <= x < y < self.active_connections@.len()
                        ==> self.active_connections@[x].0 != self.active_connections@[y].0,
                forall|k: int|
                    0 <= k < i && (#[trigger] self.connections@[k]).from_block == block_id
                        ==> level_of(self.active_connections@, self.connections@[k].id)
                        == ACTIVATION_FULL,
                forall|c: u128|
                    (forall|k: int|
                        0 <= k < self.connections@.len() ==> ((#[trigger] self.connections@[k]).id
                            != c || self.connections@[k].from_block != block_id)) ==> level_of(
                        self.active_connections@,
                        c,
                    ) == level_of(pre.active_connections@, c),
            decreases self.connections@.len() - i,
    {
            if self.connections[i].from_block == block_id {
                let cid = self.connections[i].id;
                let ghost before = self.active_connections@;
                set_level(&mut self.active_connections, cid, ACTIVATION_FULL);
                proof {
                    assert forall|k: int|
                        0 <= k < i + 1 && (#[trigger] self.connections@[k]).from_block == block_id
                            implies level_of(self.active_connections@, self.connections@[k].id)
                        == ACTIVATION_FULL by {
                        if self.connections@[k].id != cid {
                            assert(level_of(self.active_connections@, self.connections@[k].id)
                                == level_of(before, self.connections@[k].id));
                        }
                    }
                    assert forall|c: u128|
                        (forall|k: int|
                            0 <= k < self.connections@.len() ==> ((#[trigger] self.connections@[
                            k]).id != c || self.connections@[k].from_block != block_id))
                            implies level_of(self.active_connections@, c) == level_of(
                        pre.active_connections@,
                        c,
                    ) by {
                        assert(self.connections@[i as int].id != c
                            || self.connections@[i as int].from_block != block_id);
                        assert(c != cid);
                        assert(level_of(self.active_connections@, c) == level_of(before, c));
                    }
                }
            }
            i += 1;
        }
    }

    /// Lowers every activation by `rate`, evicting entries that fall to
    /// the epsilon or below. An entry survives exactly when its intensity
    /// exceeded `rate` plus the epsilon, and then carries the difference.
    pub fn decay_activation(&mut self, rate: u32)
        requires
            old(self).wf(),
        ensures
            final(self).wf(),
            *final(self) == (Workflow {
                active_blocks: final(self).active_blocks,
                active_connections: final(self).active_connections,
                ..*old(self)
            }),
            forall|id: u128|
                has_level(final(self).active_blocks@, id) <==> level_of(
                    old(self).active_blocks@,
                    id,
                ) > rate + ACTIVATION_EPSILON,
            forall|id: u128|
                has_level(final(self).active_blocks@, id) ==> level_of(
                    final(self).active_blocks@,
                    id,
                ) == level_of(old(self).active_blocks@, id) - rate,
            forall|id: u128|
                has_level(final(self).active_connections@, id) <==> level_of(
                    old(self).active_connections@,
                    id,
                ) > rate + ACTIVATION_EPSILON,
            forall|id: u128|
                has_level(final(self).active_connections@, id) ==> level_of(
                    final(self).active_connections@,
                    id,
                ) == level_of(old(self).active_connections@, id) - rate,
    {
        let decayed_blocks = decay_list(&self.active_blocks, rate);
        let decayed_conns = decay_list(&self.active_connections, rate);
        self.active_blocks = decayed_blocks;
        self.active_connections = decayed_conns;
    }
}

/// The decayed form of an activation list: every intensity lowered by
/// `rate`, entries at or below the epsilon evicted.
pub open spec fn spec_decay(s: Seq<(u128, u32)>, rate: u32) -> Seq<(u128, u32)>
    decreases s.len(),
{
    if s.len() == 0 {
        Seq::empty()
    } else {
        let rest = spec_decay(s.drop_last(), rate);
        let e = s.last();
        if e.1 > rate + ACTIVATION_EPSILON {
            rest.push((e.0, (e.1 - rate) as u32))
        } else {
            rest
        }
    }
}

/// Decay keeps exactly the entries whose intensity exceeded the rate
/// plus the epsilon, each lowered by the rate.
proof fn lemma_spec_decay(s: Seq<(u128, u32)>, rate: u32)
    requires
        forall|x: int, y: int| 0 <= x < y < s.len() ==> s[x].0 != s[y].0,
    ensures
        ({
            let r = spec_decay(s, rate);
            &&& forall|x: int, y: int| 0 <= x < y < r.len() ==> r[x].0 != r[y].0
            &&& forall|id: u128|
                has_level(r, id) <==> level_of(s, id) > rate + ACTIVATION_EPSILON
            &&& forall|id: u128| has_level(r, id) ==> level_of(r, id) == level_of(s, id) - rate
        }),
    decreases s.len(),
{
    if s.len() > 0 {
        let pre = s.drop_last();
        lemma_spec_decay(pre, rate);
        let rest = spec_decay(pre, rate);
        let e = s.last();
        let r = spec_decay(s, rate);
        // Entries of the decayed prefix come from prefix entries, so they
        // never carry the last entry's identity.
        assert forall|j: int| 0 <= j < rest.len() implies rest[j].0 != e.0 by {
            lemma_level_at(rest, j);
            assert(has_level(rest, rest[j].0));
            assert(level_of(pre, rest[j].0) > rate + ACTIVATION_EPSILON);
            assert(has_level(pre, rest[j].0));
            let k = choose|k: int| 0 <= k < pre.len() && pre[k].0 == rest[j].0;
            assert(s[k].0 == rest[j].0);
            assert(s[k].0 != s[s.len() - 1].0);
        }
        if e.1 > rate + ACTIVATION_EPSILON {
            assert(r == rest.push((e.0, (e.1 - rate) as u32)));
            assert forall|x: int, y: int| 0 <= x < y < r.len() implies r[x].0 != r[y].0 by {
                if y < r.len() - 1 {
                    assert(rest[x].0 != rest[y].0);
                }
            }
        }
        assert forall|id: u128|
            has_level(r, id) == (level_of(s, id) > rate + ACTIVATION_EPSILON) && (has_level(r, id)
                ==> level_of(r, id) == level_of(s, id) - rate) by {
            lemma_level_shape(s, rate, id);
        }
    }
}

/// One identity's fate under decay, separating the last entry from the
/// prefix.
proof fn lemma_level_shape(s: Seq<(u128, u32)>, rate: u32, id: u128)
    requires
        s.len() > 0,
        forall|x: int, y: int| 0 <= x < y < s.len() ==> s[x].0 != s[y].0,
        ({
            let rest = spec_decay(s.drop_last(), rate);
            &&& forall|x: int, y: int| 0 <= x < y < rest.len() ==> rest[x].0 != rest[y].0
            &&& forall|idx: u128|
                has_level(rest, idx) <==> level_of(s.drop_last(), idx) > rate
                    + ACTIVATION_EPSILON
            &&& forall|idx: u128|
                has_level(rest, idx) ==> level_of(rest, idx) == level_of(s.drop_last(), idx)
                    - rate
            &&& forall|j: int| 0 <= j < rest.len() ==> rest[j].0 != s.last().0
        }),
    ensures
        has_level(spec_decay(s, rate), id) <==> level_of(s, id) > rate + ACTIVATION_EPSILON,
        has_level(spec_decay(s, rate), id) ==> level_of(spec_decay(s, rate), id) == level_of(
            s,
            id,
        ) - rate,
{
    let pre = s.drop_last();
    let rest = spec_decay(pre, rate);
    let e = s.last();
    let r = spec_decay(s, rate);
    if id == e.0 {
        lemma_level_at(s, s.len() - 1);
        assert(level_of(s, id) == e.1);
        if e.1 > rate + ACTIVATION_EPSILON {
            assert(r == rest.push((e.0, (e.1 - rate) as u32)));
            assert(r[r.len() - 1].0 == id);
            assert(has_level(r, id));
            assert forall|x: int, y: int| 0 <= x < y < r.len() implies r[x].0 != r[y].0 by {
                if y < r.len() - 1 {
                    assert(rest[x].0 != rest[y].0);
                }
            }
            lemma_level_at(r, r.len() - 1);
        } else {
            assert(r == rest);
            if has_level(r, id) {
                let j = choose|j: int| 0 <= j < r.len() && r[j].0 == id;
                assert(rest[j].0 != e.0);
                assert(false);
            }
        }
    } else {
        // The identity lives in the prefix, on both sides.
        assert forall|lid: u128|
            lid != e.0 implies has_level(s, lid) == has_level(pre, lid) && level_of(s, lid)
            == level_of(pre, lid) by {
            if has_level(s, lid) {
                let k = choose|k: int| 0 <= k < s.len() && s[k].0 == lid;
                assert(k < s.len() - 1);
                assert(pre[k].0 == lid);
                lemma_level_at(s, k);
                lemma_level_at(pre, k);
            }
            if has_level(pre, lid) {
                let k = choose|k: int| 0 <= k < pre.len() && pre[k].0 == lid;
                assert(s[k].0 == lid);
                lemma_level_at(s, k);
                lemma_level_at(pre, k);
            }
        }
        if e.1 > rate + ACTIVATION_EPSILON {
            assert(r == rest.push((e.0, (e.1 - rate) as u32)));
            assert forall|lid: u128|
                lid != e.0 implies has_level(r, lid) == has_level(rest, lid) && level_of(r, lid)
                == level_of(rest, lid) by {
                assert forall|x: int, y: int| 0 <= x < y < r.len() implies r[x].0 != r[y].0 by {
                    if y < r.len() - 1 {
                        assert(rest[x].0 != rest[y].0);
                    }
                }
                if has_level(r, lid) {
                    let k = choose|k: int| 0 <= k < r.len() && r[k].0 == lid;
                    assert(k < r.len() - 1);
                    assert(rest[k].0 == lid);
                    lemma_level_at(r, k);
                    lemma_level_at(rest, k);
                }
                if has_level(rest, lid) {
                    let k = choose|k: int| 0 <= k < rest.len() && rest[k].0 == lid;
                    assert(r[k].0 == lid);
                    assert forall|x: int, y: int|
                        0 <= x < y < r.len() implies r[x].0 != r[y].0 by {
                        if y < r.len() - 1 {
                            assert(rest[x].0 != rest[y].0);
                        }
                    }
                    lemma_level_at(r, k);
                    lemma_level_at(rest, k);
                }
            }
        } else {
            assert(r == rest);
        }
    }
}

/// One decay step over an activation list.
fn decay_list(s: &Vec<(u128, u32)>, rate: u32) -> (r: Vec<(u128, u32)>)
    requires
        forall|x: int, y: int| 0 <= x < y < s@.len() ==> s@[x].0 != s@[y].0,
    ensures
        forall|x: int, y: int| 0 <= x < y < r@.len() ==> r@[x].0 != r@[y].0,
        forall|id: u128|
            has_level(r@, id) <==> level_of(s@, id) > rate + ACTIVATION_EPSILON,
        forall|id: u128|
            has_level(r@, id) ==> level_of(r@, id) == level_of(s@, id) - rate,
{
    let mut r: Vec<(u128, u32)> = Vec::new();
    let mut i: usize = 0;
    while i < s.len()
        invariant
            i <= s@.len(),
            r@ == spec_decay(s@.subrange(0, i as int), rate),
        decreases s@.len() - i,
    {
        let (id, level) = s[i];
        let keep = level > ACTIVATION_EPSILON && (level - ACTIVATION_EPSILON) > rate;
        if keep {
            r.push((id, level - rate));
        }
        proof {
            let pre = s@.subrange(0, i as int);
            let cur = s@.subrange(0, i + 1);
            assert(cur.drop_last() =~= pre);
            assert(cur.last() == s@[i as int]);
            if keep {
                assert(r@ =~= spec_decay(pre, rate).push(
                    (s@[i as int].0, (s@[i as int].1 - rate) as u32),
                ));
            }
        }
        i += 1;
    }
    proof {
        assert(s@.subrange(0, s@.len() as int) =~= s@);
        lemma_spec_decay(s@, rate);
    }
    r
}


/// Filtering keeps a pairwise-distinct key projection pairwise distinct,
/// and every kept element comes from the original list.
proof fn lemma_filter_distinct_keys<A>(s: Seq<A>, pred: spec_fn(A) -> bool, key: spec_fn(A) -> u128)
    requires
        forall|x: int, y: int| 0 <= x < y < s.len() ==> key(s[x]) != key(s[y]),
    ensures
        forall|x: int, y: int|
            0 <= x < y < s.filter(pred).len() ==> key(s.filter(pred)[x]) != key(
                s.filter(pred)[y],
            ),
        forall|j: int| 0 <= j < s.filter(pred).len() ==> s.contains(#[trigger] s.filter(pred)[j]),
    decreases s.len(),
{
    reveal(Seq::filter);
    if s.len() > 0 {
        let pre = s.drop_last();
        lemma_filter_distinct_keys(pre, pred, key);
        let rest = pre.filter(pred);
        let cur = s.filter(pred);
        assert forall|j: int| 0 <= j < rest.len() implies s.contains(#[trigger] rest[j]) by {
            assert(pre.contains(rest[j]));
            let k = choose|k: int| 0 <= k < pre.len() && pre[k] == rest[j];
            assert(s[k] == rest[j]);
        }
        if pred(s.last()) {
            assert(cur == rest.push(s.last()));
            assert forall|x: int, y: int|
                0 <= x < y < cur.len() implies key(cur[x]) != key(cur[y]) by {
                if y < cur.len() - 1 {
                    assert(key(rest[x]) != key(rest[y]));
                } else {
                    assert(s.contains(rest[x]));
                    let k = choose|k: int| 0 <= k < s.len() && s[k] == rest[x];
                    assert(k < s.len() - 1) by {
                        assert(pre.contains(rest[x]));
                        let k2 = choose|k2: int| 0 <= k2 < pre.len() && pre[k2] == rest[x];
                        if key(s[k]) == key(s[s.len() - 1]) {
                            assert(key(s[k2]) != key(s[s.len() - 1]));
                        }
                    }
                    assert(key(s[k]) != key(s[s.len() - 1]));
                }
            }
            assert forall|j: int| 0 <= j < cur.len() implies s.contains(#[trigger] cur[j]) by {
                if j < cur.len() - 1 {
                    assert(s.contains(rest[j]));
                } else {
                    assert(cur[j] == s.last());
                    assert(s[s.len() - 1] == s.last());
                }
            }
        } else {
            assert(cur == rest);
        }
    }
}


/// Workflows with the same blocks and connections determine the same
/// execution order.
proof fn lemma_same_shape_same_order(w1: Workflow, w2: Workflow)
    requires
        w1.blocks@ == w2.blocks@,
        w1.connections@ == w2.connections@,
    ensures
        w1.spec_execution_order() == w2.spec_execution_order(),
{
    assert(w1.node_seq() == w2.node_seq());
    assert forall|p: (u128, u128)|
        w1.live_edge_set().contains(p) == w2.live_edge_set().contains(p) by {}
    assert(w1.live_edge_set() =~= w2.live_edge_set());
}

/// A rearrangement of nodes with pairwise-distinct identities keeps them
/// pairwise distinct.
proof fn lemma_unique_ids_preserved(a: Seq<Node>, b: Seq<Node>)
    requires
        topo::unique_ids(a),
        a.to_multiset() == b.to_multiset(),
    ensures
        topo::unique_ids(b),
{
    broadcast use vstd::seq_lib::group_to_multiset_ensures;

    assert forall|i: int, j: int| 0 <= i < j < b.len() implies b[i].id != b[j].id by {
        if b[i] == b[j] {
            let sub = b.subrange(0, j);
            let rest = b.subrange(j, b.len() as int);
            assert(b =~= sub + rest);
            vstd::seq_lib::lemma_multiset_commutative(sub, rest);
            assert(sub.contains(b[i]));
            assert(sub.to_multiset().contains(b[i]));
            assert(sub.to_multiset().count(b[i]) >= 1);
            assert(rest[0] == b[j]);
            assert(rest.contains(b[j]));
            assert(rest.to_multiset().count(b[j]) >= 1);
            assert(b.to_multiset().count(b[i]) >= 2);
            assert(a.to_multiset().count(b[i]) >= 2);
            assert(a.no_duplicates());
            a.lemma_multiset_has_no_duplicates();
            assert(a.to_multiset().contains(b[i]));
            assert(false);
        } else {
            assert(b.contains(b[i]));
            assert(b.contains(b[j]));
            assert(a.to_multiset().contains(b[i]));
            assert(a.to_multiset().contains(b[j]));
            assert(a.contains(b[i]));
            assert(a.contains(b[j]));
            let x = choose|x: int| 0 <= x < a.len() && a[x] == b[i];
            let y = choose|y: int| 0 <= y < a.len() && a[y] == b[j];
            assert(a[x].id != a[y].id || a[x] == a[y]);
        }
    }
}

/// Two workflows of the same shape — the same placed blocks and the same
/// live edges, in whatever storage order — determine the same execution
/// order.
pub proof fn lemma_order_deterministic(w1: Workflow, w2: Workflow)
    requires
        w1.wf(),
        w2.wf(),
        w1.node_seq().to_multiset() == w2.node_seq().to_multiset(),
        w1.live_edge_set() == w2.live_edge_set(),
    ensures
        w1.spec_execution_order() == w2.spec_execution_order(),
{
    w1.node_seq().lemma_sort_by_ensures(key_order());
    w2.node_seq().lemma_sort_by_ensures(key_order());
    topo::lemma_key_order_total();
    lemma_sorted_unique(
        w1.node_seq().sort_by(key_order()),
        w2.node_seq().sort_by(key_order()),
        key_order(),
    );
}


impl Workflow {
    /// Inserts a block (replacing any block of the same identity), marks
    /// it dirty, and recomputes the execution order. Returns the block's
    /// identity.
    pub fn add_block(&mut self, block: Block) -> (r: u128)
        requires
            old(self).wf(),
            block_wf(block),
        ensures
            final(self).wf(),
            r == block.id,
            !old(self).has_block(block.id) ==> final(self).blocks@ == old(self).blocks@.push(
                block,
            ),
            old(self).has_block(block.id) ==> (exists|i: int|
                0 <= i < old(self).blocks@.len() && old(self).blocks@[i].id == block.id
                    && final(self).blocks@ == old(self).blocks@.update(i, block)),
            final(self).connections@ == old(self).connections@,
            final(self).groups@ == old(self).groups@,
            final(self).name@ == old(self).name@,
            final(self).readonly == old(self).readonly,
            final(self).dirty_set().contains(block.id),
            old(self).dirty_set().subset_of(final(self).dirty_set()),
            forall|t: u128|
                old(self).conn_succ(block.id, t) ==> final(self).dirty_set().contains(t),
            forall|v: u128, t: u128|
                final(self).dirty_set().contains(v) && !old(self).dirty_set().contains(v)
                    && #[trigger] old(self).conn_succ(v, t) ==> final(self).dirty_set().contains(
                    t,
                ),
            *final(self) == (Workflow {
                blocks: final(self).blocks,
                dirty_blocks: final(self).dirty_blocks,
                execution_order: final(self).execution_order,
                ..*old(self)
            }),
            final(self).execution_order@ == final(self).spec_execution_order(),
    {
        let id = block.id;
        let ghost pre = *self;
        let ghost gblock = block;
        match self.block_index(id) {
            Some(i) => {
                self.blocks.remove(i);
                self.blocks.insert(i, block);
                proof {
                    assert(pre.block_ids()[i as int] == id);
                    assert(pre.has_block(id));
                    assert(self.blocks@ =~= pre.blocks@.update(i as int, gblock));
                    assert forall|x: int, y: int|
                        0 <= x < y < self.blocks@.len() implies self.blocks@[x].id
                        != self.blocks@[y].id by {
                        assert(pre.blocks@[x].id != pre.blocks@[y].id);
                        if x == i {
                            assert(pre.blocks@[i as int].id == gblock.id);
                        }
                        if y == i {
                            assert(pre.blocks@[i as int].id == gblock.id);
                        }
                    }
                }
            }
            None => {
                self.blocks.push(block);
                proof {
                    assert(self.blocks@ == pre.blocks@.push(gblock));
                    assert forall|x: int, y: int|
                        0 <= x < y < self.blocks@.len() implies self.blocks@[x].id
                        != self.blocks@[y].id by {
                        if y < self.blocks@.len() - 1 {
                            assert(pre.blocks@[x].id != pre.blocks@[y].id);
                        } else {
                            assert(!pre.has_block(self.blocks@[y].id));
                            assert(pre.block_ids()[x] == pre.blocks@[x].id);
                        }
                    }
                }
            }
        }
        let ghost m0 = *self;
        self.mark_dirty(id);
        let ghost shaped = *self;
        self.update_execution_order();
        proof {
            lemma_same_shape_same_order(*self, shaped);
            assert(pre == *old(self));
            assert(self.blocks@ == shaped.blocks@);
            if !pre.has_block(gblock.id) {
                assert(shaped.blocks@ == pre.blocks@.push(gblock));
                assert(self.blocks@ == pre.blocks@.push(gblock));
                assert(gblock == block);
                assert(self.blocks@ == old(self).blocks@.push(block));
            }
            assert(m0.connections@ == pre.connections@);
            assert(m0.dirty_set() == pre.dirty_set());
            assert forall|a: u128, b: u128| #[trigger] pre.conn_succ(a, b) implies m0.conn_succ(
                a,
                b,
            ) by {}
            assert forall|a: u128, b: u128| #[trigger] m0.conn_succ(a, b) implies pre.conn_succ(
                a,
                b,
            ) by {}
            assert(m0 == (Workflow { blocks: m0.blocks, ..pre }));
            assert(*self == (Workflow {
                blocks: self.blocks,
                dirty_blocks: self.dirty_blocks,
                execution_order: self.execution_order,
                ..pre
            }));
        }
        id
    }

    /// Deletes a block: the instance itself, every connection touching
    /// it, and its membership in any group; then recomputes the order.
    pub fn remove_block(&mut self, id: u128)
        requires
            old(self).wf(),
        ensures
            final(self).wf(),
            final(self).blocks@ == old(self).blocks@.filter(|b: Block| b.id != id),
            final(self).connections@ == old(self).connections@.filter(
                |c: Connection| c.from_block != id && c.to_block != id,
            ),
            final(self).groups@.len() == old(self).groups@.len(),
            forall|i: int|
                0 <= i < old(self).groups@.len() ==> {
                    let g = #[trigger] final(self).groups@[i];
                    let og = old(self).groups@[i];
                    g.id == og.id && g.name@ == og.name@ && g.color == og.color && g.position
                        == og.position && g.size == og.size && g.blocks@ == og.blocks@.filter(
                        |b: u128| b != id,
                    )
                },
            final(self).name@ == old(self).name@,
            final(self).readonly == old(self).readonly,
            final(self).dirty_blocks@ == old(self).dirty_blocks@,
            *final(self) == (Workflow {
                blocks: final(self).blocks,
                connections: final(self).connections,
                groups: final(self).groups,
                execution_order: final(self).execution_order,
                ..*old(self)
            }),
            final(self).execution_order@ == final(self).spec_execution_order(),
    {
        broadcast use vstd::seq_lib::group_seq_properties;

        let ghost pre = *self;
        // Drop the block itself.
        let mut olds: Vec<Block> = Vec::new();
        core::mem::swap(&mut olds, &mut self.blocks);
        let ghost orig = olds@;
        let mut kept: Vec<Block> = Vec::new();
        while olds.len() > 0
            invariant
                olds@.len() <= orig.len(),
                olds@ == orig.subrange(
                    (orig.len() - olds@.len()) as int,
                    orig.len() as int,
                ),
                kept@ == orig.subrange(0, (orig.len() - olds@.len()) as int).filter(
                    |b: Block| b.id != id,
                ),
            decreases olds@.len(),
        {
            let ghost i = orig.len() - olds@.len();
            let b = olds.remove(0);
            proof {
                assert(b == orig[i as int]);
                assert(olds@ =~= orig.subrange(i + 1, orig.len() as int));
                assert(orig.subrange(0, i + 1).drop_last() =~= orig.subrange(0, i as int));
                assert(orig.subrange(0, i + 1).last() == orig[i as int]);
                reveal_with_fuel(Seq::filter, 2);
            }
            if b.id != id {
                kept.push(b);
            }
        }
        proof {
            assert(orig.subrange(0, orig.len() as int) =~= orig);
        }
        self.blocks = kept;

        // Drop the incident connections.
        let mut kept_conns: Vec<Connection> = Vec::new();
        let mut i: usize = 0;
        while i < self.connections.len()
            invariant
                i <= self.connections@.len(),
                kept_conns@ == self.connections@.subrange(0, i as int).filter(
                    |c: Connection| c.from_block != id && c.to_block != id,
                ),
            decreases self.connections@.len() - i,
        {
            proof {
                assert(self.connections@.subrange(0, i + 1).drop_last()
                    =~= self.connections@.subrange(0, i as int));
                assert(self.connections@.subrange(0, i + 1).last()
                    == self.connections@[i as int]);
                reveal_with_fuel(Seq::filter, 2);
            }
            let c = &self.connections[i];
            if c.from_block != id && c.to_block != id {
                kept_conns.push(c.clone());
            }
            i += 1;
        }
        proof {
            assert(self.connections@.subrange(0, self.connections@.len() as int)
                =~= self.connections@);
        }
        self.connections = kept_conns;

        // Leave any group it was a member of.
        let ghost g0 = *self;
        let mut g: usize = 0;
        while g < self.groups.len()
            invariant
                pre.wf(),
                *self == (Workflow { groups: self.groups, ..g0 }),
                g <= self.groups@.len(),
                self.groups@.len() == pre.groups@.len(),
                forall|k: int|
                    g <= k < self.groups@.len() ==> #[trigger] self.groups@[k]
                        == pre.groups@[k],
                forall|k: int|
                    0 <= k < g ==> {
                        let ng = #[trigger] self.groups@[k];
                        let og = pre.groups@[k];
                        ng.id == og.id && ng.name@ == og.name@ && ng.color == og.color
                            && ng.position == og.position && ng.size == og.size && ng.blocks@
                            == og.blocks@.filter(|b: u128| b != id)
                    },
                self.blocks@ == pre.blocks@.filter(|b: Block| b.id != id),
                self.connections@ == pre.connections@.filter(
                    |c: Connection| c.from_block != id && c.to_block != id,
                ),
                self.name@ == pre.name@,
                self.readonly == pre.readonly,
                self.dirty_blocks@ == pre.dirty_blocks@,
                self.active_blocks@ == pre.active_blocks@,
                self.active_connections@ == pre.active_connections@,
            decreases self.groups@.len() - g,
        {
            let mut members: Vec<u128> = Vec::new();
            let mut j: usize = 0;
            while j < self.groups[g].blocks.len()
                invariant
                    g < self.groups@.len(),
                    j <= self.groups@[g as int].blocks@.len(),
                    members@ == self.groups@[g as int].blocks@.subrange(0, j as int).filter(
                        |b: u128| b != id,
                    ),
                decreases self.groups@[g as int].blocks@.len() - j,
            {
                proof {
                    let gb = self.groups@[g as int].blocks@;
                    assert(gb.subrange(0, j + 1).drop_last() =~= gb.subrange(0, j as int));
                    assert(gb.subrange(0, j + 1).last() == gb[j as int]);
                    reveal_with_fuel(Seq::filter, 2);
                }
                let m = self.groups[g].blocks[j];
                if m != id {
                    members.push(m);
                }
                j += 1;
            }
            proof {
                let gb = self.groups@[g as int].blocks@;
                assert(gb.subrange(0, gb.len() as int) =~= gb);
            }
            let gref = &mut self.groups[g];
            gref.blocks = members;
            g += 1;
        }

        // The shape changed: recompute the order.
        proof {
            lemma_filter_distinct_keys(pre.blocks@, |b: Block| b.id != id, |b: Block| b.id);
            lemma_filter_distinct_keys(
                pre.connections@,
                |c: Connection| c.from_block != id && c.to_block != id,
                |c: Connection| c.id,
            );
            assert forall|i2: int|
                0 <= i2 < self.blocks@.len() implies block_wf(#[trigger] self.blocks@[i2]) by {
                assert(pre.blocks@.contains(self.blocks@[i2]));
                let k = choose|k: int|
                    0 <= k < pre.blocks@.len() && pre.blocks@[k] == self.blocks@[i2];
            }
        }
        let ghost shaped = *self;
        self.update_execution_order();
        proof {
            lemma_same_shape_same_order(*self, shaped);
            assert(g0 == (Workflow {
                blocks: g0.blocks,
                connections: g0.connections,
                ..pre
            }));
            assert(*self == (Workflow {
                blocks: self.blocks,
                connections: self.connections,
                groups: self.groups,
                execution_order: self.execution_order,
                ..pre
            }));
        }
    }
}


impl Workflow {
    /// Inserts a connection (replacing any of the same identity), marks
    /// its target dirty, and recomputes the execution order. Returns the
    /// connection's identity.
    pub fn add_connection(&mut self, connection: Connection) -> (r: u128)
        requires
            old(self).wf(),
        ensures
            final(self).wf(),
            r == connection.id,
            (forall|i: int|
                0 <= i < old(self).connections@.len() ==> (#[trigger] old(
                    self,
                ).connections@[i]).id != connection.id) ==> final(self).connections@ == old(
                self,
            ).connections@.push(connection),
            (exists|i: int|
                0 <= i < old(self).connections@.len() && (#[trigger] old(
                    self,
                ).connections@[i]).id == connection.id) ==> (exists|i: int|
                0 <= i < old(self).connections@.len() && (#[trigger] old(
                    self,
                ).connections@[i]).id == connection.id && final(self).connections@ == old(
                self,
            ).connections@.update(i, connection)),
            final(self).blocks@ == old(self).blocks@,
            final(self).groups@ == old(self).groups@,
            final(self).name@ == old(self).name@,
            final(self).readonly == old(self).readonly,
            final(self).dirty_set().contains(connection.to_block),
            old(self).dirty_set().subset_of(final(self).dirty_set()),
            forall|t: u128|
                old(self).conn_succ(connection.to_block, t) ==> final(self).dirty_set().contains(
                    t,
                ),
            forall|v: u128, t: u128|
                final(self).dirty_set().contains(v) && !old(self).dirty_set().contains(v)
                    && #[trigger] old(self).conn_succ(v, t) ==> final(self).dirty_set().contains(
                    t,
                ),
            *final(self) == (Workflow {
                connections: final(self).connections,
                dirty_blocks: final(self).dirty_blocks,
                execution_order: final(self).execution_order,
                ..*old(self)
            }),
            final(self).execution_order@ == final(self).spec_execution_order(),
    {
        let id = connection.id;
        let target = connection.to_block;
        self.mark_dirty(target);
        let ghost pre = *self;
        let ghost gconn = connection;
        // Find an entry of the same identity, if any.
        let mut at: Option<usize> = None;
        let mut i: usize = 0;
        while i < self.connections.len()
            invariant
                i <= self.connections@.len(),
                match at {
                    Some(k) => k < self.connections@.len() && self.connections@[k as int].id
                        == id,
                    None => forall|k: int| 0 <= k < i ==> self.connections@[k].id != id,
                },
            decreases self.connections@.len() - i,
        {
            if self.connections[i].id == id {
                at = Some(i);
            }
            i += 1;
        }
        match at {
            Some(k) => {
                self.connections.remove(k);
                self.connections.insert(k, connection);
                proof {
                    assert(self.connections@ =~= pre.connections@.update(k as int, gconn));
                    assert forall|x: int, y: int|
                        0 <= x < y < self.connections@.len() implies self.connections@[x].id
                        != self.connections@[y].id by {
                        assert(pre.connections@[x].id != pre.connections@[y].id);
                        if x == k {
                            assert(pre.connections@[k as int].id == gconn.id);
                        }
                        if y == k {
                            assert(pre.connections@[k as int].id == gconn.id);
                        }
                    }
                }
            }
            None => {
                self.connections.push(connection);
                proof {
                    assert forall|x: int, y: int|
                        0 <= x < y < self.connections@.len() implies self.connections@[x].id
                        != self.connections@[y].id by {
                        if y < self.connections@.len() - 1 {
                            assert(pre.connections@[x].id != pre.connections@[y].id);
                        }
                    }
                }
            }
        }
        let ghost shaped = *self;
        self.update_execution_order();
        proof {
            lemma_same_shape_same_order(*self, shaped);
            assert(*self == (Workflow {
                connections: self.connections,
                dirty_blocks: self.dirty_blocks,
                execution_order: self.execution_order,
                ..*old(self)
            }));
        }
        id
    }

    /// An editor-layer insertion: on a read-only workflow the request is
    /// rejected and nothing changes; otherwise the connection is added.
    pub fn try_add_connection(&mut self, connection: Connection) -> (r: bool)
        requires
            old(self).wf(),
        ensures
            final(self).wf(),
            r == !old(self).readonly,
            old(self).readonly ==> *final(self) == *old(self),
            !old(self).readonly ==> final(self).conn_succ(
                connection.from_block,
                connection.to_block,
            ) && final(self).execution_order@ == final(self).spec_execution_order(),
    {
        if !self.is_editable() {
            return false;
        }
        let ghost gconn = connection;
        self.add_connection(connection);
        proof {
            if forall|i: int|
                0 <= i < old(self).connections@.len() ==> (#[trigger] old(
                    self,
                ).connections@[i]).id != gconn.id {
                let n = self.connections@.len() - 1;
                assert(self.connections@[n] == gconn);
            } else {
                let i = choose|i: int|
                    0 <= i < old(self).connections@.len() && (#[trigger] old(
                        self,
                    ).connections@[i]).id == gconn.id && self.connections@ == old(
                        self,
                    ).connections@.update(i, gconn);
                assert(self.connections@[i] == gconn);
            }
        }
        true
    }

    /// Deletes a connection by identity, marking its former target dirty;
    /// the execution order is recomputed either way.
    pub fn remove_connection(&mut self, id: u128)
        requires
            old(self).wf(),
        ensures
            final(self).wf(),
            final(self).connections@ == old(self).connections@.filter(
                |c: Connection| c.id != id,
            ),
            final(self).blocks@ == old(self).blocks@,
            final(self).groups@ == old(self).groups@,
            final(self).name@ == old(self).name@,
            final(self).readonly == old(self).readonly,
            old(self).dirty_set().subset_of(final(self).dirty_set()),
            (forall|i: int|
                0 <= i < old(self).connections@.len() ==> (#[trigger] old(
                    self,
                ).connections@[i]).id != id) ==> final(self).dirty_blocks@ == old(
                self,
            ).dirty_blocks@,
            forall|i: int|
                0 <= i < old(self).connections@.len() && (#[trigger] old(
                    self,
                ).connections@[i]).id == id ==> final(self).dirty_set().contains(
                    old(self).connections@[i].to_block,
                ),
            forall|i: int, t: u128|
                0 <= i < old(self).connections@.len() && (#[trigger] old(
                    self,
                ).connections@[i]).id == id && #[trigger] final(self).conn_succ(
                    old(self).connections@[i].to_block,
                    t,
                ) ==> final(self).dirty_set().contains(t),
            forall|v: u128, t: u128|
                final(self).dirty_set().contains(v) && !old(self).dirty_set().contains(v)
                    && #[trigger] final(self).conn_succ(v, t) ==> final(self).dirty_set().contains(
                    t,
                ),
            *final(self) == (Workflow {
                connections: final(self).connections,
                dirty_blocks: final(self).dirty_blocks,
                execution_order: final(self).execution_order,
                ..*old(self)
            }),
            final(self).execution_order@ == final(self).spec_execution_order(),
    {
        broadcast use vstd::seq_lib::group_seq_properties;

        let ghost pre = *self;
        let mut found: Option<u128> = None;
        let mut kept: Vec<Connection> = Vec::new();
        let mut i: usize = 0;
        while i < self.connections.len()
            invariant
                pre.wf(),
                *self == pre,
                i <= self.connections@.len(),
                kept@ == self.connections@.subrange(0, i as int).filter(
                    |c: Connection| c.id != id,
                ),
                match found {
                    Some(t) => exists|k: int|
                        0 <= k < i && (#[trigger] self.connections@[k]).id == id
                            && self.connections@[k].to_block == t,
                    None => forall|k: int| 0 <= k < i ==> self.connections@[k].id != id,
                },
            decreases self.connections@.len() - i,
        {
            proof {
                assert(self.connections@.subrange(0, i + 1).drop_last()
                    =~= self.connections@.subrange(0, i as int));
                assert(self.connections@.subrange(0, i + 1).last()
                    == self.connections@[i as int]);
                reveal_with_fuel(Seq::filter, 2);
            }
            let c = &self.connections[i];
            if c.id != id {
                kept.push(c.clone());
            } else {
                found = Some(c.to_block);
            }
            i += 1;
        }
        proof {
            assert(self.connections@.subrange(0, self.connections@.len() as int)
                =~= self.connections@);
        }
        self.connections = kept;
        proof {
            lemma_filter_distinct_keys(
                pre.connections@,
                |c: Connection| c.id != id,
                |c: Connection| c.id,
            );
        }
        let ghost m1 = *self;
        match found {
            Some(target) => {
                self.mark_dirty(target);
                proof {
                    assert forall|k: int|
                        0 <= k < pre.connections@.len() && (#[trigger] pre.connections@[k]).id
                            == id implies self.dirty_set().contains(
                        pre.connections@[k].to_block,
                    ) by {
                        let w = choose|w: int|
                            0 <= w < pre.connections@.len() && (#[trigger] pre.connections@[
                            w]).id == id && pre.connections@[w].to_block == target;
                        if k != w {
                            assert(pre.connections@[k].id == pre.connections@[w].id);
                            assert(false);
                        }
                    }
                }
            }
            None => {}
        }
        let ghost shaped = *self;
        self.update_execution_order();
        proof {
            lemma_same_shape_same_order(*self, shaped);
            assert(self.connections@ == m1.connections@);
            assert forall|a: u128, b: u128| #[trigger] self.conn_succ(a, b) implies m1.conn_succ(
                a,
                b,
            ) by {}
            assert forall|a: u128, b: u128| #[trigger] m1.conn_succ(a, b) implies self.conn_succ(
                a,
                b,
            ) by {}
            assert(m1.dirty_set() == pre.dirty_set());
            assert(*self == (Workflow {
                connections: self.connections,
                dirty_blocks: self.dirty_blocks,
                execution_order: self.execution_order,
                ..pre
            }));
            assert forall|i2: int, t: u128|
                0 <= i2 < pre.connections@.len() && (#[trigger] pre.connections@[i2]).id == id
                    && #[trigger] self.conn_succ(pre.connections@[i2].to_block, t)
                    implies self.dirty_set().contains(t) by {
                match found {
                    Some(target) => {
                        let w = choose|w: int|
                            0 <= w < pre.connections@.len() && (#[trigger] pre.connections@[
                            w]).id == id && pre.connections@[w].to_block == target;
                        if i2 != w {
                            assert(pre.connections@[i2].id == pre.connections@[w].id);
                            assert(false);
                        }
                        assert(m1.conn_succ(target, t));
                    }
                    None => {
                        assert(pre.connections@[i2].id != id);
                        assert(false);
                    }
                }
            }
        }
    }

    /// The connections leading into a block, in storage order, as copies.
    pub fn get_input_connections(&self, block_id: u128) -> (r: Vec<Connection>)
        ensures
            r@ == self.connections@.filter(|c: Connection| c.to_block == block_id),
    {
        let mut r: Vec<Connection> = Vec::new();
        let mut i: usize = 0;
        while i < self.connections.len()
            invariant
                i <= self.connections@.len(),
                r@ == self.connections@.subrange(0, i as int).filter(
                    |c: Connection| c.to_block == block_id,
                ),
            decreases self.connections@.len() - i,
        {
            proof {
                assert(self.connections@.subrange(0, i + 1).drop_last()
                    =~= self.connections@.subrange(0, i as int));
                assert(self.connections@.subrange(0, i + 1).last()
                    == self.connections@[i as int]);
                reveal_with_fuel(Seq::filter, 2);
            }
            let c = &self.connections[i];
            if c.to_block == block_id {
                r.push(c.clone());
            }
            i += 1;
        }
        proof {
            assert(self.connections@.subrange(0, self.connections@.len() as int)
                =~= self.connections@);
        }
        r
    }

    /// The connections leading out of a block, in storage order, as
    /// copies.
    pub fn get_output_connections(&self, block_id: u128) -> (r: Vec<Connection>)
        ensures
            r@ == self.connections@.filter(|c: Connection| c.from_block == block_id),
    {
        let mut r: Vec<Connection> = Vec::new();
        let mut i: usize = 0;
        while i < self.connections.len()
            invariant
                i <= self.connections@.len(),
                r@ == self.connections@.subrange(0, i as int).filter(
                    |c: Connection| c.from_block == block_id,
                ),
            decreases self.connections@.len() - i,
        {
            proof {
                assert(self.connections@.subrange(0, i + 1).drop_last()
                    =~= self.connections@.subrange(0, i as int));
                assert(self.connections@.subrange(0, i + 1).last()
                    == self.connections@[i as int]);
                reveal_with_fuel(Seq::filter, 2);
            }
            let c = &self.connections[i];
            if c.from_block == block_id {
                r.push(c.clone());
            }
            i += 1;
        }
        proof {
            assert(self.connections@.subrange(0, self.connections@.len() as int)
                =~= self.connections@);
        }
        r
    }

    /// The identities of the selected blocks, in storage order.
    pub fn selected_blocks(&self) -> (r: Vec<u128>)
        ensures
            r@ == self.blocks@.filter(|b: Block| b.selected).map_values(|b: Block| b.id),
    {
        let mut r: Vec<u128> = Vec::new();
        let mut i: usize = 0;
        while i < self.blocks.len()
            invariant
                i <= self.blocks@.len(),
                r@ == self.blocks@.subrange(0, i as int).filter(|b: Block| b.selected).map_values(
                    |b: Block| b.id,
                ),
            decreases self.blocks@.len() - i,
        {
            proof {
                assert(self.blocks@.subrange(0, i + 1).drop_last() =~= self.blocks@.subrange(
                    0,
                    i as int,
                ));
                assert(self.blocks@.subrange(0, i + 1).last() == self.blocks@[i as int]);
                reveal_with_fuel(Seq::filter, 2);
                let pre_f = self.blocks@.subrange(0, i as int).filter(|b: Block| b.selected);
                if self.blocks@[i as int].selected {
                    assert(pre_f.push(self.blocks@[i as int]).map_values(|b: Block| b.id)
                        =~= pre_f.map_values(|b: Block| b.id).push(self.blocks@[i as int].id));
                }
            }
            if self.blocks[i].selected {
                r.push(self.blocks[i].id);
            }
            i += 1;
        }
        proof {
            assert(self.blocks@.subrange(0, self.blocks@.len() as int) =~= self.blocks@);
        }
        r
    }

    /// Deselects every block.
    pub fn clear_selection(&mut self)
        requires
            old(self).wf(),
        ensures
            final(self).wf(),
            final(self).blocks@.len() == old(self).blocks@.len(),
            forall|i: int|
                0 <= i < old(self).blocks@.len() ==> final(self).blocks@[i] == (Block {
                    selected: false,
                    ..old(self).blocks@[i]
                }),
            *final(self) == (Workflow { blocks: final(self).blocks, ..*old(self) }),
    {
        let ghost pre = *self;
        let mut i: usize = 0;
        while i < self.blocks.len()
            invariant
                i <= self.blocks@.len(),
                self.blocks@.len() == pre.blocks@.len(),
                *self == (Workflow { blocks: self.blocks, ..pre }),
                forall|k: int|
                    0 <= k < i ==> self.blocks@[k] == (Block {
                        selected: false,
                        ..pre.blocks@[k]
                    }),
                forall|k: int|
                    i <= k < self.blocks@.len() ==> self.blocks@[k] == pre.blocks@[k],
            decreases self.blocks@.len() - i,
        {
            let bref = &mut self.blocks[i];
            bref.selected = false;
            i += 1;
        }
        proof {
            assert forall|i2: int|
                0 <= i2 < self.blocks@.len() implies block_wf(#[trigger] self.blocks@[i2]) by {
                assert(block_wf(pre.blocks@[i2]));
            }
            assert forall|x: int, y: int|
                0 <= x < y < self.blocks@.len() implies self.blocks@[x].id
                != self.blocks@[y].id by {
                assert(pre.blocks@[x].id != pre.blocks@[y].id);
            }
        }
    }

    /// Selects exactly the blocks whose rectangle meets the given one.
    pub fn select_in_rect(&mut self, low: crate::geometry::Vec2, high: crate::geometry::Vec2)
        requires
            old(self).wf(),
        ensures
            final(self).wf(),
            final(self).blocks@.len() == old(self).blocks@.len(),
            forall|i: int|
                0 <= i < old(self).blocks@.len() ==> {
                    let b = #[trigger] old(self).blocks@[i];
                    let hit = b.position.x < high.x && b.position.x + b.size.x > low.x
                        && b.position.y < high.y && b.position.y + b.size.y > low.y;
                    final(self).blocks@[i] == (Block { selected: hit, ..b })
                },
            *final(self) == (Workflow { blocks: final(self).blocks, ..*old(self) }),
    {
        let ghost pre = *self;
        let mut i: usize = 0;
        while i < self.blocks.len()
            invariant
                i <= self.blocks@.len(),
                self.blocks@.len() == pre.blocks@.len(),
                *self == (Workflow { blocks: self.blocks, ..pre }),
                forall|k: int|
                    0 <= k < i ==> {
                        let b = #[trigger] pre.blocks@[k];
                        let hit = b.position.x < high.x && b.position.x + b.size.x > low.x
                            && b.position.y < high.y && b.position.y + b.size.y > low.y;
                        self.blocks@[k] == (Block { selected: hit, ..b })
                    },
                forall|k: int|
                    i <= k < self.blocks@.len() ==> self.blocks@[k] == pre.blocks@[k],
            decreases self.blocks@.len() - i,
        {
            let px = self.blocks[i].position.x;
            let py = self.blocks[i].position.y;
            let sx = self.blocks[i].size.x;
            let sy = self.blocks[i].size.y;
            let hit = (px as i128) < (high.x as i128) && (px as i128) + (sx as i128)
                > (low.x as i128) && (py as i128) < (high.y as i128) && (py as i128)
                + (sy as i128) > (low.y as i128);
            let bref = &mut self.blocks[i];
            bref.selected = hit;
            i += 1;
        }
        proof {
            assert forall|i2: int|
                0 <= i2 < self.blocks@.len() implies block_wf(#[trigger] self.blocks@[i2]) by {
                assert(block_wf(pre.blocks@[i2]));
            }
            assert forall|x: int, y: int|
                0 <= x < y < self.blocks@.len() implies self.blocks@[x].id
                != self.blocks@[y].id by {
                assert(pre.blocks@[x].id != pre.blocks@[y].id);
            }
        }
    }
}


/// The mathematical model of a workflow.
pub struct WorkflowView {
    pub name: Seq<char>,
    pub blocks: Seq<BlockView>,
    pub connections: Seq<crate::connection::ConnectionView>,
    pub groups: Seq<crate::group::GroupView>,
    pub readonly: bool,
    pub execution_order: Seq<u128>,
    pub dirty_blocks: Seq<u128>,
    pub active_blocks: Seq<(u128, u32)>,
    pub active_connections: Seq<(u128, u32)>,
}

impl DeepView for Workflow {
    type V = WorkflowView;

    open spec fn deep_view(&self) -> WorkflowView {
        WorkflowView {
            name: self.name@,
            blocks: self.blocks.deep_view(),
            connections: self.connections.deep_view(),
            groups: self.groups.deep_view(),
            readonly: self.readonly,
            execution_order: self.execution_order@,
            dirty_blocks: self.dirty_blocks@,
            active_blocks: self.active_blocks@,
            active_connections: self.active_connections@,
        }
    }
}

impl Clone for Workflow {
    /// Deep copy; a well-formed workflow's copy models the same workflow.
    fn clone(&self) -> (r: Workflow)
        ensures
            self.wf() ==> r.wf() && r.deep_view() == self.deep_view(),
    {
        broadcast use vstd::std_specs::vec::group_vec_axioms;

        let blocks = clone_blocks(&self.blocks);
        let r = Workflow {
            name: self.name.clone(),
            blocks,
            connections: clone_conns(&self.connections),
            groups: clone_groups(&self.groups),
            readonly: self.readonly,
            execution_order: copy_ids(&self.execution_order),
            dirty_blocks: copy_ids(&self.dirty_blocks),
            active_blocks: copy_pairs(&self.active_blocks),
            active_connections: copy_pairs(&self.active_connections),
        };
        proof {
            if self.wf() {
                assert(r.blocks.deep_view() =~= self.blocks.deep_view());
                assert(r.groups.deep_view() =~= self.groups.deep_view());
                assert forall|i2: int|
                    0 <= i2 < r.blocks@.len() implies block_wf(#[trigger] r.blocks@[i2]) by {
                    assert(block_wf(self.blocks@[i2]));
                }
                assert forall|x: int, y: int|
                    0 <= x < y < r.blocks@.len() implies r.blocks@[x].id != r.blocks@[y].id by {
                    assert(r.blocks@[x].deep_view() == self.blocks@[x].deep_view());
                    assert(r.blocks@[y].deep_view() == self.blocks@[y].deep_view());
                }
            }
        }
        r
    }
}

/// Copies an identity list.
fn copy_ids(s: &Vec<u128>) -> (r: Vec<u128>)
    ensures
        r@ == s@,
{
    let mut r: Vec<u128> = Vec::new();
    let mut i: usize = 0;
    while i < s.len()
        invariant
            i <= s@.len(),
            r@ == s@.subrange(0, i as int),
        decreases s@.len() - i,
    {
        r.push(s[i]);
        proof {
            assert(r@ =~= s@.subrange(0, i + 1));
        }
        i += 1;
    }
    proof {
        assert(s@.subrange(0, s@.len() as int) =~= s@);
    }
    r
}

/// Copies an activation list.
fn copy_pairs(s: &Vec<(u128, u32)>) -> (r: Vec<(u128, u32)>)
    ensures
        r@ == s@,
{
    let mut r: Vec<(u128, u32)> = Vec::new();
    let mut i: usize = 0;
    while i < s.len()
        invariant
            i <= s@.len(),
            r@ == s@.subrange(0, i as int),
        decreases s@.len() - i,
    {
        r.push(s[i]);
        proof {
            assert(r@ =~= s@.subrange(0, i + 1));
        }
        i += 1;
    }
    proof {
        assert(s@.subrange(0, s@.len() as int) =~= s@);
    }
    r
}

/// Copies a connection list.
fn clone_conns(s: &Vec<Connection>) -> (r: Vec<Connection>)
    ensures
        r@ == s@,
{
    let mut r: Vec<Connection> = Vec::new();
    let mut i: usize = 0;
    while i < s.len()
        invariant
            i <= s@.len(),
            r@ == s@.subrange(0, i as int),
        decreases s@.len() - i,
    {
        r.push(s[i].clone());
        proof {
            assert(r@ =~= s@.subrange(0, i + 1));
        }
        i += 1;
    }
    proof {
        assert(s@.subrange(0, s@.len() as int) =~= s@);
    }
    r
}

/// Clones a block list, preserving each block's model.
fn clone_blocks(blocks: &Vec<Block>) -> (r: Vec<Block>)
    ensures
        r@.len() == blocks@.len(),
        forall|i: int|
            0 <= i < blocks@.len() ==> block_wf(#[trigger] blocks@[i]) ==> block_wf(r@[i])
                && r@[i].deep_view() == blocks@[i].deep_view() && r@[i].id == blocks@[i].id,
{
    let mut r: Vec<Block> = Vec::new();
    let mut i: usize = 0;
    while i < blocks.len()
        invariant
            i <= blocks@.len(),
            r@.len() == i,
            forall|k: int|
                0 <= k < i ==> block_wf(#[trigger] blocks@[k]) ==> block_wf(r@[k])
                    && r@[k].deep_view() == blocks@[k].deep_view() && r@[k].id == blocks@[k].id,
        decreases blocks@.len() - i,
    {
        r.push(blocks[i].clone());
        i += 1;
    }
    r
}

/// Clones a group list, preserving each group's model.
fn clone_groups(groups: &Vec<BlockGroup>) -> (r: Vec<BlockGroup>)
    ensures
        r@.len() == groups@.len(),
        forall|i: int|
            0 <= i < groups@.len() ==> (#[trigger] r@[i]).deep_view()
                == groups@[i].deep_view(),
{
    let mut r: Vec<BlockGroup> = Vec::new();
    let mut i: usize = 0;
    while i < groups.len()
        invariant
            i <= groups@.len(),
            r@.len() == i,
            forall|k: int|
                0 <= k < i ==> (#[trigger] r@[k]).deep_view() == groups@[k].deep_view(),
        decreases groups@.len() - i,
    {
        r.push(groups[i].clone());
        i += 1;
    }
    r
}

impl Workflow {
    /// A read-only copy for distribution: the same workflow, with the
    /// advisory read-only flag set.
    pub fn to_distributable(&self) -> (r: Workflow)
        requires
            self.wf(),
        ensures
            r.wf(),
            r.deep_view() == (WorkflowView { readonly: true, ..self.deep_view() }),
    {
        let mut r = self.clone();
        r.readonly = true;
        r
    }
}


/// Clamp of an unbounded coordinate into the representable range.
pub open spec fn clamp_i64(x: int) -> i64 {
    if x > 0x7fff_ffff_ffff_ffff {
        0x7fff_ffff_ffff_ffffi64
    } else if x < -0x8000_0000_0000_0000 {
        -0x8000_0000_0000_0000i64
    } else {
        x as i64
    }
}

fn clamp_to_i64(x: i128) -> (r: i64)
    ensures
        r == clamp_i64(x as int),
{
    if x > 0x7fff_ffff_ffff_ffffi128 {
        0x7fff_ffff_ffff_ffffi64
    } else if x < -0x8000_0000_0000_0000i128 {
        -0x8000_0000_0000_0000i64
    } else {
        x as i64
    }
}

impl Workflow {
    /// Refreshes every block's size from its definition, after a load.
    /// Blocks whose definition is unknown keep their stored size.
    pub fn update_block_sizes(&mut self, registry: &crate::registry::ScriptRegistry)
        requires
            old(self).wf(),
            registry.wf(),
        ensures
            final(self).wf(),
            final(self).blocks@.len() == old(self).blocks@.len(),
            forall|i: int|
                0 <= i < old(self).blocks@.len() ==> {
                    let b = #[trigger] old(self).blocks@[i];
                    if registry.definitions.has_key(b.script_id@) {
                        let d = registry.definitions.spec_map()[b.script_id@];
                        final(self).blocks@[i] == (Block {
                            size: (crate::geometry::Vec2 {
                                x: crate::definition::spec_width(d) as i64,
                                y: crate::definition::spec_height(d) as i64,
                            }),
                            ..b
                        })
                    } else {
                        final(self).blocks@[i] == b
                    }
                },
            *final(self) == (Workflow { blocks: final(self).blocks, ..*old(self) }),
    {
        let ghost pre = *self;
        let mut i: usize = 0;
        while i < self.blocks.len()
            invariant
                pre.wf(),
                registry.wf(),
                i <= self.blocks@.len(),
                self.blocks@.len() == pre.blocks@.len(),
                *self == (Workflow { blocks: self.blocks, ..pre }),
                forall|k: int|
                    0 <= k < i ==> {
                        let b = #[trigger] pre.blocks@[k];
                        if registry.definitions.has_key(b.script_id@) {
                            let d = registry.definitions.spec_map()[b.script_id@];
                            self.blocks@[k] == (Block {
                                size: (crate::geometry::Vec2 {
                                    x: crate::definition::spec_width(d) as i64,
                                    y: crate::definition::spec_height(d) as i64,
                                }),
                                ..b
                            })
                        } else {
                            self.blocks@[k] == b
                        }
                    },
                forall|k: int|
                    i <= k < self.blocks@.len() ==> self.blocks@[k] == pre.blocks@[k],
            decreases self.blocks@.len() - i,
        {
            let sid = self.blocks[i].script_id.clone();
            match registry.get(sid.as_str()) {
                Some(def) => {
                    let w = def.calculate_width();
                    let h = def.calculate_height();
                    let bref = &mut self.blocks[i];
                    bref.size = crate::geometry::Vec2::new(w, h);
                }
                None => {}
            }
            i += 1;
        }
        proof {
            assert forall|x: int, y: int|
                0 <= x < y < self.blocks@.len() implies self.blocks@[x].id
                != self.blocks@[y].id by {
                assert(pre.blocks@[x].id != pre.blocks@[y].id);
            }
            assert forall|i2: int|
                0 <= i2 < self.blocks@.len() implies block_wf(#[trigger] self.blocks@[i2]) by {
                assert(block_wf(pre.blocks@[i2]));
            }
        }
    }

    /// Groups the selected blocks under a fresh identity, setting each
    /// member's group link and framing the group around them. Nothing
    /// happens when no block is selected.
    pub fn create_group(&mut self, name: String) -> (r: Option<u128>)
        requires
            old(self).wf(),
            forall|i: int|
                0 <= i < old(self).blocks@.len() ==> {
                    let b = #[trigger] old(self).blocks@[i];
                    -0x1000_0000_0000 <= b.position.x <= 0x1000_0000_0000 && -0x1000_0000_0000
                        <= b.position.y <= 0x1000_0000_0000 && -0x1000_0000_0000 <= b.size.x
                        <= 0x1000_0000_0000 && -0x1000_0000_0000 <= b.size.y <= 0x1000_0000_0000
                },
        ensures
            final(self).wf(),
            (r is Some) <==> (exists|i: int|
                0 <= i < old(self).blocks@.len() && (#[trigger] old(self).blocks@[i]).selected),
            r is None ==> *final(self) == *old(self),
            r matches Some(gid) ==> {
                &&& final(self).blocks@.len() == old(self).blocks@.len()
                &&& forall|i: int|
                    0 <= i < old(self).blocks@.len() ==> {
                        let b = #[trigger] old(self).blocks@[i];
                        final(self).blocks@[i] == (if b.selected {
                            Block { group_id: Some(gid), ..b }
                        } else {
                            b
                        })
                    }
                &&& final(self).groups@.len() == old(self).groups@.len() + 1
                &&& final(self).groups@.last().id == gid
                &&& final(self).groups@.last().name@ == name@
                &&& final(self).groups@.last().blocks@ == old(self).blocks@.filter(
                    |b: Block| b.selected,
                ).map_values(|b: Block| b.id)
                &&& forall|g: int|
                    0 <= g < old(self).groups@.len() ==> final(self).groups@[g] == #[trigger] old(
                        self,
                    ).groups@[g]
                &&& ({
                    let placed = final(self).blocks@.map_values(
                        |b: Block| (b.id, b.position, b.size),
                    );
                    let ng = final(self).groups@.last();
                    match crate::group::spec_frame(placed, ng.blocks@) {
                        None => ng.position == (crate::geometry::Vec2 { x: 0i64, y: 0i64 })
                            && ng.size == (crate::geometry::Vec2 { x: 0i64, y: 0i64 }),
                        Some((x0, y0, x1, y1)) => {
                            &&& ng.position.x == x0 - crate::group::GROUP_PADDING
                            &&& ng.position.y == y0 - crate::group::GROUP_PADDING
                                - crate::group::GROUP_TITLE_HEIGHT
                            &&& ng.size.x == x1 - x0 + 2 * crate::group::GROUP_PADDING
                            &&& ng.size.y == y1 - y0 + 2 * crate::group::GROUP_PADDING
                                + crate::group::GROUP_TITLE_HEIGHT
                        },
                    }
                })
                &&& *final(self) == (Workflow {
                    blocks: final(self).blocks,
                    groups: final(self).groups,
                    ..*old(self)
                })
            },
    {
        broadcast use vstd::seq_lib::group_seq_lib_default;

        let ghost pre = *self;
        let selected = self.selected_blocks();
        if selected.len() == 0 {
            proof {
                let f = |b: Block| b.selected;
                if exists|i: int| 0 <= i < pre.blocks@.len() && (#[trigger] pre.blocks@[i]).selected {
                    let i = choose|i: int|
                        0 <= i < pre.blocks@.len() && (#[trigger] pre.blocks@[i]).selected;
                    pre.blocks@.lemma_filter_contains(f, i);
                    assert(pre.blocks@.filter(f).len() > 0);
                }
            }
            return None;
        }
        proof {
            let f = |b: Block| b.selected;
            assert(pre.blocks@.filter(f).len() > 0);
            pre.blocks@.lemma_filter_pred(f, 0);
            assert(pre.blocks@.filter(f).contains(pre.blocks@.filter(f)[0]));
            pre.blocks@.lemma_filter_contains_rev(f, pre.blocks@.filter(f)[0]);
            let i = choose|i: int|
                0 <= i < pre.blocks@.len() && pre.blocks@[i] == pre.blocks@.filter(f)[0];
            assert(pre.blocks@[i].selected);
        }
        let group = BlockGroup::new(name, selected);
        let gid = group.id;
        let mut group = group;

        // Link the members.
        let mut i: usize = 0;
        while i < self.blocks.len()
            invariant
                pre.wf(),
                i <= self.blocks@.len(),
                self.blocks@.len() == pre.blocks@.len(),
                *self == (Workflow { blocks: self.blocks, ..pre }),
                forall|k: int|
                    0 <= k < i ==> {
                        let b = #[trigger] pre.blocks@[k];
                        self.blocks@[k] == (if b.selected {
                            Block { group_id: Some(gid), ..b }
                        } else {
                            b
                        })
                    },
                forall|k: int|
                    i <= k < self.blocks@.len() ==> self.blocks@[k] == pre.blocks@[k],
            decreases self.blocks@.len() - i,
        {
            if self.blocks[i].selected {
                let bref = &mut self.blocks[i];
                bref.group_id = Some(gid);
            }
            i += 1;
        }

        // Frame the group around its members.
        let mut placements: Vec<(u128, crate::geometry::Vec2, crate::geometry::Vec2)> =
            Vec::new();
        let mut k: usize = 0;
        while k < self.blocks.len()
            invariant
                k <= self.blocks@.len(),
                placements@.len() == k,
                forall|x: int|
                    0 <= x < k ==> #[trigger] placements@[x] == (self.blocks@[x].id,
                    self.blocks@[x].position, self.blocks@[x].size),
            decreases self.blocks@.len() - k,
        {
            placements.push(
                (self.blocks[k].id, self.blocks[k].position, self.blocks[k].size),
            );
            k += 1;
        }
        proof {
            assert forall|x: int|
                0 <= x < placements@.len() implies {
                let p = #[trigger] placements@[x];
                -0x1000_0000_0000 <= p.1.x <= 0x1000_0000_0000 && -0x1000_0000_0000 <= p.1.y
                    <= 0x1000_0000_0000 && -0x1000_0000_0000 <= p.2.x <= 0x1000_0000_0000
                    && -0x1000_0000_0000 <= p.2.y <= 0x1000_0000_0000
            } by {
                let b0 = pre.blocks@[x];
                if b0.selected {
                    assert(self.blocks@[x] == (Block { group_id: Some(gid), ..b0 }));
                } else {
                    assert(self.blocks@[x] == b0);
                }
            }
        }
        group.update_bounds(&placements);
        self.groups.push(group);
        proof {
            assert(placements@ =~= self.blocks@.map_values(
                |b: Block| (b.id, b.position, b.size),
            ));
            assert forall|x: int, y: int|
                0 <= x < y < self.blocks@.len() implies self.blocks@[x].id
                != self.blocks@[y].id by {
                let bx = pre.blocks@[x];
                let by = pre.blocks@[y];
                assert(bx.id != by.id);
                assert(self.blocks@[x].id == bx.id);
                assert(self.blocks@[y].id == by.id);
            }
            assert forall|i2: int|
                0 <= i2 < self.blocks@.len() implies block_wf(#[trigger] self.blocks@[i2]) by {
                assert(block_wf(pre.blocks@[i2]));
                let b0 = pre.blocks@[i2];
                if b0.selected {
                    assert(self.blocks@[i2] == (Block { group_id: Some(gid), ..b0 }));
                }
            }
        }
        Some(gid)
    }

    /// Dissolves a group. Membership is read off the blocks' stored
    /// group links, not the group's own member list: every block whose
    /// link names the identity is unlinked, and every group carrying the
    /// identity disappears. Reading the links keeps the two sides
    /// consistent even when a stale link names a group that no longer
    /// exists — such links are cleared too.
    pub fn ungroup(&mut self, group_id: u128)
        requires
            old(self).wf(),
        ensures
            final(self).wf(),
            final(self).groups@ == old(self).groups@.filter(|g: BlockGroup| g.id != group_id),
            final(self).blocks@.len() == old(self).blocks@.len(),
            forall|i: int|
                0 <= i < old(self).blocks@.len() ==> {
                    let b = #[trigger] old(self).blocks@[i];
                    final(self).blocks@[i] == (if b.group_id == Some(group_id) {
                        Block { group_id: None, ..b }
                    } else {
                        b
                    })
                },
            *final(self) == (Workflow {
                blocks: final(self).blocks,
                groups: final(self).groups,
                ..*old(self)
            }),
    {
        let ghost pre = *self;
        // Unlink every block pointing at the group.
        let mut i: usize = 0;
        while i < self.blocks.len()
            invariant
                pre.wf(),
                i <= self.blocks@.len(),
                self.blocks@.len() == pre.blocks@.len(),
                *self == (Workflow { blocks: self.blocks, ..pre }),
                forall|k: int|
                    0 <= k < i ==> {
                        let b = #[trigger] pre.blocks@[k];
                        self.blocks@[k] == (if b.group_id == Some(group_id) {
                            Block { group_id: None, ..b }
                        } else {
                            b
                        })
                    },
                forall|k: int|
                    i <= k < self.blocks@.len() ==> self.blocks@[k] == pre.blocks@[k],
            decreases self.blocks@.len() - i,
        {
            let is_member = match self.blocks[i].group_id {
                Some(g) => g == group_id,
                None => false,
            };
            if is_member {
                let bref = &mut self.blocks[i];
                bref.group_id = None;
            }
            i += 1;
        }
        // Drop the group itself.
        let mut olds: Vec<BlockGroup> = Vec::new();
        core::mem::swap(&mut olds, &mut self.groups);
        let ghost groups0 = olds@;
        let mut kept: Vec<BlockGroup> = Vec::new();
        while olds.len() > 0
            invariant
                olds@.len() <= groups0.len(),
                olds@ == groups0.subrange(
                    (groups0.len() - olds@.len()) as int,
                    groups0.len() as int,
                ),
                kept@ == groups0.subrange(0, (groups0.len() - olds@.len()) as int).filter(
                    |x: BlockGroup| x.id != group_id,
                ),
            decreases olds@.len(),
        {
            let ghost gidx = groups0.len() - olds@.len();
            let grp = olds.remove(0);
            proof {
                assert(grp == groups0[gidx as int]);
                assert(olds@ =~= groups0.subrange(gidx + 1, groups0.len() as int));
                assert(groups0.subrange(0, gidx + 1).drop_last() =~= groups0.subrange(
                    0,
                    gidx as int,
                ));
                assert(groups0.subrange(0, gidx + 1).last() == groups0[gidx as int]);
                reveal_with_fuel(Seq::filter, 2);
            }
            if grp.id != group_id {
                kept.push(grp);
            }
        }
        proof {
            assert(groups0.subrange(0, groups0.len() as int) =~= groups0);
        }
        self.groups = kept;
        proof {
            assert forall|x: int, y: int|
                0 <= x < y < self.blocks@.len() implies self.blocks@[x].id
                != self.blocks@[y].id by {
                assert(pre.blocks@[x].id != pre.blocks@[y].id);
            }
            assert forall|i2: int|
                0 <= i2 < self.blocks@.len() implies block_wf(#[trigger] self.blocks@[i2]) by {
                assert(block_wf(pre.blocks@[i2]));
            }
        }
    }
}


/// The layer list's first entry for an identity, front to back.
pub open spec fn layer_find(layers: Seq<(u128, usize)>, id: u128) -> Option<usize>
    decreases layers.len(),
{
    if layers.len() == 0 {
        None
    } else if layers.first().0 == id {
        Some(layers.first().1)
    } else {
        layer_find(layers.drop_first(), id)
    }
}

/// The furthest already-layered direct predecessor of a block, walking
/// the connection list.
pub open spec fn furthest_pred(
    conns: Seq<Connection>,
    layers: Seq<(u128, usize)>,
    id: u128,
) -> Option<usize>
    decreases conns.len(),
{
    if conns.len() == 0 {
        None
    } else {
        let rest = furthest_pred(conns.drop_last(), layers, id);
        if conns.last().to_block == id {
            match layer_find(layers, conns.last().from_block) {
                Some(lv) => match rest {
                    None => Some(lv),
                    Some(b) => if lv > b {
                        Some(lv)
                    } else {
                        Some(b)
                    },
                },
                None => rest,
            }
        } else {
            rest
        }
    }
}

/// Whether any connection leads into this block.
pub open spec fn spec_has_inbound(conns: Seq<Connection>, id: u128) -> bool {
    exists|i: int| 0 <= i < conns.len() && (#[trigger] conns[i]).to_block == id
}

/// The dependency layer of one block: zero without inbound connections,
/// one past the furthest layered predecessor otherwise.
pub open spec fn spec_level_of(
    conns: Seq<Connection>,
    layers: Seq<(u128, usize)>,
    id: u128,
) -> usize {
    if !spec_has_inbound(conns, id) {
        0
    } else {
        match furthest_pred(conns, layers, id) {
            Some(b) => if b < usize::MAX {
                (b + 1) as usize
            } else {
                b
            },
            None => 1,
        }
    }
}

/// The dependency layers of the scheduled blocks, assigned in schedule
/// order.
pub open spec fn spec_layers(order: Seq<u128>, conns: Seq<Connection>) -> Seq<(u128, usize)>
    decreases order.len(),
{
    if order.len() == 0 {
        Seq::empty()
    } else {
        let rest = spec_layers(order.drop_last(), conns);
        rest.push((order.last(), spec_level_of(conns, rest, order.last())))
    }
}

/// The highest assigned layer; zero when nothing is layered.
pub open spec fn spec_max_level(layers: Seq<(u128, usize)>) -> usize
    decreases layers.len(),
{
    if layers.len() == 0 {
        0
    } else {
        let rest = spec_max_level(layers.drop_last());
        if layers.last().1 > rest {
            layers.last().1
        } else {
            rest
        }
    }
}

/// The members of one layer, in schedule order.
pub open spec fn members_of(layers: Seq<(u128, usize)>, level: usize) -> Seq<u128>
    decreases layers.len(),
{
    if layers.len() == 0 {
        Seq::empty()
    } else {
        let rest = members_of(layers.drop_last(), level);
        if layers.last().1 == level {
            rest.push(layers.last().0)
        } else {
            rest
        }
    }
}

/// The first live block of an identity, front to back.
pub open spec fn block_find(blocks: Seq<Block>, id: u128) -> Option<Block>
    decreases blocks.len(),
{
    if blocks.len() == 0 {
        None
    } else if blocks.first().id == id {
        Some(blocks.first())
    } else {
        block_find(blocks.drop_first(), id)
    }
}

/// With distinct identities, any index carrying an identity is the find.
proof fn lemma_block_find_at(blocks: Seq<Block>, id: u128, i: int)
    requires
        forall|x: int, y: int| 0 <= x < y < blocks.len() ==> blocks[x].id != blocks[y].id,
        0 <= i < blocks.len(),
        blocks[i].id == id,
    ensures
        block_find(blocks, id) == Some(blocks[i]),
    decreases blocks.len(),
{
    if i > 0 {
        assert(blocks.first().id != id);
        let rest = blocks.drop_first();
        assert forall|x: int, y: int|
            0 <= x < y < rest.len() implies rest[x].id != rest[y].id by {
            assert(rest[x] == blocks[x + 1] && rest[y] == blocks[y + 1]);
        }
        assert(rest[i - 1] == blocks[i]);
        lemma_block_find_at(rest, id, i - 1);
    }
}

/// An identity no block carries is not found.
proof fn lemma_block_find_none(blocks: Seq<Block>, id: u128)
    requires
        forall|k: int| 0 <= k < blocks.len() ==> (#[trigger] blocks[k]).id != id,
    ensures
        block_find(blocks, id) is None,
    decreases blocks.len(),
{
    if blocks.len() > 0 {
        let rest = blocks.drop_first();
        assert forall|k: int| 0 <= k < rest.len() implies (#[trigger] rest[k]).id != id by {
            assert(rest[k] == blocks[k + 1]);
        }
        lemma_block_find_none(rest, id);
    }
}

/// Each live member paired with its stored vertical position.
pub open spec fn with_prev_y(blocks: Seq<Block>, ids: Seq<u128>) -> Seq<(u128, i64)>
    decreases ids.len(),
{
    if ids.len() == 0 {
        Seq::empty()
    } else {
        let rest = with_prev_y(blocks, ids.drop_last());
        match block_find(blocks, ids.last()) {
            Some(b) => rest.push((ids.last(), b.position.y)),
            None => rest,
        }
    }
}

/// The first index carrying the least vertical position.
pub open spec fn first_min_idx(s: Seq<(u128, i64)>) -> int
    decreases s.len(),
{
    if s.len() <= 1 {
        0
    } else {
        let r = first_min_idx(s.drop_last());
        if s.last().1 < s[r].1 {
            s.len() - 1
        } else {
            r
        }
    }
}

/// The first minimum's index lies in range.
proof fn lemma_first_min_idx_range(s: Seq<(u128, i64)>)
    requires
        s.len() > 0,
    ensures
        0 <= first_min_idx(s) < s.len(),
    decreases s.len(),
{
    if s.len() > 1 {
        lemma_first_min_idx_range(s.drop_last());
    }
}

/// Sorted ascending by stored vertical position, earlier entries first
/// on ties: the first least entry peeled off in turn.
pub open spec fn sort_by_prev_y(s: Seq<(u128, i64)>) -> Seq<(u128, i64)>
    decreases s.len(),
    via sort_by_prev_y_decreases
{
    if s.len() == 0 {
        Seq::empty()
    } else {
        seq![s[first_min_idx(s)]] + sort_by_prev_y(s.remove(first_min_idx(s)))
    }
}

#[via_fn]
proof fn sort_by_prev_y_decreases(s: Seq<(u128, i64)>) {
    if s.len() > 0 {
        lemma_first_min_idx_range(s);
    }
}

/// A column's width: the widest live member, floored at 16000.
pub open spec fn col_width(blocks: Seq<Block>, sorted: Seq<(u128, i64)>) -> i64
    decreases sorted.len(),
{
    if sorted.len() == 0 {
        16000
    } else {
        let rest = col_width(blocks, sorted.drop_last());
        match block_find(blocks, sorted.last().0) {
            Some(b) => if b.size.x > rest {
                b.size.x
            } else {
                rest
            },
            None => rest,
        }
    }
}

/// One layout step along an axis, saturated at the representable range.
pub open spec fn sat_step(cur: int, step: int) -> int {
    if cur + step > 0x7fff_ffff_ffff_ffff {
        0x7fff_ffff_ffff_ffff
    } else {
        cur + step
    }
}

/// One column's placements: live members stacked top to bottom from
/// y = 10000, each advancing by its height (floored at zero) plus 4000.
pub open spec fn stack_level(
    blocks: Seq<Block>,
    sorted: Seq<(u128, i64)>,
    x: int,
    y: int,
) -> Seq<(u128, crate::geometry::Vec2)>
    decreases sorted.len(),
{
    if sorted.len() == 0 {
        Seq::empty()
    } else {
        match block_find(blocks, sorted.first().0) {
            Some(b) => {
                let step = (if b.size.y > 0 {
                    b.size.y as int
                } else {
                    0
                }) + 4000;
                seq![
                    (sorted.first().0, (crate::geometry::Vec2 { x: x as i64, y: y as i64 })),
                ] + stack_level(blocks, sorted.drop_first(), x, sat_step(y, step))
            },
            None => stack_level(blocks, sorted.drop_first(), x, y),
        }
    }
}

/// The columns from a layer on: each stacked at its x, the next one a
/// column width and a 6000 gap further right, saturating at the
/// representable range.
pub open spec fn spec_columns(
    blocks: Seq<Block>,
    layers: Seq<(u128, usize)>,
    level: int,
    max_level: int,
    x: int,
) -> Seq<(u128, crate::geometry::Vec2)>
    decreases max_level + 1 - level,
{
    if level > max_level || level < 0 {
        Seq::empty()
    } else {
        let sorted = sort_by_prev_y(with_prev_y(blocks, members_of(layers, level as usize)));
        stack_level(blocks, sorted, x, 10000) + spec_columns(
            blocks,
            layers,
            level + 1,
            max_level,
            sat_step(x, col_width(blocks, sorted) + 6000),
        )
    }
}

/// Every scheduled block's target placement: sources in the first
/// column at x = 10000, every other scheduled block one column past its
/// furthest predecessor.
pub open spec fn spec_layout(w: Workflow) -> Seq<(u128, crate::geometry::Vec2)> {
    let layers = spec_layers(w.spec_execution_order(), w.connections@);
    spec_columns(w.blocks@, layers, 0, spec_max_level(layers) as int, 10000)
}

/// The first placement of an identity.
pub open spec fn placement_find(
    placements: Seq<(u128, crate::geometry::Vec2)>,
    id: u128,
) -> Option<crate::geometry::Vec2>
    decreases placements.len(),
{
    if placements.len() == 0 {
        None
    } else if placements.first().0 == id {
        Some(placements.first().1)
    } else {
        placement_find(placements.drop_first(), id)
    }
}

/// The stored layer of an identity, if one was assigned.
fn layer_get(layers: &Vec<(u128, usize)>, id: u128) -> (r: Option<usize>)
    ensures
        r == layer_find(layers@, id),
{
    proof {
        assert(layers@.skip(0) =~= layers@);
    }
    let mut i: usize = 0;
    while i < layers.len()
        invariant
            i <= layers@.len(),
            layer_find(layers@, id) == layer_find(layers@.skip(i as int), id),
        decreases layers@.len() - i,
    {
        proof {
            assert(layers@.skip(i as int).first() == layers@[i as int]);
            assert(layers@.skip(i as int).drop_first() =~= layers@.skip(i + 1));
        }
        if layers[i].0 == id {
            return Some(layers[i].1);
        }
        i += 1;
    }
    proof {
        assert(layers@.skip(layers@.len() as int) =~= Seq::<(u128, usize)>::empty());
    }
    None
}

/// The first placement of an identity, if one was computed.
fn find_placement(
    placements: &Vec<(u128, crate::geometry::Vec2)>,
    id: u128,
) -> (r: Option<crate::geometry::Vec2>)
    ensures
        r == placement_find(placements@, id),
{
    proof {
        assert(placements@.skip(0) =~= placements@);
    }
    let mut i: usize = 0;
    while i < placements.len()
        invariant
            i <= placements@.len(),
            placement_find(placements@, id) == placement_find(placements@.skip(i as int), id),
        decreases placements@.len() - i,
    {
        proof {
            assert(placements@.skip(i as int).first() == placements@[i as int]);
            assert(placements@.skip(i as int).drop_first() =~= placements@.skip(i + 1));
        }
        if placements[i].0 == id {
            return Some(placements[i].1);
        }
        i += 1;
    }
    proof {
        assert(placements@.skip(placements@.len() as int) =~= Seq::<
            (u128, crate::geometry::Vec2),
        >::empty());
    }
    None
}

/// The highest assigned layer in a layer list.
fn max_of_layers(layers: &Vec<(u128, usize)>) -> (r: usize)
    ensures
        r == spec_max_level(layers@),
{
    let mut m: usize = 0;
    let mut l: usize = 0;
    while l < layers.len()
        invariant
            l <= layers@.len(),
            m == spec_max_level(layers@.subrange(0, l as int)),
        decreases layers@.len() - l,
    {
        proof {
            assert(layers@.subrange(0, l + 1).drop_last() =~= layers@.subrange(0, l as int));
            assert(layers@.subrange(0, l + 1).last() == layers@[l as int]);
        }
        if layers[l].1 > m {
            m = layers[l].1;
        }
        l += 1;
    }
    proof {
        assert(layers@.subrange(0, layers@.len() as int) =~= layers@);
    }
    m
}

impl Workflow {
    /// Assigns each scheduled block its dependency layer, in schedule
    /// order.
    fn assign_layers(&self, order: &Vec<u128>) -> (r: Vec<(u128, usize)>)
        ensures
            r@ == spec_layers(order@, self.connections@),
    {
        let mut layers: Vec<(u128, usize)> = Vec::new();
        let mut oi: usize = 0;
        while oi < order.len()
            invariant
                oi <= order@.len(),
                layers@ == spec_layers(order@.subrange(0, oi as int), self.connections@),
            decreases order@.len() - oi,
        {
            let id = order[oi];
            // The furthest layered predecessor.
            let mut best: Option<usize> = None;
            let mut c: usize = 0;
            while c < self.connections.len()
                invariant
                    c <= self.connections@.len(),
                    best == furthest_pred(
                        self.connections@.subrange(0, c as int),
                        layers@,
                        id,
                    ),
                decreases self.connections@.len() - c,
            {
                proof {
                    let cv = self.connections@;
                    assert(cv.subrange(0, c + 1).drop_last() =~= cv.subrange(0, c as int));
                    assert(cv.subrange(0, c + 1).last() == cv[c as int]);
                }
                if self.connections[c].to_block == id {
                    match layer_get(&layers, self.connections[c].from_block) {
                        Some(lv) => {
                            best = match best {
                                Some(b) => if lv > b {
                                    Some(lv)
                                } else {
                                    Some(b)
                                },
                                None => Some(lv),
                            };
                        }
                        None => {}
                    }
                }
                c += 1;
            }
            // Any inbound connection moves the block off layer zero.
            let mut has_inbound = false;
            let mut c2: usize = 0;
            while c2 < self.connections.len()
                invariant
                    c2 <= self.connections@.len(),
                    has_inbound == exists|k: int|
                        0 <= k < c2 && (#[trigger] self.connections@[k]).to_block == id,
                decreases self.connections@.len() - c2,
            {
                if self.connections[c2].to_block == id {
                    has_inbound = true;
                }
                c2 += 1;
            }
            let level: usize = if !has_inbound {
                0
            } else {
                match best {
                    Some(b) => if b < usize::MAX {
                        b + 1
                    } else {
                        b
                    },
                    None => 1,
                }
            };
            proof {
                let cv = self.connections@;
                assert(cv.subrange(0, cv.len() as int) =~= cv);
                assert(has_inbound == spec_has_inbound(cv, id));
                assert(level == spec_level_of(cv, layers@, id));
                assert(order@.subrange(0, oi + 1).drop_last() =~= order@.subrange(0, oi as int));
                assert(order@.subrange(0, oi + 1).last() == order@[oi as int]);
            }
            layers.push((id, level));
            oi += 1;
        }
        proof {
            assert(order@.subrange(0, order@.len() as int) =~= order@);
        }
        layers
    }

    /// Computes the layered placement of every scheduled live block.
    fn layout_placements(&self) -> (r: Vec<(u128, crate::geometry::Vec2)>)
        requires
            self.wf(),
        ensures
            r@ == spec_layout(*self),
    {
        let order = self.topological_sort();
        let layers = self.assign_layers(&order);
        let max_level = max_of_layers(&layers);
        let ghost glayers = spec_layers(self.spec_execution_order(), self.connections@);
        proof {
            assert(layers@ == glayers);
        }
        let mut out: Vec<(u128, crate::geometry::Vec2)> = Vec::new();
        let mut x: i128 = 10000;
        let mut level: usize = 0;
        proof {
            assert(spec_layout(*self) =~= Seq::<(u128, crate::geometry::Vec2)>::empty()
                + spec_columns(self.blocks@, glayers, 0, spec_max_level(glayers) as int, 10000));
        }
        loop
            invariant_except_break
                self.wf(),
                layers@ == glayers,
                max_level == spec_max_level(glayers),
                level <= max_level,
                10000 <= x <= 0x7fff_ffff_ffff_ffff,
                spec_layout(*self) == out@ + spec_columns(
                    self.blocks@,
                    glayers,
                    level as int,
                    max_level as int,
                    x as int,
                ),
            ensures
                out@ == spec_layout(*self),
            decreases max_level - level,
        {
            // The members of this column, in schedule order.
            let mut member_ids: Vec<u128> = Vec::new();
            let mut l2: usize = 0;
            while l2 < layers.len()
                invariant
                    l2 <= layers@.len(),
                    member_ids@ == members_of(layers@.subrange(0, l2 as int), level),
                decreases layers@.len() - l2,
            {
                proof {
                    let lv = layers@;
                    assert(lv.subrange(0, l2 + 1).drop_last() =~= lv.subrange(0, l2 as int));
                    assert(lv.subrange(0, l2 + 1).last() == lv[l2 as int]);
                }
                if layers[l2].1 == level {
                    member_ids.push(layers[l2].0);
                }
                l2 += 1;
            }
            proof {
                assert(layers@.subrange(0, layers@.len() as int) =~= layers@);
                assert(member_ids@ == members_of(glayers, level));
            }
            // Pair each live member with its stored vertical position.
            let mut members: Vec<(u128, i64)> = Vec::new();
            let mut mi: usize = 0;
            while mi < member_ids.len()
                invariant
                    self.wf(),
                    mi <= member_ids@.len(),
                    members@ == with_prev_y(
                        self.blocks@,
                        member_ids@.subrange(0, mi as int),
                    ),
                decreases member_ids@.len() - mi,
            {
                proof {
                    let iv = member_ids@;
                    assert(iv.subrange(0, mi + 1).drop_last() =~= iv.subrange(0, mi as int));
                    assert(iv.subrange(0, mi + 1).last() == iv[mi as int]);
                }
                match self.block_index(member_ids[mi]) {
                    Some(bi) => {
                        proof {
                            lemma_block_find_at(
                                self.blocks@,
                                member_ids@[mi as int],
                                bi as int,
                            );
                        }
                        members.push((member_ids[mi], self.blocks[bi].position.y));
                    }
                    None => {
                        proof {
                            assert forall|k: int|
                                0 <= k < self.blocks@.len() implies (#[trigger] self.blocks@[
                                k]).id != member_ids@[mi as int] by {
                                assert(self.block_ids()[k] == self.blocks@[k].id);
                            }
                            lemma_block_find_none(self.blocks@, member_ids@[mi as int]);
                        }
                    }
                }
                mi += 1;
            }
            proof {
                assert(member_ids@.subrange(0, member_ids@.len() as int) =~= member_ids@);
            }
            // Sort the members by their previous y, keeping order on
            // ties.
            let ghost msrc0 = members@;
            let mut sorted: Vec<(u128, i64)> = Vec::new();
            let mut src = members;
            proof {
                assert(sorted@ + sort_by_prev_y(src@) =~= sort_by_prev_y(msrc0));
            }
            while src.len() > 0
                invariant
                    sort_by_prev_y(msrc0) == sorted@ + sort_by_prev_y(src@),
                decreases src@.len(),
            {
                let mut best_i: usize = 0;
                let mut j: usize = 1;
                while j < src.len()
                    invariant
                        src@.len() > 0,
                        j >= 1,
                        best_i < j,
                        j <= src@.len(),
                        best_i as int == first_min_idx(src@.subrange(0, j as int)),
                    decreases src@.len() - j,
                {
                    proof {
                        assert(src@.subrange(0, j + 1).drop_last() =~= src@.subrange(
                            0,
                            j as int,
                        ));
                        assert(src@.subrange(0, j + 1).last() == src@[j as int]);
                        lemma_first_min_idx_range(src@.subrange(0, j as int));
                    }
                    if src[j].1 < src[best_i].1 {
                        best_i = j;
                    }
                    j += 1;
                }
                proof {
                    assert(src@.subrange(0, src@.len() as int) =~= src@);
                    assert(best_i as int == first_min_idx(src@));
                    lemma_first_min_idx_range(src@);
                }
                let ghost srcpre = src@;
                let ghost sortedpre = sorted@;
                let picked = src.remove(best_i);
                sorted.push(picked);
                proof {
                    assert(picked == srcpre[first_min_idx(srcpre)]);
                    assert(src@ == srcpre.remove(first_min_idx(srcpre)));
                    assert(sort_by_prev_y(srcpre) == seq![picked] + sort_by_prev_y(src@));
                    assert(sortedpre + (seq![picked] + sort_by_prev_y(src@))
                        =~= sortedpre.push(picked) + sort_by_prev_y(src@));
                }
            }
            proof {
                assert(src@.len() == 0);
                assert(sort_by_prev_y(src@) =~= Seq::<(u128, i64)>::empty());
                assert(sorted@ + sort_by_prev_y(src@) =~= sorted@);
                assert(sorted@ == sort_by_prev_y(with_prev_y(
                    self.blocks@,
                    members_of(glayers, level),
                )));
            }
            // Column width: the widest live member, floored.
            let mut width: i64 = 16000;
            let mut w: usize = 0;
            while w < sorted.len()
                invariant
                    self.wf(),
                    w <= sorted@.len(),
                    width >= 16000,
                    width == col_width(self.blocks@, sorted@.subrange(0, w as int)),
                decreases sorted@.len() - w,
            {
                proof {
                    let sv = sorted@;
                    assert(sv.subrange(0, w + 1).drop_last() =~= sv.subrange(0, w as int));
                    assert(sv.subrange(0, w + 1).last() == sv[w as int]);
                }
                match self.block_index(sorted[w].0) {
                    Some(bi) => {
                        proof {
                            lemma_block_find_at(self.blocks@, sorted@[w as int].0, bi as int);
                        }
                        let sx = self.blocks[bi].size.x;
                        if sx > width {
                            width = sx;
                        }
                    }
                    None => {
                        proof {
                            assert forall|k: int|
                                0 <= k < self.blocks@.len() implies (#[trigger] self.blocks@[
                                k]).id != sorted@[w as int].0 by {
                                assert(self.block_ids()[k] == self.blocks@[k].id);
                            }
                            lemma_block_find_none(self.blocks@, sorted@[w as int].0);
                        }
                    }
                }
                w += 1;
            }
            proof {
                assert(sorted@.subrange(0, sorted@.len() as int) =~= sorted@);
                assert(width == col_width(self.blocks@, sorted@));
            }
            // Stack the members.
            let ghost out0 = out@;
            let mut y: i128 = 10000;
            let mut p: usize = 0;
            proof {
                assert(out@.skip(out0.len() as int) =~= Seq::<
                    (u128, crate::geometry::Vec2),
                >::empty());
                assert(sorted@.skip(0) =~= sorted@);
            }
            while p < sorted.len()
                invariant
                    self.wf(),
                    p <= sorted@.len(),
                    10000 <= y <= 0x7fff_ffff_ffff_ffff,
                    10000 <= x <= 0x7fff_ffff_ffff_ffff,
                    out0.len() <= out@.len(),
                    out@.subrange(0, out0.len() as int) == out0,
                    stack_level(self.blocks@, sorted@, x as int, 10000) == out@.skip(
                        out0.len() as int,
                    ) + stack_level(
                        self.blocks@,
                        sorted@.skip(p as int),
                        x as int,
                        y as int,
                    ),
                decreases sorted@.len() - p,
            {
                proof {
                    assert(sorted@.skip(p as int).first() == sorted@[p as int]);
                    assert(sorted@.skip(p as int).drop_first() =~= sorted@.skip(p + 1));
                }
                match self.block_index(sorted[p].0) {
                    Some(bi) => {
                        proof {
                            lemma_block_find_at(self.blocks@, sorted@[p as int].0, bi as int);
                        }
                        let ghost outpre = out@;
                        let ghost ypre = y as int;
                        let px = clamp_to_i64(x);
                        let py = clamp_to_i64(y);
                        proof {
                            assert(px == x as i64 && py == y as i64);
                        }
                        out.push((sorted[p].0, crate::geometry::Vec2::new(px, py)));
                        let sy = self.blocks[bi].size.y;
                        let step: i128 = (if sy > 0 {
                            sy as i128
                        } else {
                            0
                        }) + 4000;
                        y = saturate_span(y, step);
                        proof {
                            assert(out@.subrange(0, out0.len() as int) =~= out0);
                            assert(out@.skip(out0.len() as int) =~= outpre.skip(
                                out0.len() as int,
                            ) + seq![
                                (
                                    sorted@[p as int].0,
                                    (crate::geometry::Vec2 {
                                        x: x as i64,
                                        y: ypre as i64,
                                    }),
                                ),
                            ]);
                            assert(stack_level(
                                self.blocks@,
                                sorted@.skip(p as int),
                                x as int,
                                ypre,
                            ) == seq![
                                (
                                    sorted@[p as int].0,
                                    (crate::geometry::Vec2 {
                                        x: x as i64,
                                        y: ypre as i64,
                                    }),
                                ),
                            ] + stack_level(
                                self.blocks@,
                                sorted@.skip(p + 1),
                                x as int,
                                y as int,
                            ));
                            assert(outpre.skip(out0.len() as int) + (seq![
                                (
                                    sorted@[p as int].0,
                                    (crate::geometry::Vec2 {
                                        x: x as i64,
                                        y: ypre as i64,
                                    }),
                                ),
                            ] + stack_level(
                                self.blocks@,
                                sorted@.skip(p + 1),
                                x as int,
                                y as int,
                            )) =~= out@.skip(out0.len() as int) + stack_level(
                                self.blocks@,
                                sorted@.skip(p + 1),
                                x as int,
                                y as int,
                            ));
                        }
                    }
                    None => {
                        proof {
                            assert forall|k: int|
                                0 <= k < self.blocks@.len() implies (#[trigger] self.blocks@[
                                k]).id != sorted@[p as int].0 by {
                                assert(self.block_ids()[k] == self.blocks@[k].id);
                            }
                            lemma_block_find_none(self.blocks@, sorted@[p as int].0);
                        }
                    }
                }
                p += 1;
            }
            proof {
                assert(sorted@.skip(sorted@.len() as int) =~= Seq::<(u128, i64)>::empty());
                assert(stack_level(self.blocks@, sorted@, x as int, 10000) == out@.skip(
                    out0.len() as int,
                ));
                assert(out@.subrange(0, out0.len() as int) + out@.skip(out0.len() as int)
                    =~= out@);
                // This column done: the remaining columns start one
                // width and gap further right.
                assert(spec_columns(
                    self.blocks@,
                    glayers,
                    level as int,
                    max_level as int,
                    x as int,
                ) == stack_level(self.blocks@, sorted@, x as int, 10000) + spec_columns(
                    self.blocks@,
                    glayers,
                    level as int + 1,
                    max_level as int,
                    sat_step(x as int, col_width(self.blocks@, sorted@) + 6000),
                ));
                assert(out0 + (stack_level(self.blocks@, sorted@, x as int, 10000)
                    + spec_columns(
                    self.blocks@,
                    glayers,
                    level as int + 1,
                    max_level as int,
                    sat_step(x as int, width + 6000),
                )) =~= out@ + spec_columns(
                    self.blocks@,
                    glayers,
                    level as int + 1,
                    max_level as int,
                    sat_step(x as int, width + 6000),
                ));
            }
            let ghost xpre = x as int;
            x = saturate_span(x, (width as i128) + 6000);
            proof {
                assert(x as int == sat_step(xpre, width + 6000));
            }
            if level == max_level {
                proof {
                    assert(spec_columns(
                        self.blocks@,
                        glayers,
                        level as int + 1,
                        max_level as int,
                        x as int,
                    ) =~= Seq::<(u128, crate::geometry::Vec2)>::empty());
                    assert(out@ + spec_columns(
                        self.blocks@,
                        glayers,
                        level as int + 1,
                        max_level as int,
                        x as int,
                    ) =~= out@);
                }
                break ;
            }
            level += 1;
        }
        out
    }

    /// Lays the graph out in dependency columns, exactly as
    /// [`spec_layout`] states: a block with no inbound connection sits
    /// in the first column at x = 10000, every other scheduled block
    /// one column past its furthest predecessor; each column is as wide
    /// as its widest member (at least 16000) plus a 6000 gap; members
    /// stack from y = 10000 in their previous vertical order, each
    /// advancing by its height plus 4000. Unscheduled blocks keep their
    /// place; the group frames follow their members.
    pub fn auto_layout(&mut self)
        requires
            old(self).wf(),
        ensures
            final(self).wf(),
            old(self).blocks@.len() == 0 ==> *final(self) == *old(self),
            final(self).blocks@.len() == old(self).blocks@.len(),
            forall|i: int|
                0 <= i < old(self).blocks@.len() ==> {
                    let b = #[trigger] old(self).blocks@[i];
                    final(self).blocks@[i] == (match placement_find(
                        spec_layout(*old(self)),
                        b.id,
                    ) {
                        Some(pos) => (Block { position: pos, ..b }),
                        None => b,
                    })
                },
            final(self).groups@.len() == old(self).groups@.len(),
            forall|g: int|
                0 <= g < old(self).groups@.len() ==> final(self).groups@[g] == (BlockGroup {
                    position: final(self).groups@[g].position,
                    size: final(self).groups@[g].size,
                    ..old(self).groups@[g]
                }),
            *final(self) == (Workflow {
                blocks: final(self).blocks,
                groups: final(self).groups,
                ..*old(self)
            }),
    {
        let ghost pre = *self;
        if self.blocks.len() == 0 {
            return ;
        }
        let placements = self.layout_placements();
        let mut i: usize = 0;
        while i < self.blocks.len()
            invariant
                pre.wf(),
                i <= self.blocks@.len(),
                self.blocks@.len() == pre.blocks@.len(),
                *self == (Workflow { blocks: self.blocks, ..pre }),
                placements@ == spec_layout(pre),
                forall|k: int|
                    0 <= k < i ==> {
                        let b = #[trigger] pre.blocks@[k];
                        self.blocks@[k] == (match placement_find(spec_layout(pre), b.id) {
                            Some(pos) => (Block { position: pos, ..b }),
                            None => b,
                        })
                    },
                forall|k: int|
                    i <= k < self.blocks@.len() ==> self.blocks@[k] == pre.blocks@[k],
            decreases self.blocks@.len() - i,
        {
            match find_placement(&placements, self.blocks[i].id) {
                Some(pos) => {
                    let bref = &mut self.blocks[i];
                    bref.position = pos;
                }
                None => {}
            }
            i += 1;
        }
        proof {
            assert forall|a: int, b: int|
                0 <= a < b < self.blocks@.len() implies self.blocks@[a].id
                != self.blocks@[b].id by {
                assert(pre.blocks@[a].id != pre.blocks@[b].id);
                let ba = pre.blocks@[a];
                let bb = pre.blocks@[b];
                assert(self.blocks@[a].id == ba.id && self.blocks@[b].id == bb.id);
            }
            assert forall|i2: int|
                0 <= i2 < self.blocks@.len() implies block_wf(#[trigger] self.blocks@[i2]) by {
                assert(block_wf(pre.blocks@[i2]));
                let b0 = pre.blocks@[i2];
                assert(self.blocks@[i2] == (match placement_find(spec_layout(pre), b0.id) {
                    Some(pos) => (Block { position: pos, ..b0 }),
                    None => b0,
                }));
            }
        }

        // The group frames follow their members.
        let mut placed: Vec<(u128, crate::geometry::Vec2, crate::geometry::Vec2)> = Vec::new();
        let mut k: usize = 0;
        while k < self.blocks.len()
            invariant
                k <= self.blocks@.len(),
                placed@.len() == k,
                forall|z: int|
                    0 <= z < k ==> {
                        let p2 = #[trigger] placed@[z];
                        -0x1000_0000_0000 <= p2.1.x <= 0x1000_0000_0000 && -0x1000_0000_0000
                            <= p2.1.y <= 0x1000_0000_0000 && -0x1000_0000_0000 <= p2.2.x
                            <= 0x1000_0000_0000 && -0x1000_0000_0000 <= p2.2.y
                            <= 0x1000_0000_0000
                    },
            decreases self.blocks@.len() - k,
        {
            let pos = self.blocks[k].position;
            let size = self.blocks[k].size;
            let cp = crate::geometry::Vec2::new(clamp_span(pos.x), clamp_span(pos.y));
            let cs = crate::geometry::Vec2::new(clamp_span(size.x), clamp_span(size.y));
            placed.push((self.blocks[k].id, cp, cs));
            k += 1;
        }
        let ghost mid = *self;
        let mut g: usize = 0;
        while g < self.groups.len()
            invariant
                mid.wf(),
                g <= self.groups@.len(),
                self.groups@.len() == mid.groups@.len(),
                *self == (Workflow { groups: self.groups, ..mid }),
                forall|z: int|
                    0 <= z < placed@.len() ==> {
                        let p2 = #[trigger] placed@[z];
                        -0x1000_0000_0000 <= p2.1.x <= 0x1000_0000_0000 && -0x1000_0000_0000
                            <= p2.1.y <= 0x1000_0000_0000 && -0x1000_0000_0000 <= p2.2.x
                            <= 0x1000_0000_0000 && -0x1000_0000_0000 <= p2.2.y
                            <= 0x1000_0000_0000
                    },
                forall|z: int|
                    0 <= z < g ==> self.groups@[z] == (BlockGroup {
                        position: self.groups@[z].position,
                        size: self.groups@[z].size,
                        ..mid.groups@[z]
                    }),
                forall|z: int|
                    g <= z < self.groups@.len() ==> self.groups@[z] == mid.groups@[z],
            decreases self.groups@.len() - g,
        {
            let gref = &mut self.groups[g];
            gref.update_bounds(&placed);
            g += 1;
        }
    }
}

/// One layout step along an axis, saturated at the representable range.
fn saturate_span(cur: i128, step: i128) -> (r: i128)
    requires
        -0x8000_0000_0000_0000 <= cur <= 0x7fff_ffff_ffff_ffff,
        0 <= step <= 0x1_0000_0000_0000_0000,
    ensures
        cur <= r <= 0x7fff_ffff_ffff_ffff,
        r == sat_step(cur as int, step as int),
{
    let next = cur + step;
    if next > 0x7fff_ffff_ffff_ffffi128 {
        0x7fff_ffff_ffff_ffffi128
    } else {
        next
    }
}

/// Clamp of a coordinate into the frame computation's safe range.
fn clamp_span(x: i64) -> (r: i64)
    ensures
        -0x1000_0000_0000 <= r <= 0x1000_0000_0000,
{
    if x > 0x1000_0000_0000i64 {
        0x1000_0000_0000i64
    } else if x < -0x1000_0000_0000i64 {
        -0x1000_0000_0000i64
    } else {
        x
    }
}


impl Workflow {
    /// Acyclicity of the live shape: every nonempty set of live blocks
    /// has a member into which no live edge leads from the set.
    pub open spec fn spec_acyclic(&self) -> bool {
        topo::acyclic(self.node_seq(), self.live_edge_set())
    }
}

/// What the execution order guarantees. It never lists a block twice and
/// lists only live blocks; the source of every live edge whose target is
/// scheduled is scheduled strictly before it; and on an acyclic shape it
/// lists every live block — exactly once, by the first two parts.
pub proof fn lemma_execution_order_properties(w: Workflow)
    requires
        w.wf(),
    ensures
        w.spec_execution_order().no_duplicates(),
        forall|j: int|
            0 <= j < w.spec_execution_order().len() ==> w.has_block(
                #[trigger] w.spec_execution_order()[j],
            ),
        forall|j: int, u: u128|
            0 <= j < w.spec_execution_order().len() && #[trigger] w.live_edge_set().contains(
                (u, w.spec_execution_order()[j]),
            ) ==> exists|k: int| 0 <= k < j && w.spec_execution_order()[k] == u,
        w.spec_acyclic() ==> w.spec_execution_order().len() == w.blocks@.len(),
        w.spec_acyclic() ==> forall|id: u128|
            #[trigger] w.has_block(id) ==> w.spec_execution_order().contains(id),
{
    broadcast use vstd::seq_lib::group_to_multiset_ensures;

    let nodes = w.node_seq();
    let sorted = nodes.sort_by(key_order());
    let edges = w.live_edge_set();
    let order = w.spec_execution_order();

    nodes.lemma_sort_by_ensures(key_order());
    topo::lemma_key_order_total();
    assert forall|a: int, b: int|
        0 <= a < b < nodes.len() implies nodes[a].id != nodes[b].id by {
        assert(w.blocks@[a].id != w.blocks@[b].id);
    }
    lemma_unique_ids_preserved(nodes, sorted);

    // A block is live exactly when the key-sorted node list carries its
    // identity.
    assert forall|x: u128| topo::ids_of(sorted).contains(x) == w.has_block(x) by {
        if topo::ids_of(sorted).contains(x) {
            let j = choose|j: int|
                0 <= j < topo::ids_of(sorted).len() && topo::ids_of(sorted)[j] == x;
            assert(sorted[j].id == x);
            assert(sorted.contains(sorted[j]));
            assert(sorted.to_multiset().contains(sorted[j]));
            assert(nodes.to_multiset().contains(sorted[j]));
            assert(nodes.contains(sorted[j]));
            let i = choose|i: int| 0 <= i < nodes.len() && nodes[i] == sorted[j];
            assert(w.block_ids()[i] == x);
        }
        if w.has_block(x) {
            let i = choose|i: int| 0 <= i < w.block_ids().len() && w.block_ids()[i] == x;
            assert(nodes[i].id == x);
            assert(nodes.contains(nodes[i]));
            assert(nodes.to_multiset().contains(nodes[i]));
            assert(sorted.to_multiset().contains(nodes[i]));
            assert(sorted.contains(nodes[i]));
            let j = choose|j: int| 0 <= j < sorted.len() && sorted[j] == nodes[i];
            assert(topo::ids_of(sorted)[j] == x);
        }
    }

    assert(topo::edges_within(sorted, edges)) by {
        assert forall|p: (u128, u128)| #[trigger]
            edges.contains(p) implies topo::ids_of(sorted).contains(p.0) && topo::ids_of(
            sorted,
        ).contains(p.1) by {}
    }

    topo::lemma_topo_properties(sorted, edges);

    assert forall|j: int|
        0 <= j < order.len() implies w.has_block(#[trigger] order[j]) by {
        assert(topo::ids_of(sorted).contains(order[j]));
    }

    if w.spec_acyclic() {
        // Acyclicity carries over to the sorted arrangement: the
        // identity sets agree.
        assert(topo::ids_of(nodes).to_set() =~= topo::ids_of(sorted).to_set()) by {
            assert forall|x: u128|
                topo::ids_of(nodes).contains(x) == topo::ids_of(sorted).contains(x) by {
                if topo::ids_of(nodes).contains(x) {
                    let i = choose|i: int|
                        0 <= i < topo::ids_of(nodes).len() && topo::ids_of(nodes)[i] == x;
                    assert(w.block_ids()[i] == x);
                    assert(w.has_block(x));
                }
                if topo::ids_of(sorted).contains(x) {
                    assert(w.has_block(x));
                    let i = choose|i: int|
                        0 <= i < w.block_ids().len() && w.block_ids()[i] == x;
                    assert(topo::ids_of(nodes)[i] == x);
                }
            }
        }
        assert(topo::acyclic(sorted, edges)) by {
            assert forall|s: Set<u128>|
                s.finite() && #[trigger] s.subset_of(topo::ids_of(sorted).to_set()) && s.len()
                    > 0 implies exists|v: u128|
                s.contains(v) && forall|u: u128| s.contains(u) ==> !edges.contains((u, v)) by {
                assert(s.subset_of(topo::ids_of(nodes).to_set()));
            }
        }
        assert(order.len() == sorted.len());
        assert(sorted.to_multiset().len() == sorted.len());
        assert(nodes.to_multiset().len() == nodes.len());
        assert(sorted.len() == w.blocks@.len());
        assert forall|id: u128| #[trigger] w.has_block(id) implies order.contains(id) by {
            let i = choose|i: int| 0 <= i < w.block_ids().len() && w.block_ids()[i] == id;
            assert(nodes[i].id == id);
            assert(nodes.contains(nodes[i]));
            assert(nodes.to_multiset().contains(nodes[i]));
            assert(sorted.to_multiset().contains(nodes[i]));
            assert(sorted.contains(nodes[i]));
            assert(order.contains(nodes[i].id));
        }
    }
}

} // verus!
