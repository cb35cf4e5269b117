//! The execution engine's decisions.
//!
//! Each cycle walks the execution order. Per block, the engine resolves
//! the block's inputs — stored values overridden by values delivered
//! over connections, the connection processed last winning — persists
//! them, marshals properties, state and inputs into interpreter tables,
//! and, once the host runtime has run the block's script, replaces the
//! block's outputs and state wholesale with the returned tables. The
//! host runtime performs the script call itself: a script may sleep,
//! read files or fail, and a failure leaves the block's outputs as they
//! were while the cycle continues.

use vstd::prelude::*;

use crate::block::{BlockView, block_wf};
use crate::connection::ConnectionView;
use crate::graph::Workflow;
use crate::kvmap::KvMap;
use crate::marshal::{
    LuaData, LuaDataView, LuaKey, LuaKeyView, from_lua_data, sizes_ok, spec_decode,
    spec_encode_object, value_to_lua,
};
use crate::value::{Value, ValueView};

verus! {

/// The index of the block carrying an identity.
pub open spec fn block_index_of(blocks: Seq<BlockView>, id: u128) -> int {
    choose|i: int| 0 <= i < blocks.len() && blocks[i].id == id
}

/// Whether some block carries the identity.
pub open spec fn some_block_has(blocks: Seq<BlockView>, id: u128) -> bool {
    exists|i: int| 0 <= i < blocks.len() && blocks[i].id == id
}

/// The input map a block sees: its stored inputs, overridden by the
/// value behind each connection into it whose source block and source
/// output resolve, in connection order — the last delivery to a port
/// wins.
pub open spec fn spec_resolved_inputs(
    conns: Seq<ConnectionView>,
    blocks: Seq<BlockView>,
    target: u128,
    base: Map<Seq<char>, ValueView>,
) -> Map<Seq<char>, ValueView>
    decreases conns.len(),
{
    if conns.len() == 0 {
        base
    } else {
        let m = spec_resolved_inputs(conns.drop_last(), blocks, target, base);
        let c = conns.last();
        if c.to_block == target && some_block_has(blocks, c.from_block) && blocks[block_index_of(
            blocks,
            c.from_block,
        )].output_values.dom().contains(c.from_port) {
            m.insert(c.to_port, blocks[block_index_of(blocks, c.from_block)].output_values[c.from_port])
        } else {
            m
        }
    }
}

/// The fields of a returned table: its string-keyed entries decoded, in
/// order, a later entry overriding an earlier one of the same name.
pub open spec fn spec_decoded_fields(
    entries: Seq<(LuaKeyView, LuaDataView)>,
) -> Map<Seq<char>, ValueView>
    decreases entries.len(),
{
    if entries.len() == 0 {
        Map::empty()
    } else {
        let m = spec_decoded_fields(entries.drop_last());
        match entries.last().0 {
            LuaKeyView::Str(s) => m.insert(s, spec_decode(entries.last().1)),
            LuaKeyView::Int(_) => m,
        }
    }
}

/// Every value of a map is small enough to marshal.
pub open spec fn map_sizes_ok(m: KvMap<Value>) -> bool {
    forall|i: int| 0 <= i < m.list().len() ==> sizes_ok((#[trigger] m.list()[i]).1.deep_view())
}

/// Marshals a value map into a string-keyed interpreter table, in entry
/// order.
pub fn kvmap_to_table(m: &KvMap<Value>) -> (r: LuaData)
    requires
        map_sizes_ok(*m),
    ensures
        r.deep_view() == LuaDataView::Table(
            spec_encode_object(crate::value::entry_views_of(m.list())),
        ),
{
    let ghost fv = crate::value::entry_views_of(m.list());
    proof {
        crate::value::lemma_entry_views_of(m.list());
        crate::marshal::lemma_encode_object_entries(fv);
    }
    let entries = m.entries();
    let mut out: Vec<(LuaKey, LuaData)> = Vec::new();
    let mut i: usize = 0;
    while i < entries.len()
        invariant
            map_sizes_ok(*m),
            entries@ == m.list(),
            fv == crate::value::entry_views_of(m.list()),
            fv.len() == entries@.len(),
            forall|k: int|
                0 <= k < entries@.len() ==> fv[k] == ((#[trigger] entries@[k]).0@,
                entries@[k].1.deep_view()),
            spec_encode_object(fv).len() == fv.len(),
            forall|j: int|
                0 <= j < fv.len() ==> #[trigger] spec_encode_object(fv)[j] == (
                LuaKeyView::Str(fv[j].0),
                crate::marshal::spec_encode(fv[j].1),
                ),
            i <= entries@.len(),
            crate::marshal::lua_entry_views_of(out@) =~= spec_encode_object(fv).subrange(
                0,
                i as int,
            ),
            out@.len() == i,
        decreases entries@.len() - i,
    {
        let ghost before = out@;
        let key = LuaKey::Str(entries[i].0.clone());
        proof {
            assert(sizes_ok(m.list()[i as int].1.deep_view()));
        }
        let enc = value_to_lua(&entries[i].1);
        out.push((key, enc));
        proof {
            crate::marshal::lemma_lua_entry_views_of(out@);
            crate::marshal::lemma_lua_entry_views_of(before);
            assert forall|j: int|
                0 <= j < out@.len() implies crate::marshal::lua_entry_views_of(out@)[j]
                == spec_encode_object(fv).subrange(0, i + 1)[j] by {
                if j < before.len() {
                    assert(out@[j] == before[j]);
                    assert(crate::marshal::lua_entry_views_of(before)[j] == spec_encode_object(
                        fv,
                    ).subrange(0, i as int)[j]);
                }
            }
            assert(crate::marshal::lua_entry_views_of(out@) =~= spec_encode_object(fv).subrange(
                0,
                i + 1,
            ));
        }
        i += 1;
    }
    proof {
        assert(spec_encode_object(fv).subrange(0, fv.len() as int) =~= spec_encode_object(fv));
    }
    LuaData::Table(out)
}

/// Reads the fields of a returned table into a fresh value map: its
/// string-keyed entries decoded in order, a later entry overriding an
/// earlier one.
pub fn table_to_kvmap(entries: &Vec<(LuaKey, LuaData)>) -> (r: KvMap<Value>)
    ensures
        r.wf(),
        r.deep_map() == spec_decoded_fields(crate::marshal::lua_entry_views_of(entries@)),
{
    let ghost ev = crate::marshal::lua_entry_views_of(entries@);
    proof {
        crate::marshal::lemma_lua_entry_views_of(entries@);
    }
    let mut r: KvMap<Value> = KvMap::new();
    let mut i: usize = 0;
    while i < entries.len()
        invariant
            ev == crate::marshal::lua_entry_views_of(entries@),
            ev.len() == entries@.len(),
            forall|k: int|
                0 <= k < entries@.len() ==> ev[k] == ((#[trigger] entries@[k]).0.deep_view(),
                crate::marshal::lua_view_of(entries@[k].1)),
            i <= entries@.len(),
            r.wf(),
            r.deep_map() == spec_decoded_fields(ev.subrange(0, i as int)),
        decreases entries@.len() - i,
    {
        proof {
            assert(ev.subrange(0, i + 1).drop_last() =~= ev.subrange(0, i as int));
            assert(ev.subrange(0, i + 1).last() == ev[i as int]);
        }
        match &entries[i].0 {
            LuaKey::Str(key) => {
                let v = from_lua_data(&entries[i].1);
                r.insert(key.clone(), v);
            }
            LuaKey::Int(_) => {}
        }
        i += 1;
    }
    proof {
        assert(ev.subrange(0, ev.len() as int) =~= ev);
    }
    r
}

impl Workflow {
    /// A copy of the execution order, for the host runtime to walk.
    pub fn execution_plan(&self) -> (r: Vec<u128>)
        ensures
            r@ == self.execution_order@,
    {
        let mut r: Vec<u128> = Vec::new();
        let mut i: usize = 0;
        while i < self.execution_order.len()
            invariant
                i <= self.execution_order@.len(),
                r@ == self.execution_order@.subrange(0, i as int),
            decreases self.execution_order@.len() - i,
        {
            r.push(self.execution_order[i]);
            proof {
                assert(r@ =~= self.execution_order@.subrange(0, i + 1));
            }
            i += 1;
        }
        proof {
            assert(self.execution_order@.subrange(0, self.execution_order@.len() as int)
                =~= self.execution_order@);
        }
        r
    }

    /// Resolves a block's inputs for one execution: stored values
    /// overridden by connection-delivered values, the last connection
    /// winning; the resolved map is persisted on the block and returned.
    /// On an unknown identity nothing changes.
    pub fn resolve_block_inputs(&mut self, block_id: u128) -> (r: Option<KvMap<Value>>)
        requires
            old(self).wf(),
        ensures
            final(self).wf(),
            !old(self).has_block(block_id) ==> r is None && *final(self) == *old(self),
            old(self).has_block(block_id) ==> (r matches Some(m) && {
                let bi = block_index_of(old(self).blocks.deep_view(), block_id);
                let resolved = spec_resolved_inputs(
                    old(self).connections.deep_view(),
                    old(self).blocks.deep_view(),
                    block_id,
                    old(self).blocks.deep_view()[bi].input_values,
                );
                &&& m.wf()
                &&& m.deep_map() == resolved
                &&& final(self).blocks@.len() == old(self).blocks@.len()
                &&& final(self).blocks.deep_view() == old(self).blocks.deep_view().update(
                    bi,
                    BlockView { input_values: resolved, ..old(self).blocks.deep_view()[bi] },
                )
                &&& *final(self) == (Workflow { blocks: final(self).blocks, ..*old(self) })
            }),
    {
        let ghost pre = *self;
        let idx = match self.block_index(block_id) {
            Some(i) => i,
            None => {
                return None;
            }
        };
        proof {
            assert(pre.block_ids()[idx as int] == block_id);
            assert(pre.has_block(block_id));
            assert(pre.blocks.deep_view().len() == pre.blocks@.len());
            assert forall|k: int|
                0 <= k < pre.blocks@.len() implies (#[trigger] pre.blocks.deep_view()[k])
                == pre.blocks@[k].deep_view() by {}
            let bi = block_index_of(pre.blocks.deep_view(), block_id);
            assert(pre.blocks.deep_view()[idx as int].id == block_id);
            assert(bi == idx as int) by {
                if bi != idx as int {
                    assert(pre.blocks.deep_view()[bi].id == block_id);
                    assert(pre.blocks@[bi].id == block_id);
                    assert(pre.blocks@[bi].id != pre.blocks@[idx as int].id);
                }
            }
        }
        let mut inputs = self.blocks[idx].input_values.clone();
        let ghost dblocks = pre.blocks.deep_view();
        let ghost dconns = pre.connections.deep_view();
        let ghost base = dblocks[idx as int].input_values;
        let mut c: usize = 0;
        while c < self.connections.len()
            invariant
                pre.wf(),
                *self == pre,
                idx < pre.blocks@.len(),
                dblocks == pre.blocks.deep_view(),
                dconns == pre.connections.deep_view(),
                dconns.len() == pre.connections@.len(),
                base == dblocks[idx as int].input_values,
                c <= pre.connections@.len(),
                inputs.wf(),
                inputs.deep_map() == spec_resolved_inputs(
                    dconns.subrange(0, c as int),
                    dblocks,
                    block_id,
                    base,
                ),
            decreases pre.connections@.len() - c,
        {
            proof {
                assert(dconns.subrange(0, c + 1).drop_last() =~= dconns.subrange(0, c as int));
                assert(dconns.subrange(0, c + 1).last() == dconns[c as int]);
                assert(dconns[c as int] == pre.connections@[c as int].deep_view());
            }
            let conn_to = self.connections[c].to_block;
            if conn_to == block_id {
                let from = self.connections[c].from_block;
                match self.block_index(from) {
                    Some(src) => {
                        proof {
                            assert(pre.block_ids()[src as int] == from);
                            assert(some_block_has(dblocks, from)) by {
                                assert(dblocks[src as int].id == from);
                            }
                            let sbi = block_index_of(dblocks, from);
                            assert(sbi == src as int) by {
                                if sbi != src as int {
                                    assert(dblocks[sbi].id == from);
                                    assert(pre.blocks@[sbi].id == pre.blocks@[src as int].id);
                                }
                            }
                            assert(block_wf(pre.blocks@[src as int]));
                        }
                        let from_port = &self.connections[c].from_port;
                        match self.blocks[src].output_values.get(from_port.as_str()) {
                            Some(v) => {
                                let value = v.clone();
                                let port = self.connections[c].to_port.clone();
                                proof {
                                    assert(dblocks[src as int].output_values.dom().contains(
                                        dconns[c as int].from_port,
                                    ));
                                    assert(value.deep_view() == dblocks[
                                    src as int].output_values[dconns[c as int].from_port]);
                                }
                                inputs.insert(port, value);
                            }
                            None => {
                                proof {
                                    assert(!dblocks[src as int].output_values.dom().contains(
                                        dconns[c as int].from_port,
                                    ));
                                }
                            }
                        }
                    }
                    None => {
                        proof {
                            assert(!some_block_has(dblocks, from)) by {
                                if some_block_has(dblocks, from) {
                                    let bi2 = choose|bi2: int|
                                        0 <= bi2 < dblocks.len() && dblocks[bi2].id == from;
                                    assert(pre.blocks@[bi2].id == from);
                                    assert(pre.has_block(from)) by {
                                        assert(pre.block_ids()[bi2] == from);
                                    }
                                }
                            }
                        }
                    }
                }
            }
            c += 1;
        }
        proof {
            assert(dconns.subrange(0, dconns.len() as int) =~= dconns);
        }
        // Persist the resolved inputs so the canvas shows live values.
        let stored = inputs.clone();
        let bref = &mut self.blocks[idx];
        bref.input_values = stored;
        proof {
            assert forall|x: int, y: int|
                0 <= x < y < self.blocks@.len() implies self.blocks@[x].id
                != self.blocks@[y].id by {
                assert(pre.blocks@[x].id != pre.blocks@[y].id);
            }
            assert forall|i2: int|
                0 <= i2 < self.blocks@.len() implies block_wf(#[trigger] self.blocks@[i2]) by {
                assert(block_wf(pre.blocks@[i2]));
            }
            assert(self.blocks.deep_view() =~= dblocks.update(
                idx as int,
                BlockView { input_values: inputs.deep_map(), ..dblocks[idx as int] },
            ));
        }
        Some(inputs)
    }

    /// Applies one script invocation's results: the returned table's
    /// fields replace the block's outputs wholesale, and the state table
    /// replaces its state. On an unknown identity nothing changes.
    pub fn apply_block_result(&mut self, block_id: u128, result: &LuaData, new_state: &LuaData)
        requires
            old(self).wf(),
            result is Table,
            new_state is Table,
        ensures
            final(self).wf(),
            !old(self).has_block(block_id) ==> *final(self) == *old(self),
            old(self).has_block(block_id) ==> {
                let bi = block_index_of(old(self).blocks.deep_view(), block_id);
                &&& final(self).blocks@.len() == old(self).blocks@.len()
                &&& final(self).blocks.deep_view() == old(self).blocks.deep_view().update(
                    bi,
                    BlockView {
                        output_values: spec_decoded_fields(result.deep_view()->Table_0),
                        state: spec_decoded_fields(new_state.deep_view()->Table_0),
                        ..old(self).blocks.deep_view()[bi]
                    },
                )
                &&& *final(self) == (Workflow { blocks: final(self).blocks, ..*old(self) })
            },
    {
        let ghost pre = *self;
        let idx = match self.block_index(block_id) {
            Some(i) => i,
            None => {
                return ;
            }
        };
        proof {
            assert(pre.block_ids()[idx as int] == block_id);
            assert(pre.has_block(block_id));
            let bi = block_index_of(pre.blocks.deep_view(), block_id);
            assert(pre.blocks.deep_view()[idx as int].id == block_id);
            assert(bi == idx as int) by {
                if bi != idx as int {
                    assert(pre.blocks.deep_view()[bi].id == block_id);
                    assert(pre.blocks@[bi].id == block_id);
                    assert(pre.blocks@[bi].id != pre.blocks@[idx as int].id);
                }
            }
        }
        let outputs = match result {
            LuaData::Table(entries) => table_to_kvmap(entries),
            _ => KvMap::new(),
        };
        let state = match new_state {
            LuaData::Table(entries) => table_to_kvmap(entries),
            _ => KvMap::new(),
        };
        let bref = &mut self.blocks[idx];
        bref.output_values = outputs;
        bref.state = state;
        proof {
            assert forall|x: int, y: int|
                0 <= x < y < self.blocks@.len() implies self.blocks@[x].id
                != self.blocks@[y].id by {
                assert(pre.blocks@[x].id != pre.blocks@[y].id);
            }
            assert forall|i2: int|
                0 <= i2 < self.blocks@.len() implies block_wf(#[trigger] self.blocks@[i2]) by {
                assert(block_wf(pre.blocks@[i2]));
            }
            assert(self.blocks.deep_view() =~= pre.blocks.deep_view().update(
                idx as int,
                BlockView {
                    output_values: spec_decoded_fields(result.deep_view()->Table_0),
                    state: spec_decoded_fields(new_state.deep_view()->Table_0),
                    ..pre.blocks.deep_view()[idx as int]
                },
            ));
        }
    }

    /// Ends a cycle: every pending block has been run, so the dirty set
    /// empties.
    pub fn clear_dirty(&mut self)
        requires
            old(self).wf(),
        ensures
            final(self).wf(),
            final(self).dirty_blocks@.len() == 0,
            *final(self) == (Workflow { dirty_blocks: final(self).dirty_blocks, ..*old(self) }),
    {
        self.dirty_blocks = Vec::new();
    }
}

} // verus!
