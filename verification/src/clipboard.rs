//! The clipboard: copied blocks and the connections among them, pasted
//! back under fresh identities.

use vstd::prelude::*;

use crate::block::{Block, block_wf};
use crate::connection::Connection;
use crate::geometry::Vec2;
use crate::ids::fresh_id;

verus! {

/// Copied blocks and the connections that run among them.
#[derive(Debug)]
pub struct Clipboard {
    blocks: Vec<Block>,
    connections: Vec<Connection>,
}

/// The identities of a block list.
pub open spec fn ids_of_blocks(blocks: Seq<Block>) -> Seq<u128> {
    blocks.map_values(|b: Block| b.id)
}

impl Clipboard {
    /// The stored blocks.
    pub closed spec fn spec_blocks(&self) -> Seq<Block> {
        self.blocks@
    }

    /// The stored connections.
    pub closed spec fn spec_connections(&self) -> Seq<Connection> {
        self.connections@
    }

    /// Stored state is consistent: blocks are well-formed and every
    /// stored connection runs between stored blocks.
    pub open spec fn wf(&self) -> bool {
        &&& forall|i: int|
            0 <= i < self.spec_blocks().len() ==> block_wf(#[trigger] self.spec_blocks()[i])
        &&& forall|j: int|
            0 <= j < self.spec_connections().len() ==> ids_of_blocks(self.spec_blocks()).contains(
                (#[trigger] self.spec_connections()[j]).from_block,
            ) && ids_of_blocks(self.spec_blocks()).contains(self.spec_connections()[j].to_block)
    }

    /// An empty clipboard.
    pub fn new() -> (r: Clipboard)
        ensures
            r.wf(),
            r.spec_blocks().len() == 0,
            r.spec_connections().len() == 0,
    {
        Clipboard { blocks: Vec::new(), connections: Vec::new() }
    }

    /// Whether nothing is stored.
    pub fn is_empty(&self) -> (r: bool)
        ensures
            r == (self.spec_blocks().len() == 0),
    {
        self.blocks.len() == 0
    }

    /// Stores copies of the given blocks and of exactly those given
    /// connections that run between two of them.
    pub fn copy(&mut self, blocks: &Vec<Block>, connections: &Vec<Connection>)
        requires
            forall|i: int| 0 <= i < blocks@.len() ==> block_wf(#[trigger] blocks@[i]),
        ensures
            final(self).wf(),
            final(self).spec_blocks().len() == blocks@.len(),
            forall|i: int|
                0 <= i < blocks@.len() ==> (#[trigger] final(self).spec_blocks()[i]).deep_view()
                    == blocks@[i].deep_view() && final(self).spec_blocks()[i].id == blocks@[i].id,
            final(self).spec_connections() == connections@.filter(
                |c: Connection|
                    ids_of_blocks(blocks@).contains(c.from_block) && ids_of_blocks(
                        blocks@,
                    ).contains(c.to_block),
            ),
    {
        let mut copied: Vec<Block> = Vec::new();
        let mut i: usize = 0;
        while i < blocks.len()
            invariant
                forall|k: int| 0 <= k < blocks@.len() ==> block_wf(#[trigger] blocks@[k]),
                i <= blocks@.len(),
                copied@.len() == i,
                forall|k: int|
                    0 <= k < i ==> (#[trigger] copied@[k]).deep_view() == blocks@[k].deep_view()
                        && copied@[k].id == blocks@[k].id && block_wf(copied@[k]),
            decreases blocks@.len() - i,
        {
            copied.push(blocks[i].clone());
            i += 1;
        }
        let mut kept: Vec<Connection> = Vec::new();
        let mut j: usize = 0;
        while j < connections.len()
            invariant
                j <= connections@.len(),
                kept@ == connections@.subrange(0, j as int).filter(
                    |c: Connection|
                        ids_of_blocks(blocks@).contains(c.from_block) && ids_of_blocks(
                            blocks@,
                        ).contains(c.to_block),
                ),
            decreases connections@.len() - j,
        {
            proof {
                assert(connections@.subrange(0, j + 1).drop_last() =~= connections@.subrange(
                    0,
                    j as int,
                ));
                assert(connections@.subrange(0, j + 1).last() == connections@[j as int]);
                reveal_with_fuel(Seq::filter, 2);
            }
            let c = &connections[j];
            let from_in = contains_block_id(blocks, c.from_block);
            let to_in = contains_block_id(blocks, c.to_block);
            if from_in && to_in {
                kept.push(c.clone());
            }
            j += 1;
        }
        proof {
            assert(connections@.subrange(0, connections@.len() as int) =~= connections@);
        }
        self.blocks = copied;
        self.connections = kept;
        proof {
            assert forall|j2: int|
                0 <= j2 < self.spec_connections().len() implies ids_of_blocks(
                self.spec_blocks(),
            ).contains((#[trigger] self.spec_connections()[j2]).from_block) && ids_of_blocks(
                self.spec_blocks(),
            ).contains(self.spec_connections()[j2].to_block) by {
                let f = |c: Connection|
                    ids_of_blocks(blocks@).contains(c.from_block) && ids_of_blocks(
                        blocks@,
                    ).contains(c.to_block);
                connections@.lemma_filter_pred(f, j2);
                let c = self.spec_connections()[j2];
                let x = choose|x: int|
                    0 <= x < ids_of_blocks(blocks@).len() && ids_of_blocks(blocks@)[x]
                        == c.from_block;
                assert(ids_of_blocks(self.spec_blocks())[x] == self.spec_blocks()[x].id);
                assert(self.spec_blocks()[x].id == blocks@[x].id);
                let y = choose|y: int|
                    0 <= y < ids_of_blocks(blocks@).len() && ids_of_blocks(blocks@)[y]
                        == c.to_block;
                assert(ids_of_blocks(self.spec_blocks())[y] == self.spec_blocks()[y].id);
                assert(self.spec_blocks()[y].id == blocks@[y].id);
            }
        }
    }

    /// Builds pasted copies: each stored block under a fresh identity,
    /// shifted by the offset and selected, outside any group; each
    /// stored connection rewired to the fresh identities, keeping its
    /// ports. Identities come from the random source, so nothing is
    /// promised of their values.
    pub fn paste(&self, offset: Vec2) -> (r: (Vec<Block>, Vec<Connection>))
        requires
            self.wf(),
            forall|i: int|
                0 <= i < self.spec_blocks().len() ==> {
                    let b = #[trigger] self.spec_blocks()[i];
                    -0x1000_0000_0000_0000 <= b.position.x + offset.x <= 0x1000_0000_0000_0000
                        && -0x1000_0000_0000_0000 <= b.position.y + offset.y
                        <= 0x1000_0000_0000_0000
                },
        ensures
            r.0@.len() == self.spec_blocks().len(),
            forall|i: int|
                0 <= i < self.spec_blocks().len() ==> {
                    let b = #[trigger] self.spec_blocks()[i];
                    let p = r.0@[i];
                    p.deep_view() == (crate::block::BlockView {
                        id: p.id,
                        position: (Vec2 {
                            x: (b.position.x + offset.x) as i64,
                            y: (b.position.y + offset.y) as i64,
                        }),
                        selected: true,
                        group_id: None,
                        ..b.deep_view()
                    })
                },
            r.1@.len() == self.spec_connections().len(),
            forall|j: int|
                0 <= j < self.spec_connections().len() ==> {
                    let c = #[trigger] self.spec_connections()[j];
                    let p = r.1@[j];
                    &&& p.from_port@ == c.from_port@
                    &&& p.to_port@ == c.to_port@
                    &&& exists|x: int|
                        0 <= x < self.spec_blocks().len() && self.spec_blocks()[x].id
                            == c.from_block && p.from_block == r.0@[x].id
                    &&& exists|y: int|
                        0 <= y < self.spec_blocks().len() && self.spec_blocks()[y].id
                            == c.to_block && p.to_block == r.0@[y].id
                },
    {
        let mut new_blocks: Vec<Block> = Vec::new();
        let mut i: usize = 0;
        while i < self.blocks.len()
            invariant
                self.wf(),
                forall|k: int|
                    0 <= k < self.spec_blocks().len() ==> {
                        let b = #[trigger] self.spec_blocks()[k];
                        -0x1000_0000_0000_0000 <= b.position.x + offset.x
                            <= 0x1000_0000_0000_0000 && -0x1000_0000_0000_0000 <= b.position.y
                            + offset.y <= 0x1000_0000_0000_0000
                    },
                i <= self.spec_blocks().len(),
                new_blocks@.len() == i,
                forall|k: int|
                    0 <= k < i ==> {
                        let b = #[trigger] self.spec_blocks()[k];
                        let p = new_blocks@[k];
                        p.deep_view() == (crate::block::BlockView {
                            id: p.id,
                            position: (Vec2 {
                                x: (b.position.x + offset.x) as i64,
                                y: (b.position.y + offset.y) as i64,
                            }),
                            selected: true,
                            group_id: None,
                            ..b.deep_view()
                        })
                    },
            decreases self.spec_blocks().len() - i,
        {
            let mut copy = self.blocks[i].clone();
            copy.id = fresh_id();
            copy.position = Vec2::new(
                self.blocks[i].position.x + offset.x,
                self.blocks[i].position.y + offset.y,
            );
            copy.selected = true;
            copy.group_id = None;
            new_blocks.push(copy);
            i += 1;
        }
        let mut new_conns: Vec<Connection> = Vec::new();
        let mut j: usize = 0;
        while j < self.connections.len()
            invariant
                self.wf(),
                new_blocks@.len() == self.spec_blocks().len(),
                j <= self.spec_connections().len(),
                new_conns@.len() == j,
                forall|k: int|
                    0 <= k < j ==> {
                        let c = #[trigger] self.spec_connections()[k];
                        let p = new_conns@[k];
                        &&& p.from_port@ == c.from_port@
                        &&& p.to_port@ == c.to_port@
                        &&& exists|x: int|
                            0 <= x < self.spec_blocks().len() && self.spec_blocks()[x].id
                                == c.from_block && p.from_block == new_blocks@[x].id
                        &&& exists|y: int|
                            0 <= y < self.spec_blocks().len() && self.spec_blocks()[y].id
                                == c.to_block && p.to_block == new_blocks@[y].id
                    },
            decreases self.spec_connections().len() - j,
        {
            let c = &self.connections[j];
            let from_idx = index_of_block_id(&self.blocks, c.from_block);
            let to_idx = index_of_block_id(&self.blocks, c.to_block);
            proof {
                assert(ids_of_blocks(self.spec_blocks()).contains(
                    self.spec_connections()[j as int].from_block,
                ));
                assert(ids_of_blocks(self.spec_blocks()).contains(
                    self.spec_connections()[j as int].to_block,
                ));
            }
            let (fi, ti) = match (from_idx, to_idx) {
                (Some(fi), Some(ti)) => (fi, ti),
                _ => {
                    proof {
                        let x = choose|x: int|
                            0 <= x < ids_of_blocks(self.spec_blocks()).len() && ids_of_blocks(
                                self.spec_blocks(),
                            )[x] == self.spec_connections()[j as int].from_block;
                        assert(self.spec_blocks()[x].id
                            == self.spec_connections()[j as int].from_block);
                        let y = choose|y: int|
                            0 <= y < ids_of_blocks(self.spec_blocks()).len() && ids_of_blocks(
                                self.spec_blocks(),
                            )[y] == self.spec_connections()[j as int].to_block;
                        assert(self.spec_blocks()[y].id
                            == self.spec_connections()[j as int].to_block);
                        assert(false);
                    }
                    (0, 0)
                }
            };
            let nc = Connection {
                id: fresh_id(),
                from_block: new_blocks[fi].id,
                from_port: c.from_port.clone(),
                to_block: new_blocks[ti].id,
                to_port: c.to_port.clone(),
            };
            new_conns.push(nc);
            j += 1;
        }
        (new_blocks, new_conns)
    }
}

/// Whether a block list carries this identity.
fn contains_block_id(blocks: &Vec<Block>, id: u128) -> (r: bool)
    ensures
        r == ids_of_blocks(blocks@).contains(id),
{
    let mut i: usize = 0;
    while i < blocks.len()
        invariant
            i <= blocks@.len(),
            forall|k: int| 0 <= k < i ==> blocks@[k].id != id,
        decreases blocks@.len() - i,
    {
        if blocks[i].id == id {
            proof {
                assert(ids_of_blocks(blocks@)[i as int] == id);
            }
            return true;
        }
        i += 1;
    }
    proof {
        if ids_of_blocks(blocks@).contains(id) {
            let k = choose|k: int|
                0 <= k < ids_of_blocks(blocks@).len() && ids_of_blocks(blocks@)[k] == id;
            assert(blocks@[k].id == id);
        }
    }
    false
}

/// The position of the block carrying this identity.
fn index_of_block_id(blocks: &Vec<Block>, id: u128) -> (r: Option<usize>)
    ensures
        match r {
            Some(i) => i < blocks@.len() && blocks@[i as int].id == id,
            None => !ids_of_blocks(blocks@).contains(id),
        },
{
    let mut i: usize = 0;
    while i < blocks.len()
        invariant
            i <= blocks@.len(),
            forall|k: int| 0 <= k < i ==> blocks@[k].id != id,
        decreases blocks@.len() - i,
    {
        if blocks[i].id == id {
            return Some(i);
        }
        i += 1;
    }
    proof {
        if ids_of_blocks(blocks@).contains(id) {
            let k = choose|k: int|
                0 <= k < ids_of_blocks(blocks@).len() && ids_of_blocks(blocks@)[k] == id;
            assert(blocks@[k].id == id);
        }
    }
    None
}

} // verus!
