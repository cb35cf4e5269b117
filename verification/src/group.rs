//! Block groups: named clusters of blocks with a computed frame.

use vstd::prelude::*;

use crate::geometry::Vec2;
use crate::ids::fresh_id;

verus! {

/// Padding around a group frame, in hundredths of a unit.
pub const GROUP_PADDING: i64 = 2000;

/// Height of a group's title strip, in hundredths of a unit.
pub const GROUP_TITLE_HEIGHT: i64 = 2400;

/// A named cluster of blocks.
#[derive(Debug)]
pub struct BlockGroup {
    pub id: u128,
    pub name: String,
    pub color: [u8; 3],
    /// Members, by block identity; no identity twice.
    pub blocks: Vec<u128>,
    pub position: Vec2,
    pub size: Vec2,
}

/// The mathematical model of a group.
pub struct GroupView {
    pub id: u128,
    pub name: Seq<char>,
    pub color: [u8; 3],
    pub blocks: Seq<u128>,
    pub position: Vec2,
    pub size: Vec2,
}

impl DeepView for BlockGroup {
    type V = GroupView;

    open spec fn deep_view(&self) -> GroupView {
        GroupView {
            id: self.id,
            name: self.name@,
            color: self.color,
            blocks: self.blocks@,
            position: self.position,
            size: self.size,
        }
    }
}

/// The least x coordinate among member rectangles, walking the placement
/// list; `None` when no member occurs in it.
pub open spec fn spec_frame(
    placements: Seq<(u128, Vec2, Vec2)>,
    members: Seq<u128>,
) -> Option<(int, int, int, int)>
    decreases placements.len(),
{
    if placements.len() == 0 {
        None
    } else {
        let rest = spec_frame(placements.drop_last(), members);
        let p = placements.last();
        if members.contains(p.0) {
            let x0 = p.1.x as int;
            let y0 = p.1.y as int;
            let x1 = p.1.x + p.2.x;
            let y1 = p.1.y + p.2.y;
            match rest {
                None => Some((x0, y0, x1, y1)),
                Some((a, b, c, d)) => Some(
                    (
                        if x0 < a {
                            x0
                        } else {
                            a
                        },
                        if y0 < b {
                            y0
                        } else {
                            b
                        },
                        if x1 > c {
                            x1
                        } else {
                            c
                        },
                        if y1 > d {
                            y1
                        } else {
                            d
                        },
                    ),
                )
            }
        } else {
            rest
        }
    }
}

impl BlockGroup {
    /// Builds a group over the given members, under a fresh identity, with
    /// the default color and an empty frame.
    pub fn new(name: String, blocks: Vec<u128>) -> (r: BlockGroup)
        ensures
            r.name@ == name@,
            r.blocks@ == blocks@,
            r.color == [100u8, 149u8, 237u8],
            r.position.x == 0 && r.position.y == 0,
            r.size.x == 0 && r.size.y == 0,
    {
        BlockGroup {
            id: fresh_id(),
            name,
            color: [100, 149, 237],
            blocks,
            position: Vec2::zero(),
            size: Vec2::zero(),
        }
    }

    /// Recomputes the frame around the members found in the placement
    /// list: their joint bounding box, padded, with room for the title.
    /// Without any member placed, the frame is left as it is.
    pub fn update_bounds(&mut self, placements: &Vec<(u128, Vec2, Vec2)>)
        requires
            forall|i: int|
                0 <= i < placements@.len() ==> {
                    let p = #[trigger] placements@[i];
                    -0x1000_0000_0000 <= p.1.x <= 0x1000_0000_0000
                        && -0x1000_0000_0000 <= p.1.y <= 0x1000_0000_0000
                        && -0x1000_0000_0000 <= p.2.x <= 0x1000_0000_0000
                        && -0x1000_0000_0000 <= p.2.y <= 0x1000_0000_0000
                },
        ensures
            ({
                let frame = spec_frame(placements@, old(self).blocks@);
                match frame {
                    None => *final(self) == *old(self),
                    Some((x0, y0, x1, y1)) => {
                        &&& final(self).position.x == x0 - GROUP_PADDING
                        &&& final(self).position.y == y0 - GROUP_PADDING - GROUP_TITLE_HEIGHT
                        &&& final(self).size.x == x1 - x0 + 2 * GROUP_PADDING
                        &&& final(self).size.y == y1 - y0 + 2 * GROUP_PADDING + GROUP_TITLE_HEIGHT
                        &&& *final(self) == (BlockGroup {
                            position: final(self).position,
                            size: final(self).size,
                            ..*old(self)
                        })
                    },
                }
            }),
    {
        let mut found = false;
        let mut min_x: i64 = 0;
        let mut min_y: i64 = 0;
        let mut max_x: i64 = 0;
        let mut max_y: i64 = 0;
        let mut i: usize = 0;
        while i < placements.len()
            invariant
                self == old(self),
                i <= placements@.len(),
                forall|k: int|
                    0 <= k < placements@.len() ==> {
                        let p = #[trigger] placements@[k];
                        -0x1000_0000_0000 <= p.1.x <= 0x1000_0000_0000 && -0x1000_0000_0000
                            <= p.1.y <= 0x1000_0000_0000 && -0x1000_0000_0000 <= p.2.x
                            <= 0x1000_0000_0000 && -0x1000_0000_0000 <= p.2.y <= 0x1000_0000_0000
                    },
                ({
                    let frame = spec_frame(placements@.subrange(0, i as int), self.blocks@);
                    match frame {
                        None => !found,
                        Some((a, b, c, d)) => found && min_x == a && min_y == b && max_x == c
                            && max_y == d,
                    }
                }),
                found ==> -0x2000_0000_0000 <= min_x <= 0x2000_0000_0000 && -0x2000_0000_0000
                    <= max_x <= 0x2000_0000_0000 && -0x2000_0000_0000 <= min_y
                    <= 0x2000_0000_0000 && -0x2000_0000_0000 <= max_y <= 0x2000_0000_0000,
            decreases placements@.len() - i,
        {
            let p = &placements[i];
            let is_member = {
                let mut m = false;
                let mut j: usize = 0;
                while j < self.blocks.len()
                    invariant
                        i < placements@.len(),
                        p == &placements@[i as int],
                        j <= self.blocks@.len(),
                        m == exists|k: int| 0 <= k < j && self.blocks@[k] == p.0,
                    decreases self.blocks@.len() - j,
                {
                    if self.blocks[j] == p.0 {
                        m = true;
                    }
                    j += 1;
                }
                m
            };
            proof {
                assert(is_member == self.blocks@.contains(p.0));
                assert(placements@.subrange(0, i + 1).drop_last() =~= placements@.subrange(
                    0,
                    i as int,
                ));
                assert(placements@.subrange(0, i + 1).last() == placements@[i as int]);
            }
            if is_member {
                let x0 = p.1.x;
                let y0 = p.1.y;
                let x1 = p.1.x + p.2.x;
                let y1 = p.1.y + p.2.y;
                if !found {
                    found = true;
                    min_x = x0;
                    min_y = y0;
                    max_x = x1;
                    max_y = y1;
                } else {
                    if x0 < min_x {
                        min_x = x0;
                    }
                    if y0 < min_y {
                        min_y = y0;
                    }
                    if x1 > max_x {
                        max_x = x1;
                    }
                    if y1 > max_y {
                        max_y = y1;
                    }
                }
            }
            i += 1;
        }
        proof {
            assert(placements@.subrange(0, placements@.len() as int) =~= placements@);
        }
        if found {
            self.position = Vec2::new(min_x - GROUP_PADDING, min_y - GROUP_PADDING
                - GROUP_TITLE_HEIGHT);
            self.size = Vec2::new(max_x - min_x + 2 * GROUP_PADDING, max_y - min_y + 2
                * GROUP_PADDING + GROUP_TITLE_HEIGHT);
        }
    }
}

impl Clone for BlockGroup {
    /// Copy; it models the same group.
    fn clone(&self) -> (r: BlockGroup)
        ensures
            r.deep_view() == self.deep_view(),
    {
        BlockGroup {
            id: self.id,
            name: self.name.clone(),
            color: self.color,
            blocks: self.blocks.clone(),
            position: self.position,
            size: self.size,
        }
    }
}

} // verus!
