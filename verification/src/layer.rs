//! Layers: named canvas regions used as view bookmarks.

use vstd::prelude::*;

use crate::geometry::Vec2;
use crate::ids::fresh_id;

verus! {

/// A named canvas region, jumped to from the layer panel. `zoom` is in
/// thousandths.
#[derive(Debug)]
pub struct Layer {
    pub id: u128,
    pub name: String,
    /// Center of the region, in canvas coordinates.
    pub center: Vec2,
    /// Extent of the region; never negative.
    pub size: Vec2,
    pub zoom: i64,
    pub order: usize,
    pub color: [u8; 3],
}

/// The mathematical model of a layer.
pub struct LayerView {
    pub id: u128,
    pub name: Seq<char>,
    pub center: Vec2,
    pub size: Vec2,
    pub zoom: i64,
    pub order: usize,
    pub color: [u8; 3],
}

impl DeepView for Layer {
    type V = LayerView;

    open spec fn deep_view(&self) -> LayerView {
        LayerView {
            id: self.id,
            name: self.name@,
            center: self.center,
            size: self.size,
            zoom: self.zoom,
            order: self.order,
            color: self.color,
        }
    }
}

impl Layer {
    /// Builds a layer over the given region, under a fresh identity, at
    /// unit zoom.
    pub fn new(name: String, center: Vec2, size: Vec2) -> (r: Layer)
        ensures
            r.name@ == name@,
            r.center == center,
            r.size == size,
            r.zoom == 1000,
            r.order == 0,
            r.color == [100u8, 150u8, 200u8],
    {
        Layer { id: fresh_id(), name, center, size, zoom: 1000, order: 0, color: [100, 150, 200] }
    }

    /// The layer every fresh canvas starts with.
    pub fn default_layer() -> (r: Layer)
        ensures
            r.name@ == "Main Scene"@,
            r.center.x == 40000 && r.center.y == 30000,
            r.size.x == 80000 && r.size.y == 60000,
            r.zoom == 1000,
    {
        Layer::new("Main Scene".to_owned(), Vec2::new(40000, 30000), Vec2::new(80000, 60000))
    }

    /// The region's corners: half the extent around the center.
    pub fn bounds(&self) -> (r: (Vec2, Vec2))
        requires
            0 <= self.size.x && 0 <= self.size.y,
            -0x2000_0000_0000_0000 <= self.center.x - self.size.x <= 0x2000_0000_0000_0000,
            -0x2000_0000_0000_0000 <= self.center.x + self.size.x <= 0x2000_0000_0000_0000,
            -0x2000_0000_0000_0000 <= self.center.y - self.size.y <= 0x2000_0000_0000_0000,
            -0x2000_0000_0000_0000 <= self.center.y + self.size.y <= 0x2000_0000_0000_0000,
        ensures
            r.0.x == self.center.x - self.size.x / 2,
            r.0.y == self.center.y - self.size.y / 2,
            r.1.x == self.center.x + self.size.x / 2,
            r.1.y == self.center.y + self.size.y / 2,
    {
        let half_w = self.size.x / 2;
        let half_h = self.size.y / 2;
        (
            Vec2::new(self.center.x - half_w, self.center.y - half_h),
            Vec2::new(self.center.x + half_w, self.center.y + half_h),
        )
    }

    /// Whether a point falls inside the region.
    pub fn contains(&self, point: Vec2) -> (r: bool)
        requires
            0 <= self.size.x && 0 <= self.size.y,
            -0x2000_0000_0000_0000 <= self.center.x - self.size.x <= 0x2000_0000_0000_0000,
            -0x2000_0000_0000_0000 <= self.center.x + self.size.x <= 0x2000_0000_0000_0000,
            -0x2000_0000_0000_0000 <= self.center.y - self.size.y <= 0x2000_0000_0000_0000,
            -0x2000_0000_0000_0000 <= self.center.y + self.size.y <= 0x2000_0000_0000_0000,
        ensures
            r == (self.center.x - self.size.x / 2 <= point.x <= self.center.x + self.size.x / 2
                && self.center.y - self.size.y / 2 <= point.y <= self.center.y + self.size.y / 2),
    {
        let (lo, hi) = self.bounds();
        point.x >= lo.x && point.x <= hi.x && point.y >= lo.y && point.y <= hi.y
    }
}

impl Clone for Layer {
    /// Copy; it models the same layer.
    fn clone(&self) -> (r: Layer)
        ensures
            r.deep_view() == self.deep_view(),
    {
        Layer {
            id: self.id,
            name: self.name.clone(),
            center: self.center,
            size: self.size,
            zoom: self.zoom,
            order: self.order,
            color: self.color,
        }
    }
}

} // verus!
