//! Block instances: the mutable per-graph state of one node.

use vstd::prelude::*;

use crate::definition::{BlockDefinition, PortDefinition, PortView};
use crate::geometry::Vec2;
use crate::ids::fresh_id;
use crate::kvmap::KvMap;
use crate::value::{Value, ValueView};

verus! {

/// How a block is drawn on the canvas.
#[derive(Debug, Clone, Copy, PartialEq, Eq, Structural)]
pub enum BlockDisplayMode {
    /// Name and icon only, without ports.
    Mini,
    /// The full port list.
    Full,
    /// Not drawn at all.
    Hidden,
}

impl Default for BlockDisplayMode {
    /// Blocks are drawn in full by default.
    fn default() -> (r: BlockDisplayMode)
        ensures
            r == BlockDisplayMode::Full,
    {
        BlockDisplayMode::Full
    }
}

/// A block instance on the canvas.
#[derive(Debug)]
pub struct Block {
    pub id: u128,
    pub script_id: String,
    pub position: Vec2,
    pub size: Vec2,
    /// A user-chosen name overriding the definition's.
    pub custom_name: Option<String>,
    pub input_values: KvMap<Value>,
    pub output_values: KvMap<Value>,
    pub properties: KvMap<Value>,
    /// Script-managed memory, kept across execution cycles.
    pub state: KvMap<Value>,
    pub selected: bool,
    pub collapsed: bool,
    pub group_id: Option<u128>,
    pub widget_text: String,
    pub widget_selected_index: usize,
    pub widget_checked: bool,
    /// Output ports discovered at run time, beyond the definition's.
    pub dynamic_outputs: Vec<PortDefinition>,
}

/// The mathematical model of a block instance.
pub struct BlockView {
    pub id: u128,
    pub script_id: Seq<char>,
    pub position: Vec2,
    pub size: Vec2,
    pub custom_name: Option<Seq<char>>,
    pub input_values: Map<Seq<char>, ValueView>,
    pub output_values: Map<Seq<char>, ValueView>,
    pub properties: Map<Seq<char>, ValueView>,
    pub state: Map<Seq<char>, ValueView>,
    pub selected: bool,
    pub collapsed: bool,
    pub group_id: Option<u128>,
    pub widget_text: Seq<char>,
    pub widget_selected_index: usize,
    pub widget_checked: bool,
    pub dynamic_outputs: Seq<PortView>,
}

impl DeepView for Block {
    type V = BlockView;

    open spec fn deep_view(&self) -> BlockView {
        BlockView {
            id: self.id,
            script_id: self.script_id@,
            position: self.position,
            size: self.size,
            custom_name: self.custom_name.deep_view(),
            input_values: self.input_values.deep_map(),
            output_values: self.output_values.deep_map(),
            properties: self.properties.deep_map(),
            state: self.state.deep_map(),
            selected: self.selected,
            collapsed: self.collapsed,
            group_id: self.group_id,
            widget_text: self.widget_text@,
            widget_selected_index: self.widget_selected_index,
            widget_checked: self.widget_checked,
            dynamic_outputs: self.dynamic_outputs.deep_view(),
        }
    }
}

/// The value maps of a block all have unique keys.
pub open spec fn block_wf(b: Block) -> bool {
    &&& b.input_values.wf()
    &&& b.output_values.wf()
    &&& b.properties.wf()
    &&& b.state.wf()
}

/// The defaults of a port list, later ports overriding earlier ones of
/// the same id.
pub open spec fn port_defaults(ports: Seq<PortView>) -> Map<Seq<char>, ValueView>
    decreases ports.len(),
{
    if ports.len() == 0 {
        Map::empty()
    } else {
        port_defaults(ports.drop_last()).insert(ports.last().id, ports.last().default)
    }
}

/// The defaults of a property list, later entries overriding earlier ones.
pub open spec fn property_defaults(
    props: Seq<crate::definition::PropertyView>,
) -> Map<Seq<char>, ValueView>
    decreases props.len(),
{
    if props.len() == 0 {
        Map::empty()
    } else {
        property_defaults(props.drop_last()).insert(props.last().id, props.last().default)
    }
}

impl Block {
    /// Builds a fresh instance of a definition at a position: every port
    /// and property starts at its declared default.
    pub fn new(definition: &BlockDefinition, position: Vec2) -> (r: Block)
        ensures
            block_wf(r),
            r.script_id@ == definition.meta.id@,
            r.position == position,
            r.size.x == crate::definition::spec_width(*definition),
            r.size.y == crate::definition::spec_height(*definition),
            r.custom_name is None,
            r.input_values.deep_map() == port_defaults(definition.inputs.deep_view()),
            r.output_values.deep_map() == port_defaults(definition.outputs.deep_view()),
            r.properties.deep_map() == property_defaults(definition.properties.deep_view()),
            r.state.deep_map() == Map::<Seq<char>, ValueView>::empty(),
            !r.selected && !r.collapsed && r.group_id is None,
            r.widget_text@ == Seq::<char>::empty(),
            r.widget_selected_index == 0 && !r.widget_checked,
            r.dynamic_outputs@.len() == 0,
    {
        let mut properties: KvMap<Value> = KvMap::new();
        let mut i: usize = 0;
        while i < definition.properties.len()
            invariant
                properties.wf(),
                i <= definition.properties@.len(),
                properties.deep_map() == property_defaults(
                    definition.properties.deep_view().subrange(0, i as int),
                ),
            decreases definition.properties@.len() - i,
        {
            let p = &definition.properties[i];
            properties.insert(p.id.clone(), p.default.clone());
            proof {
                let dv = definition.properties.deep_view();
                assert(dv.subrange(0, i + 1).drop_last() =~= dv.subrange(0, i as int));
                assert(dv.subrange(0, i + 1).last() == dv[i as int]);
            }
            i += 1;
        }
        proof {
            let dv = definition.properties.deep_view();
            assert(dv.subrange(0, dv.len() as int) =~= dv);
        }

        let mut input_values: KvMap<Value> = KvMap::new();
        let mut i: usize = 0;
        while i < definition.inputs.len()
            invariant
                input_values.wf(),
                i <= definition.inputs@.len(),
                input_values.deep_map() == port_defaults(
                    definition.inputs.deep_view().subrange(0, i as int),
                ),
            decreases definition.inputs@.len() - i,
        {
            let p = &definition.inputs[i];
            input_values.insert(p.id.clone(), p.default.clone());
            proof {
                let dv = definition.inputs.deep_view();
                assert(dv.subrange(0, i + 1).drop_last() =~= dv.subrange(0, i as int));
                assert(dv.subrange(0, i + 1).last() == dv[i as int]);
            }
            i += 1;
        }
        proof {
            let dv = definition.inputs.deep_view();
            assert(dv.subrange(0, dv.len() as int) =~= dv);
        }

        let mut output_values: KvMap<Value> = KvMap::new();
        let mut i: usize = 0;
        while i < definition.outputs.len()
            invariant
                output_values.wf(),
                i <= definition.outputs@.len(),
                output_values.deep_map() == port_defaults(
                    definition.outputs.deep_view().subrange(0, i as int),
                ),
            decreases definition.outputs@.len() - i,
        {
            let p = &definition.outputs[i];
            output_values.insert(p.id.clone(), p.default.clone());
            proof {
                let dv = definition.outputs.deep_view();
                assert(dv.subrange(0, i + 1).drop_last() =~= dv.subrange(0, i as int));
                assert(dv.subrange(0, i + 1).last() == dv[i as int]);
            }
            i += 1;
        }
        proof {
            let dv = definition.outputs.deep_view();
            assert(dv.subrange(0, dv.len() as int) =~= dv);
        }

        let size = Vec2::new(definition.calculate_width(), definition.calculate_height());
        Block {
            id: fresh_id(),
            script_id: definition.meta.id.clone(),
            position,
            size,
            custom_name: None,
            input_values,
            output_values,
            properties,
            state: KvMap::new(),
            selected: false,
            collapsed: false,
            group_id: None,
            widget_text: String::new(),
            widget_selected_index: 0,
            widget_checked: false,
            dynamic_outputs: Vec::new(),
        }
    }

    /// Stores a value on an input port.
    pub fn set_input(&mut self, port_id: &str, value: Value)
        requires
            old(self).input_values.wf(),
        ensures
            final(self).input_values.wf(),
            final(self).input_values.deep_map() == old(self).input_values.deep_map().insert(
                port_id@,
                value.deep_view(),
            ),
            *final(self) == (Block { input_values: final(self).input_values, ..*old(self) }),
    {
        self.input_values.insert(port_id.to_owned(), value);
    }

    /// Stores a value on an output port.
    pub fn set_output(&mut self, port_id: &str, value: Value)
        requires
            old(self).output_values.wf(),
        ensures
            final(self).output_values.wf(),
            final(self).output_values.deep_map() == old(self).output_values.deep_map().insert(
                port_id@,
                value.deep_view(),
            ),
            *final(self) == (Block { output_values: final(self).output_values, ..*old(self) }),
    {
        self.output_values.insert(port_id.to_owned(), value);
    }

    /// Reads an output port.
    pub fn get_output(&self, port_id: &str) -> (r: Option<&Value>)
        requires
            self.output_values.wf(),
        ensures
            match r {
                Some(v) => self.output_values.has_key(port_id@) && v.deep_view()
                    == self.output_values.deep_map()[port_id@],
                None => !self.output_values.has_key(port_id@),
            },
    {
        self.output_values.get(port_id)
    }

    /// The block's name: the user-chosen one when set, else the
    /// definition's.
    pub fn display_name<'a>(&'a self, definition: &'a BlockDefinition) -> (r: &'a str)
        ensures
            match self.custom_name {
                Some(n) => r@ == n@,
                None => r@ == definition.meta.name@,
            },
    {
        match &self.custom_name {
            Some(n) => n.as_str(),
            None => definition.meta.name.as_str(),
        }
    }

    /// The bounding rectangle, as its two corners.
    pub fn bounds(&self) -> (r: (Vec2, Vec2))
        requires
            -0x2000_0000_0000_0000 <= self.position.x + self.size.x <= 0x2000_0000_0000_0000,
            -0x2000_0000_0000_0000 <= self.position.y + self.size.y <= 0x2000_0000_0000_0000,
        ensures
            r.0 == self.position,
            r.1.x == self.position.x + self.size.x,
            r.1.y == self.position.y + self.size.y,
    {
        (self.position, Vec2::new(self.position.x + self.size.x, self.position.y + self.size.y))
    }

    /// Whether a point falls inside the block's rectangle.
    pub fn contains(&self, point: Vec2) -> (r: bool)
        requires
            -0x2000_0000_0000_0000 <= self.position.x + self.size.x <= 0x2000_0000_0000_0000,
            -0x2000_0000_0000_0000 <= self.position.y + self.size.y <= 0x2000_0000_0000_0000,
        ensures
            r == (self.position.x <= point.x <= self.position.x + self.size.x
                && self.position.y <= point.y <= self.position.y + self.size.y),
    {
        point.x >= self.position.x && point.x <= self.position.x + self.size.x
            && point.y >= self.position.y && point.y <= self.position.y + self.size.y
    }

    /// The fixed size of the mini display mode.
    pub fn mini_size() -> (r: Vec2)
        ensures
            r == (Vec2 { x: 8000int as i64, y: 3600int as i64 }),
    {
        Vec2::new(8000, 3600)
    }

    /// The size the block occupies in a display mode.
    pub fn display_size(&self, mode: BlockDisplayMode) -> (r: Vec2)
        ensures
            r == (match mode {
                BlockDisplayMode::Mini => (Vec2 { x: 8000int as i64, y: 3600int as i64 }),
                BlockDisplayMode::Full => self.size,
                BlockDisplayMode::Hidden => (Vec2 { x: 0int as i64, y: 0int as i64 }),
            }),
    {
        match mode {
            BlockDisplayMode::Mini => Self::mini_size(),
            BlockDisplayMode::Full => self.size,
            BlockDisplayMode::Hidden => Vec2::new(0, 0),
        }
    }

    /// Whether a point falls inside the rectangle the block occupies in a
    /// display mode.
    pub fn contains_with_mode(&self, point: Vec2, mode: BlockDisplayMode) -> (r: bool)
        requires
            -0x2000_0000_0000_0000 <= self.position.x <= 0x2000_0000_0000_0000,
            -0x2000_0000_0000_0000 <= self.position.y <= 0x2000_0000_0000_0000,
            -0x1000_0000_0000_0000 <= self.size.x <= 0x1000_0000_0000_0000,
            -0x1000_0000_0000_0000 <= self.size.y <= 0x1000_0000_0000_0000,
        ensures
            ({
                let s = match mode {
                    BlockDisplayMode::Mini => (Vec2 { x: 8000int as i64, y: 3600int as i64 }),
                    BlockDisplayMode::Full => self.size,
                    BlockDisplayMode::Hidden => (Vec2 { x: 0int as i64, y: 0int as i64 }),
                };
                r == (self.position.x <= point.x <= self.position.x + s.x
                    && self.position.y <= point.y <= self.position.y + s.y)
            }),
    {
        let size = self.display_size(mode);
        point.x >= self.position.x && point.x <= self.position.x + size.x
            && point.y >= self.position.y && point.y <= self.position.y + size.y
    }
}


impl Clone for Block {
    /// Deep copy; a well-formed block's copy models the same block.
    fn clone(&self) -> (r: Block)
        ensures
            block_wf(*self) ==> block_wf(r) && r.deep_view() == self.deep_view(),
    {
        let custom_name = match &self.custom_name {
            Some(n) => Some(n.clone()),
            None => None,
        };
        let mut dynamic_outputs: Vec<PortDefinition> = Vec::new();
        let mut i: usize = 0;
        while i < self.dynamic_outputs.len()
            invariant
                i <= self.dynamic_outputs@.len(),
                dynamic_outputs@.len() == i,
                forall|k: int|
                    0 <= k < i ==> (#[trigger] dynamic_outputs@[k]).deep_view()
                        == self.dynamic_outputs@[k].deep_view(),
            decreases self.dynamic_outputs@.len() - i,
        {
            dynamic_outputs.push(self.dynamic_outputs[i].clone());
            i += 1;
        }
        let r = Block {
            id: self.id,
            script_id: self.script_id.clone(),
            position: self.position,
            size: self.size,
            custom_name,
            input_values: self.input_values.clone(),
            output_values: self.output_values.clone(),
            properties: self.properties.clone(),
            state: self.state.clone(),
            selected: self.selected,
            collapsed: self.collapsed,
            group_id: self.group_id,
            widget_text: self.widget_text.clone(),
            widget_selected_index: self.widget_selected_index,
            widget_checked: self.widget_checked,
            dynamic_outputs,
        };
        proof {
            assert(r.dynamic_outputs.deep_view() =~= self.dynamic_outputs.deep_view());
            assert(r.custom_name.deep_view() == self.custom_name.deep_view());
        }
        r
    }
}


/// The declared type matching a runtime value's shape.
pub open spec fn inferred_type(v: ValueView) -> crate::definition::DataType {
    match v {
        ValueView::Number(_) => crate::definition::DataType::Number,
        ValueView::Text(_) => crate::definition::DataType::Text,
        ValueView::Boolean(_) => crate::definition::DataType::Boolean,
        ValueView::Array(_) => crate::definition::DataType::Array,
        _ => crate::definition::DataType::Any,
    }
}

/// The port a runtime output value spawns: named after its key, typed
/// after its shape, otherwise bare.
pub open spec fn dynamic_port_view(key: Seq<char>, v: ValueView) -> PortView {
    PortView {
        id: key,
        name: key,
        data_type: inferred_type(v),
        default: ValueView::Nil,
        description: Seq::empty(),
        required: false,
        multiple: false,
        element_type: None,
        min: None,
        max: None,
    }
}

/// Whether a port list declares this identifier.
pub open spec fn declares_port(ports: Seq<PortView>, id: Seq<char>) -> bool {
    exists|j: int| 0 <= j < ports.len() && ports[j].id == id
}

/// The dynamic ports an output entry list spawns: one per entry whose
/// key no static output declares, in entry order.
pub open spec fn spec_dynamic_ports(
    entries: Seq<(Seq<char>, ValueView)>,
    outs: Seq<PortView>,
) -> Seq<PortView>
    decreases entries.len(),
{
    if entries.len() == 0 {
        Seq::empty()
    } else {
        let rest = spec_dynamic_ports(entries.drop_last(), outs);
        if declares_port(outs, entries.last().0) {
            rest
        } else {
            rest.push(dynamic_port_view(entries.last().0, entries.last().1))
        }
    }
}

/// Insertion of a port into an id-sorted port list: after every entry
/// whose id does not come above its own, before the rest.
pub open spec fn insert_by_id(s: Seq<PortView>, p: PortView) -> Seq<PortView>
    decreases s.len(),
{
    if s.len() == 0 {
        seq![p]
    } else if !crate::text::lex_lt(p.id, s.last().id) {
        s.push(p)
    } else {
        insert_by_id(s.drop_last(), p).push(s.last())
    }
}

/// The port list sorted ascending by id: each entry inserted in turn.
pub open spec fn sort_by_id(s: Seq<PortView>) -> Seq<PortView>
    decreases s.len(),
{
    if s.len() == 0 {
        Seq::empty()
    } else {
        insert_by_id(sort_by_id(s.drop_last()), s.last())
    }
}

/// Inserts one port into an id-sorted list, keeping the order.
fn insert_port_by_id(v: &mut Vec<PortDefinition>, p: PortDefinition)
    ensures
        final(v).deep_view() == insert_by_id(old(v).deep_view(), p.deep_view()),
{
    let ghost pdv = p.deep_view();
    let ghost orig = old(v).deep_view();
    let ghost n = orig.len() as int;
    let mut tail: Vec<PortDefinition> = Vec::new();
    // Walk entries whose id comes above the new port's off the end.
    loop
        invariant_except_break
            orig == old(v).deep_view(),
            pdv == p.deep_view(),
            n == orig.len(),
            v@.len() + tail@.len() == n,
            v.deep_view() == orig.subrange(0, v@.len() as int),
            forall|k: int|
                0 <= k < tail@.len() ==> (#[trigger] tail@[k]).deep_view() == orig[n - 1 - k],
            insert_by_id(orig, pdv) == insert_by_id(v.deep_view(), pdv) + orig.subrange(
                v@.len() as int,
                n,
            ),
        ensures
            pdv == p.deep_view(),
            n == orig.len(),
            v@.len() + tail@.len() == n,
            v.deep_view() == orig.subrange(0, v@.len() as int),
            forall|k: int|
                0 <= k < tail@.len() ==> (#[trigger] tail@[k]).deep_view() == orig[n - 1 - k],
            insert_by_id(orig, pdv) == insert_by_id(v.deep_view(), pdv) + orig.subrange(
                v@.len() as int,
                n,
            ),
            v@.len() == 0 || !crate::text::lex_lt(pdv.id, v.deep_view().last().id),
        decreases v@.len(),
    {
        if v.len() == 0 {
            break ;
        }
        let ghost m = v@.len() as int;
        proof {
            assert(v.deep_view()[m - 1] == v@[m - 1].deep_view());
            assert(v.deep_view().last() == orig[m - 1]);
        }
        let keep = !crate::text::str_lt(p.id.as_str(), v[v.len() - 1].id.as_str());
        if keep {
            proof {
                assert(!crate::text::lex_lt(pdv.id, v.deep_view().last().id));
            }
            break ;
        }
        proof {
            assert(crate::text::lex_lt(pdv.id, v.deep_view().last().id));
            assert(v.deep_view().drop_last() =~= orig.subrange(0, m - 1));
            assert(insert_by_id(v.deep_view(), pdv) == insert_by_id(
                orig.subrange(0, m - 1),
                pdv,
            ).push(orig[m - 1]));
            assert(insert_by_id(orig.subrange(0, m - 1), pdv).push(orig[m - 1])
                + orig.subrange(m, n) =~= insert_by_id(orig.subrange(0, m - 1), pdv)
                + orig.subrange(m - 1, n));
        }
        let last = match v.pop() {
            Some(x) => x,
            None => {
                return ;
            }
        };
        tail.push(last);
        proof {
            assert(v.deep_view() =~= orig.subrange(0, v@.len() as int));
        }
    }
    let ghost j = v@.len() as int;
    proof {
        if v@.len() == 0 {
            assert(v.deep_view() =~= Seq::<PortView>::empty());
            assert(insert_by_id(v.deep_view(), pdv) =~= seq![pdv]);
            assert(orig.subrange(0, 0).push(pdv) =~= seq![pdv]);
        } else {
            assert(insert_by_id(v.deep_view(), pdv) == v.deep_view().push(pdv));
            assert(v.deep_view().push(pdv) =~= orig.subrange(0, j).push(pdv));
        }
        assert(insert_by_id(orig, pdv) == orig.subrange(0, j).push(pdv) + orig.subrange(j, n));
    }
    v.push(p);
    proof {
        assert(v.deep_view() =~= orig.subrange(0, j).push(pdv));
        assert(v.deep_view() =~= orig.subrange(0, j).push(pdv) + orig.subrange(j, j));
    }
    // Put the walked-off entries back, restoring their order.
    while tail.len() > 0
        invariant
            pdv == p.deep_view(),
            n == orig.len(),
            0 <= j <= n,
            tail@.len() <= n - j,
            forall|k: int|
                0 <= k < tail@.len() ==> (#[trigger] tail@[k]).deep_view() == orig[n - 1 - k],
            v.deep_view() == orig.subrange(0, j).push(pdv) + orig.subrange(
                j,
                n - tail@.len(),
            ),
            insert_by_id(orig, pdv) == orig.subrange(0, j).push(pdv) + orig.subrange(j, n),
        decreases tail@.len(),
    {
        let ghost t = tail@.len() as int;
        let ghost vprev = v.deep_view();
        let x = match tail.pop() {
            Some(x) => x,
            None => {
                return ;
            }
        };
        proof {
            assert(x.deep_view() == orig[n - t]);
        }
        v.push(x);
        proof {
            assert(v.deep_view() =~= vprev.push(orig[n - t]));
            assert(vprev.push(orig[n - t]) =~= orig.subrange(0, j).push(pdv) + orig.subrange(
                j,
                n - t + 1,
            ));
        }
    }
    proof {
        assert(orig.subrange(j, n - 0) == orig.subrange(j, n));
    }
}

impl Block {
    /// Rebuilds the run-time output ports: one per stored output value
    /// whose key the definition does not declare, sorted ascending by
    /// port id so that the rebuilt list is stable, typed after the
    /// value's shape.
    pub fn update_dynamic_outputs(&mut self, definition: &BlockDefinition)
        requires
            block_wf(*old(self)),
        ensures
            block_wf(*final(self)),
            final(self).dynamic_outputs.deep_view() == sort_by_id(spec_dynamic_ports(
                crate::value::entry_views_of(old(self).output_values.list()),
                definition.outputs.deep_view(),
            )),
            *final(self) == (Block {
                dynamic_outputs: final(self).dynamic_outputs,
                ..*old(self)
            }),
    {
        let ghost entry_views = crate::value::entry_views_of(self.output_values.list());
        let ghost outs = definition.outputs.deep_view();
        proof {
            crate::value::lemma_entry_views_of(self.output_values.list());
        }
        let entries = self.output_values.entries();
        let mut fresh: Vec<PortDefinition> = Vec::new();
        let mut i: usize = 0;
        while i < entries.len()
            invariant
                entries@ == old(self).output_values.list(),
                entry_views == crate::value::entry_views_of(entries@),
                entry_views.len() == entries@.len(),
                forall|k: int|
                    0 <= k < entries@.len() ==> entry_views[k] == ((#[trigger] entries@[k]).0@,
                    entries@[k].1.deep_view()),
                outs == definition.outputs.deep_view(),
                i <= entries@.len(),
                fresh.deep_view() =~= spec_dynamic_ports(
                    entry_views.subrange(0, i as int),
                    outs,
                ),
            decreases entries@.len() - i,
        {
            proof {
                assert(entry_views.subrange(0, i + 1).drop_last() =~= entry_views.subrange(
                    0,
                    i as int,
                ));
                assert(entry_views.subrange(0, i + 1).last() == entry_views[i as int]);
            }
            let key = &entries[i].0;
            // Is the key a declared static output?
            let mut is_static = false;
            let mut j: usize = 0;
            while j < definition.outputs.len()
                invariant
                    outs == definition.outputs.deep_view(),
                    outs.len() == definition.outputs@.len(),
                    j <= definition.outputs@.len(),
                    is_static == exists|x: int| 0 <= x < j && (#[trigger] outs[x]).id == key@,
                decreases definition.outputs@.len() - j,
            {
                if crate::text::str_eq(definition.outputs[j].id.as_str(), key.as_str()) {
                    proof {
                        assert(outs[j as int].id == key@);
                    }
                    is_static = true;
                }
                j += 1;
            }
            proof {
                assert(is_static == declares_port(outs, entry_views[i as int].0));
            }
            if !is_static {
                let data_type = match &entries[i].1 {
                    Value::Number(_) => crate::definition::DataType::Number,
                    Value::Text(_) => crate::definition::DataType::Text,
                    Value::Boolean(_) => crate::definition::DataType::Boolean,
                    Value::Array(_) => crate::definition::DataType::Array,
                    _ => crate::definition::DataType::Any,
                };
                let port = PortDefinition {
                    id: key.clone(),
                    name: key.clone(),
                    data_type,
                    default: Value::Nil,
                    description: String::new(),
                    required: false,
                    multiple: false,
                    element_type: None,
                    min: None,
                    max: None,
                };
                proof {
                    assert(port.deep_view() == dynamic_port_view(
                        entry_views[i as int].0,
                        entry_views[i as int].1,
                    ));
                }
                fresh.push(port);
            }
            i += 1;
        }
        proof {
            assert(entry_views.subrange(0, entry_views.len() as int) =~= entry_views);
        }
        // Keep the rebuilt list stable: sort it ascending by port id.
        let mut sorted: Vec<PortDefinition> = Vec::new();
        let mut si: usize = 0;
        while si < fresh.len()
            invariant
                si <= fresh@.len(),
                sorted.deep_view() == sort_by_id(fresh.deep_view().subrange(0, si as int)),
            decreases fresh@.len() - si,
        {
            proof {
                let fv = fresh.deep_view();
                assert(fv.subrange(0, si + 1).drop_last() =~= fv.subrange(0, si as int));
                assert(fv.subrange(0, si + 1).last() == fv[si as int]);
            }
            insert_port_by_id(&mut sorted, fresh[si].clone());
            si += 1;
        }
        proof {
            let fv = fresh.deep_view();
            assert(fv.subrange(0, fv.len() as int) =~= fv);
        }
        self.dynamic_outputs = sorted;
    }

    /// Refreshes the block's size for its definition plus the run-time
    /// output ports.
    pub fn recalculate_size(&mut self, definition: &BlockDefinition)
        requires
            block_wf(*old(self)),
        ensures
            block_wf(*final(self)),
            *final(self) == (Block { size: final(self).size, ..*old(self) }),
            final(self).size.x == crate::definition::spec_width(*definition),
            final(self).size.y == ({
                let ports: int = if definition.inputs@.len() >= definition.outputs@.len() + old(
                    self,
                ).dynamic_outputs@.len() {
                    definition.inputs@.len() as int
                } else {
                    (definition.outputs@.len() + old(self).dynamic_outputs@.len()) as int
                };
                let raw = 2800 + crate::definition::clamped(ports) * 2200;
                if raw >= 6000 {
                    raw
                } else {
                    6000
                }
            }),
    {
        let in_len = self.definition_input_count(definition) as u128;
        let out_total = definition.outputs.len() as u128 + self.dynamic_outputs.len() as u128;
        let ports: u128 = if in_len >= out_total {
            in_len
        } else {
            out_total
        };
        let ports_i: i64 = if ports > 1000000 {
            1000000
        } else {
            ports as i64
        };
        let height = {
            let raw = 2800 + ports_i * 2200;
            if raw >= 6000 {
                raw
            } else {
                6000
            }
        };
        let width = definition.calculate_width();
        self.size = crate::geometry::Vec2::new(width, height);
    }

    /// The count of declared inputs.
    fn definition_input_count(&self, definition: &BlockDefinition) -> (r: u64)
        ensures
            r == definition.inputs@.len(),
    {
        definition.inputs.len() as u64
    }

    /// Snaps the block onto the grid: each coordinate moves to the
    /// nearest multiple of the grid step, ties upward.
    pub fn snap_to_grid(&mut self, grid_size: i64)
        requires
            0 < grid_size <= 0x1_0000_0000,
            -0x1000_0000_0000_0000 <= old(self).position.x <= 0x1000_0000_0000_0000,
            -0x1000_0000_0000_0000 <= old(self).position.y <= 0x1000_0000_0000_0000,
        ensures
            *final(self) == (Block { position: final(self).position, ..*old(self) }),
            final(self).position.x == snapped(old(self).position.x as int, grid_size as int),
            final(self).position.y == snapped(old(self).position.y as int, grid_size as int),
    {
        let x = snap_coord(self.position.x, grid_size);
        let y = snap_coord(self.position.y, grid_size);
        self.position = crate::geometry::Vec2::new(x, y);
    }

    /// Where an input port sits: on the left edge, one row per port
    /// under the header.
    pub fn input_port_position(&self, index: usize) -> (r: crate::geometry::Vec2)
        requires
            index < 0x1000_0000,
            -0x1000_0000_0000_0000 <= self.position.x <= 0x1000_0000_0000_0000,
            -0x1000_0000_0000_0000 <= self.position.y <= 0x1000_0000_0000_0000,
        ensures
            r.x == self.position.x,
            r.y == self.position.y + 3200 + index * 2400 + 1200,
    {
        crate::geometry::Vec2::new(
            self.position.x,
            self.position.y + 3200 + (index as i64) * 2400 + 1200,
        )
    }

    /// Where an output port sits: on the right edge, one row per port
    /// under the header.
    pub fn output_port_position(&self, index: usize) -> (r: crate::geometry::Vec2)
        requires
            index < 0x1000_0000,
            -0x1000_0000_0000_0000 <= self.position.x <= 0x1000_0000_0000_0000,
            -0x1000_0000_0000_0000 <= self.position.y <= 0x1000_0000_0000_0000,
            -0x1000_0000_0000_0000 <= self.size.x <= 0x1000_0000_0000_0000,
        ensures
            r.x == self.position.x + self.size.x,
            r.y == self.position.y + 3200 + index * 2400 + 1200,
    {
        crate::geometry::Vec2::new(
            self.position.x + self.size.x,
            self.position.y + 3200 + (index as i64) * 2400 + 1200,
        )
    }

    /// Every output port: the declared ones, then the run-time ones, as
    /// copies in order.
    pub fn all_outputs(&self, definition: &BlockDefinition) -> (r: Vec<PortDefinition>)
        ensures
            r.deep_view() == definition.outputs.deep_view() + self.dynamic_outputs.deep_view(),
    {
        let mut r: Vec<PortDefinition> = Vec::new();
        let mut i: usize = 0;
        while i < definition.outputs.len()
            invariant
                i <= definition.outputs@.len(),
                r@.len() == i,
                forall|k: int|
                    0 <= k < i ==> (#[trigger] r@[k]).deep_view()
                        == definition.outputs@[k].deep_view(),
            decreases definition.outputs@.len() - i,
        {
            r.push(definition.outputs[i].clone());
            i += 1;
        }
        let mut j: usize = 0;
        while j < self.dynamic_outputs.len()
            invariant
                j <= self.dynamic_outputs@.len(),
                r@.len() == definition.outputs@.len() + j,
                forall|k: int|
                    0 <= k < definition.outputs@.len() ==> (#[trigger] r@[k]).deep_view()
                        == definition.outputs@[k].deep_view(),
                forall|k: int|
                    0 <= k < j ==> (#[trigger] r@[definition.outputs@.len() + k]).deep_view()
                        == self.dynamic_outputs@[k].deep_view(),
            decreases self.dynamic_outputs@.len() - j,
        {
            r.push(self.dynamic_outputs[j].clone());
            j += 1;
        }
        proof {
            let goal = definition.outputs.deep_view() + self.dynamic_outputs.deep_view();
            assert forall|k: int| 0 <= k < r@.len() implies r.deep_view()[k] == goal[k] by {
                if k < definition.outputs@.len() {
                    assert(r@[k].deep_view() == definition.outputs@[k].deep_view());
                } else {
                    let j = k - definition.outputs@.len();
                    assert(r@[definition.outputs@.len() + j].deep_view()
                        == self.dynamic_outputs@[j].deep_view());
                }
            }
            assert(r.deep_view() =~= goal);
        }
        r
    }
}

/// The nearest multiple of the grid step, ties upward.
pub open spec fn snapped(x: int, grid: int) -> int {
    let shifted = x + grid / 2;
    if shifted >= 0 {
        (shifted / grid) * grid
    } else {
        -(((-shifted) + grid - 1) / grid * grid)
    }
}

/// Snaps one coordinate.
fn snap_coord(x: i64, grid: i64) -> (r: i64)
    requires
        0 < grid <= 0x1_0000_0000,
        -0x1000_0000_0000_0000 <= x <= 0x1000_0000_0000_0000,
    ensures
        r == snapped(x as int, grid as int),
{
    let shifted = x + grid / 2;
    if shifted >= 0 {
        let q = (shifted as u64) / (grid as u64);
        proof {
            assert(q == (shifted as int) / (grid as int));
            assert(q * (grid as u64) <= shifted as u64) by (nonlinear_arith)
                requires
                    q == (shifted as int) / (grid as int),
                    grid > 0,
                    shifted >= 0,
            ;
        }
        ((q * (grid as u64)) as i64)
    } else {
        let m = (-shifted) as u64;
        let q = (m + (grid as u64) - 1) / (grid as u64);
        proof {
            assert(q == ((m + (grid as u64) - 1) as int) / (grid as int));
            assert(q * (grid as u64) <= (m as int) + (grid as int) - 1) by (nonlinear_arith)
                requires
                    q == ((m + (grid as u64) - 1) as int) / (grid as int),
                    grid > 0,
                    m >= 0,
            ;
            assert((((-shifted) as int) + grid - 1) / (grid as int) * grid == q * (grid as u64));
        }
        -((q * (grid as u64)) as i64)
    }
}

} // verus!
