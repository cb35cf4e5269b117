//! Script-derived block definitions: immutable descriptions of a block's
//! ports, properties and display metadata.

use vstd::prelude::*;

use crate::value::{Value, ValueView};

verus! {

/// The declared type of a port or property.
#[derive(Debug, Clone, Copy, PartialEq, Eq, Structural)]
pub enum DataType {
    Number,
    Text,
    Boolean,
    Event,
    Array,
    Any,
}

impl Default for DataType {
    /// Ports without a declared type accept anything.
    fn default() -> (r: DataType)
        ensures
            r == DataType::Any,
    {
        DataType::Any
    }
}

/// The interactive widget a block offers on the canvas.
#[derive(Debug, Clone, Copy, PartialEq, Eq, Structural)]
pub enum WidgetType {
    NoWidget,
    TextInput,
    Password,
    TextArea,
    Slider,
    Checkbox,
    Dropdown,
    Button,
}

impl Default for WidgetType {
    /// Plain blocks carry no widget.
    fn default() -> (r: WidgetType)
        ensures
            r == WidgetType::NoWidget,
    {
        WidgetType::NoWidget
    }
}

/// Display metadata of a block definition.
#[derive(Debug, Clone)]
pub struct BlockMeta {
    pub id: String,
    pub name: String,
    pub version: String,
    pub category: String,
    pub description: String,
    pub icon: String,
    pub color: String,
    pub widget: WidgetType,
    pub placeholder: String,
    pub options: Vec<String>,
    /// Hidden in preview mode while connected.
    pub hideable: bool,
}

/// A port of a block definition. `min` and `max` carry IEEE 754 bit
/// patterns, as numbers do in [`Value`].
#[derive(Debug)]
pub struct PortDefinition {
    pub id: String,
    pub name: String,
    pub data_type: DataType,
    pub default: Value,
    pub description: String,
    pub required: bool,
    pub multiple: bool,
    pub element_type: Option<DataType>,
    pub min: Option<u64>,
    pub max: Option<u64>,
}


impl Clone for PortDefinition {
    /// Copy; it models the same port.
    fn clone(&self) -> (r: PortDefinition)
        ensures
            r.deep_view() == self.deep_view(),
    {
        PortDefinition {
            id: self.id.clone(),
            name: self.name.clone(),
            data_type: self.data_type,
            default: self.default.clone(),
            description: self.description.clone(),
            required: self.required,
            multiple: self.multiple,
            element_type: self.element_type,
            min: self.min,
            max: self.max,
        }
    }
}

/// A property of a block definition.
#[derive(Debug, Clone)]
pub struct PropertyDefinition {
    pub id: String,
    pub name: String,
    pub data_type: DataType,
    pub default: Value,
    pub description: String,
    pub min: Option<u64>,
    pub max: Option<u64>,
}

/// A complete block definition as parsed from a script.
#[derive(Debug, Clone)]
pub struct BlockDefinition {
    pub meta: BlockMeta,
    pub inputs: Vec<PortDefinition>,
    pub outputs: Vec<PortDefinition>,
    pub properties: Vec<PropertyDefinition>,
    pub script_path: String,
}

/// The mathematical model of a port definition.
pub struct PortView {
    pub id: Seq<char>,
    pub name: Seq<char>,
    pub data_type: DataType,
    pub default: ValueView,
    pub description: Seq<char>,
    pub required: bool,
    pub multiple: bool,
    pub element_type: Option<DataType>,
    pub min: Option<u64>,
    pub max: Option<u64>,
}

impl DeepView for PortDefinition {
    type V = PortView;

    open spec fn deep_view(&self) -> PortView {
        PortView {
            id: self.id@,
            name: self.name@,
            data_type: self.data_type,
            default: self.default.deep_view(),
            description: self.description@,
            required: self.required,
            multiple: self.multiple,
            element_type: self.element_type,
            min: self.min,
            max: self.max,
        }
    }
}

/// The mathematical model of a property definition.
pub struct PropertyView {
    pub id: Seq<char>,
    pub name: Seq<char>,
    pub data_type: DataType,
    pub default: ValueView,
    pub description: Seq<char>,
    pub min: Option<u64>,
    pub max: Option<u64>,
}

impl DeepView for PropertyDefinition {
    type V = PropertyView;

    open spec fn deep_view(&self) -> PropertyView {
        PropertyView {
            id: self.id@,
            name: self.name@,
            data_type: self.data_type,
            default: self.default.deep_view(),
            description: self.description@,
            min: self.min,
            max: self.max,
        }
    }
}

/// The mathematical model of block metadata.
pub struct MetaView {
    pub id: Seq<char>,
    pub name: Seq<char>,
    pub version: Seq<char>,
    pub category: Seq<char>,
    pub description: Seq<char>,
    pub icon: Seq<char>,
    pub color: Seq<char>,
    pub widget: WidgetType,
    pub placeholder: Seq<char>,
    pub options: Seq<Seq<char>>,
    pub hideable: bool,
}

impl DeepView for BlockMeta {
    type V = MetaView;

    open spec fn deep_view(&self) -> MetaView {
        MetaView {
            id: self.id@,
            name: self.name@,
            version: self.version@,
            category: self.category@,
            description: self.description@,
            icon: self.icon@,
            color: self.color@,
            widget: self.widget,
            placeholder: self.placeholder@,
            options: self.options.deep_view(),
            hideable: self.hideable,
        }
    }
}

/// The mathematical model of a block definition.
pub struct DefinitionView {
    pub meta: MetaView,
    pub inputs: Seq<PortView>,
    pub outputs: Seq<PortView>,
    pub properties: Seq<PropertyView>,
    pub script_path: Seq<char>,
}

impl DeepView for BlockDefinition {
    type V = DefinitionView;

    open spec fn deep_view(&self) -> DefinitionView {
        DefinitionView {
            meta: self.meta.deep_view(),
            inputs: self.inputs.deep_view(),
            outputs: self.outputs.deep_view(),
            properties: self.properties.deep_view(),
            script_path: self.script_path@,
        }
    }
}

/// Clamp of a count to the generous layout bound, so that display
/// arithmetic stays exact.
pub open spec fn clamped(n: int) -> int {
    if n > 1000000 {
        1000000
    } else {
        n
    }
}

/// The display height a definition asks for, in hundredths of a unit:
/// a header, one row per port, a strip when properties exist, and a floor.
pub open spec fn spec_height(d: BlockDefinition) -> int {
    let ports = if d.inputs@.len() >= d.outputs@.len() {
        d.inputs@.len() as int
    } else {
        d.outputs@.len() as int
    };
    let strip: int = if d.properties@.len() == 0 {
        0
    } else {
        800
    };
    let raw = 2800 + clamped(ports) * 2200 + strip;
    if raw >= 6000 {
        raw
    } else {
        6000
    }
}

/// The longest port name in a list, clamped.
pub open spec fn spec_longest_name(ports: Seq<PortDefinition>) -> int
    decreases ports.len(),
{
    if ports.len() == 0 {
        0
    } else {
        let rest = spec_longest_name(ports.drop_last());
        let last = clamped(ports.last().name@.len() as int);
        if last >= rest {
            last
        } else {
            rest
        }
    }
}

/// The display width a definition asks for, in hundredths of a unit: the
/// largest of a base width, the title width and the port-name width.
pub open spec fn spec_width(d: BlockDefinition) -> int {
    let name_w = clamped(d.meta.name@.len() as int) * 1000 + 2000;
    let port_w = (spec_longest_name(d.inputs@) + spec_longest_name(d.outputs@)) * 700 + 6000;
    let base: int = 14000;
    let m = if name_w >= base {
        name_w
    } else {
        base
    };
    if port_w >= m {
        port_w
    } else {
        m
    }
}

fn longest_name(ports: &Vec<PortDefinition>) -> (r: i64)
    ensures
        r == spec_longest_name(ports@),
        0 <= r <= 1000000,
{
    let mut best: i64 = 0;
    let mut i: usize = 0;
    while i < ports.len()
        invariant
            i <= ports@.len(),
            best == spec_longest_name(ports@.subrange(0, i as int)),
            0 <= best <= 1000000,
        decreases ports@.len() - i,
    {
        let len = ports[i].name.as_str().unicode_len();
        let cur: i64 = if len > 1000000 {
            1000000
        } else {
            len as i64
        };
        if cur > best {
            best = cur;
        }
        proof {
            assert(ports@.subrange(0, i + 1).drop_last() =~= ports@.subrange(0, i as int));
            assert(ports@.subrange(0, i + 1).last() == ports@[i as int]);
        }
        i += 1;
    }
    proof {
        assert(ports@.subrange(0, ports@.len() as int) =~= ports@);
    }
    best
}

impl BlockDefinition {
    /// The display height this definition asks for.
    pub fn calculate_height(&self) -> (r: i64)
        ensures
            r == spec_height(*self),
    {
        let in_len = self.inputs.len();
        let out_len = self.outputs.len();
        let ports = if in_len >= out_len {
            in_len
        } else {
            out_len
        };
        let ports_i: i64 = if ports > 1000000 {
            1000000
        } else {
            ports as i64
        };
        let strip: i64 = if self.properties.len() == 0 {
            0
        } else {
            800
        };
        let raw = 2800 + ports_i * 2200 + strip;
        if raw >= 6000 {
            raw
        } else {
            6000
        }
    }

    /// The display width this definition asks for.
    pub fn calculate_width(&self) -> (r: i64)
        ensures
            r == spec_width(*self),
    {
        let name_len = self.meta.name.as_str().unicode_len();
        let name_c: i64 = if name_len > 1000000 {
            1000000
        } else {
            name_len as i64
        };
        let name_w = name_c * 1000 + 2000;
        let port_w = (longest_name(&self.inputs) + longest_name(&self.outputs)) * 700 + 6000;
        let base: i64 = 14000;
        let m = if name_w >= base {
            name_w
        } else {
            base
        };
        if port_w >= m {
            port_w
        } else {
            m
        }
    }
}

} // verus!
