//! The block-definition parser: from an evaluated script's table to a
//! [`BlockDefinition`].
//!
//! The host runtime evaluates a script to a table and hands it over as
//! plain data; everything read out of it — metadata, port lists,
//! property lists — is decided here.

use vstd::prelude::*;
use vstd::string::StringSliceAdditionalSpecFns;

use crate::definition::{
    BlockDefinition, BlockMeta, DataType, PortDefinition, PropertyDefinition, WidgetType,
};
use crate::marshal::{LuaData, LuaDataView, LuaKey, LuaKeyView, from_lua_data};
use crate::text::{ascii_eq_ignore_case, str_eq, str_eq_ignore_ascii_case};
use crate::value::Value;

verus! {

/// Why parsing a definition failed.
#[derive(Debug, Clone, Copy, PartialEq, Eq, Structural)]
pub enum ParseError {
    /// The script did not evaluate to a table.
    NotTable,
    /// The table has no `meta` table.
    MissingMeta,
    /// The metadata has no string `id`.
    MissingId,
    /// The metadata has no string `name`.
    MissingName,
    /// A port entry is not a table.
    PortNotTable,
    /// A port has no string `id`.
    PortMissingId,
    /// A port has no string `name`.
    PortMissingName,
}

/// The first entry of a table carrying a string key, front to back.
pub open spec fn spec_get(
    entries: Seq<(LuaKeyView, LuaDataView)>,
    key: Seq<char>,
) -> Option<LuaDataView>
    decreases entries.len(),
{
    if entries.len() == 0 {
        None
    } else if entries[0].0 == LuaKeyView::Str(key) {
        Some(entries[0].1)
    } else {
        spec_get(entries.drop_first(), key)
    }
}

/// The string value of a field, when it is a string.
pub open spec fn spec_get_str(
    entries: Seq<(LuaKeyView, LuaDataView)>,
    key: Seq<char>,
) -> Option<Seq<char>> {
    match spec_get(entries, key) {
        Some(LuaDataView::Str(s)) => Some(s),
        _ => None,
    }
}

/// The boolean value of a field, or a default.
pub open spec fn spec_get_bool(
    entries: Seq<(LuaKeyView, LuaDataView)>,
    key: Seq<char>,
    default: bool,
) -> bool {
    match spec_get(entries, key) {
        Some(LuaDataView::Boolean(b)) => b,
        _ => default,
    }
}

/// The numeric value of a field as double bits, when it is a number.
pub open spec fn spec_get_num(
    entries: Seq<(LuaKeyView, LuaDataView)>,
    key: Seq<char>,
) -> Option<u64> {
    match spec_get(entries, key) {
        Some(LuaDataView::Number(n)) => Some(n),
        _ => None,
    }
}

/// The port a table entry denotes: `id` and `name` are required
/// strings; type, default, description, flags and bounds are optional
/// with defaults.
pub open spec fn spec_parse_port(d: LuaDataView) -> Result<
    crate::definition::PortView,
    ParseError,
> {
    match d {
        LuaDataView::Table(ev) => {
            if spec_get_str(ev, "id"@) is None {
                Err(ParseError::PortMissingId)
            } else if spec_get_str(ev, "name"@) is None {
                Err(ParseError::PortMissingName)
            } else {
                Ok(
                    crate::definition::PortView {
                        id: spec_get_str(ev, "id"@)->Some_0,
                        name: spec_get_str(ev, "name"@)->Some_0,
                        data_type: (match spec_get(ev, "type"@) {
                            Some(LuaDataView::Str(s)) => spec_parse_data_type(
                                vstd::utf8::encode_utf8(s),
                            ),
                            _ => DataType::Any,
                        }),
                        default: (match spec_get(ev, "default"@) {
                            Some(dv) => crate::marshal::spec_decode(dv),
                            None => crate::value::ValueView::Nil,
                        }),
                        description: (match spec_get_str(ev, "description"@) {
                            Some(s) => s,
                            None => Seq::<char>::empty(),
                        }),
                        required: spec_get_bool(ev, "required"@, false),
                        multiple: spec_get_bool(ev, "multiple"@, false),
                        element_type: (match spec_get_str(ev, "element_type"@) {
                            Some(s) => Some(spec_parse_data_type(vstd::utf8::encode_utf8(s))),
                            None => None::<DataType>,
                        }),
                        min: spec_get_num(ev, "min"@),
                        max: spec_get_num(ev, "max"@),
                    },
                )
            }
        },
        _ => Err(ParseError::PortNotTable),
    }
}

/// The property a table entry denotes; a port without the flags.
pub open spec fn spec_parse_property(d: LuaDataView) -> Result<
    crate::definition::PropertyView,
    ParseError,
> {
    match d {
        LuaDataView::Table(ev) => {
            if spec_get_str(ev, "id"@) is None {
                Err(ParseError::PortMissingId)
            } else if spec_get_str(ev, "name"@) is None {
                Err(ParseError::PortMissingName)
            } else {
                Ok(
                    crate::definition::PropertyView {
                        id: spec_get_str(ev, "id"@)->Some_0,
                        name: spec_get_str(ev, "name"@)->Some_0,
                        data_type: (match spec_get(ev, "type"@) {
                            Some(LuaDataView::Str(s)) => spec_parse_data_type(
                                vstd::utf8::encode_utf8(s),
                            ),
                            _ => DataType::Any,
                        }),
                        default: (match spec_get(ev, "default"@) {
                            Some(dv) => crate::marshal::spec_decode(dv),
                            None => crate::value::ValueView::Nil,
                        }),
                        description: (match spec_get_str(ev, "description"@) {
                            Some(s) => s,
                            None => Seq::<char>::empty(),
                        }),
                        min: spec_get_num(ev, "min"@),
                        max: spec_get_num(ev, "max"@),
                    },
                )
            }
        },
        _ => Err(ParseError::PortNotTable),
    }
}

/// Whether every entry of a port-list field parses. A missing or
/// non-table field stands for an empty list and always does.
pub open spec fn spec_port_list_ok(entries: Seq<(LuaKeyView, LuaDataView)>, key: Seq<char>) -> bool {
    match spec_get(entries, key) {
        Some(LuaDataView::Table(list)) => forall|j: int|
            0 <= j < list.len() ==> (#[trigger] spec_parse_port(list[j].1)) is Ok,
        _ => true,
    }
}

/// The ports a port-list field denotes: the pointwise parse results;
/// empty when the field is missing or not a table.
pub open spec fn spec_port_list(
    entries: Seq<(LuaKeyView, LuaDataView)>,
    key: Seq<char>,
) -> Seq<crate::definition::PortView> {
    match spec_get(entries, key) {
        Some(LuaDataView::Table(list)) => Seq::new(
            list.len(),
            |j: int| spec_parse_port(list[j].1)->Ok_0,
        ),
        _ => Seq::empty(),
    }
}

/// Whether some entry of a port-list field fails with this error.
pub open spec fn spec_port_list_fails(
    entries: Seq<(LuaKeyView, LuaDataView)>,
    key: Seq<char>,
    e: ParseError,
) -> bool {
    spec_get(entries, key) matches Some(LuaDataView::Table(list)) && exists|j: int|
        0 <= j < list.len() && spec_parse_port(#[trigger] list[j].1) == Err::<
            crate::definition::PortView,
            ParseError,
        >(e)
}

/// Whether every entry of the property field parses, as for ports.
pub open spec fn spec_property_list_ok(entries: Seq<(LuaKeyView, LuaDataView)>) -> bool {
    match spec_get(entries, "properties"@) {
        Some(LuaDataView::Table(list)) => forall|j: int|
            0 <= j < list.len() ==> (#[trigger] spec_parse_property(list[j].1)) is Ok,
        _ => true,
    }
}

/// The properties the property field denotes, as for ports.
pub open spec fn spec_property_list(
    entries: Seq<(LuaKeyView, LuaDataView)>,
) -> Seq<crate::definition::PropertyView> {
    match spec_get(entries, "properties"@) {
        Some(LuaDataView::Table(list)) => Seq::new(
            list.len(),
            |j: int| spec_parse_property(list[j].1)->Ok_0,
        ),
        _ => Seq::empty(),
    }
}

/// Whether some entry of the property field fails with this error.
pub open spec fn spec_property_list_fails(
    entries: Seq<(LuaKeyView, LuaDataView)>,
    e: ParseError,
) -> bool {
    spec_get(entries, "properties"@) matches Some(LuaDataView::Table(list)) && exists|j: int|
        0 <= j < list.len() && spec_parse_property(#[trigger] list[j].1) == Err::<
            crate::definition::PropertyView,
            ParseError,
        >(e)
}

/// The fields a parsed metadata block owes its table: `id` and `name`
/// as found, the rest defaulted when absent.
pub open spec fn spec_meta_fields(
    mev: Seq<(LuaKeyView, LuaDataView)>,
    default_category: Seq<char>,
    m: BlockMeta,
) -> bool {
    &&& m.id@ == spec_get_str(mev, "id"@)->Some_0
    &&& m.name@ == spec_get_str(mev, "name"@)->Some_0
    &&& m.version@ == (match spec_get_str(mev, "version"@) {
        Some(s) => s,
        None => "1.0.0"@,
    })
    &&& m.category@ == (match spec_get_str(mev, "category"@) {
        Some(s) => s,
        None => default_category,
    })
    &&& m.description@ == (match spec_get_str(mev, "description"@) {
        Some(s) => s,
        None => Seq::<char>::empty(),
    })
    &&& m.icon@ == (match spec_get_str(mev, "icon"@) {
        Some(s) => s,
        None => Seq::<char>::empty(),
    })
    &&& m.color@ == (match spec_get_str(mev, "color"@) {
        Some(s) => s,
        None => "#607D8B"@,
    })
    &&& m.widget == (match spec_get_str(mev, "widget"@) {
        Some(s) => spec_parse_widget(vstd::utf8::encode_utf8(s)),
        None => WidgetType::NoWidget,
    })
    &&& m.placeholder@ == (match spec_get_str(mev, "placeholder"@) {
        Some(s) => s,
        None => Seq::<char>::empty(),
    })
    &&& m.hideable == spec_get_bool(mev, "hideable"@, false)
}

/// Looks a string key up in a table, front to back.
fn table_get<'a>(entries: &'a Vec<(LuaKey, LuaData)>, key: &str) -> (r: Option<&'a LuaData>)
    ensures
        match r {
            Some(v) => spec_get(crate::marshal::lua_entry_views_of(entries@), key@) == Some(
                v.deep_view(),
            ),
            None => spec_get(crate::marshal::lua_entry_views_of(entries@), key@) is None,
        },
{
    let ghost ev = crate::marshal::lua_entry_views_of(entries@);
    proof {
        crate::marshal::lemma_lua_entry_views_of(entries@);
    }
    let mut i: usize = 0;
    proof {
        assert(ev.skip(0) =~= ev);
    }
    while i < entries.len()
        invariant
            ev == crate::marshal::lua_entry_views_of(entries@),
            ev.len() == entries@.len(),
            forall|k: int|
                0 <= k < entries@.len() ==> ev[k] == ((#[trigger] entries@[k]).0.deep_view(),
                crate::marshal::lua_view_of(entries@[k].1)),
            i <= entries@.len(),
            spec_get(ev, key@) == spec_get(ev.skip(i as int), key@),
            forall|k: int| 0 <= k < i ==> ev[k].0 != LuaKeyView::Str(key@),
        decreases entries@.len() - i,
    {
        proof {
            assert(ev.skip(i as int)[0] == ev[i as int]);
            assert(ev.skip(i as int).drop_first() =~= ev.skip(i + 1));
        }
        let hit = match &entries[i].0 {
            LuaKey::Str(s) => str_eq(s.as_str(), key),
            LuaKey::Int(_) => false,
        };
        proof {
            assert(hit == (ev[i as int].0 == LuaKeyView::Str(key@)));
        }
        if hit {
            return Some(&entries[i].1);
        }
        i += 1;
    }
    proof {
        assert(ev.skip(ev.len() as int) =~= Seq::<(LuaKeyView, LuaDataView)>::empty());
    }
    None
}

/// Reads a string field as an owned string.
fn get_str(entries: &Vec<(LuaKey, LuaData)>, key: &str) -> (r: Option<String>)
    ensures
        match r {
            Some(s) => spec_get_str(crate::marshal::lua_entry_views_of(entries@), key@) == Some(
                s@,
            ),
            None => spec_get_str(crate::marshal::lua_entry_views_of(entries@), key@) is None,
        },
{
    match table_get(entries, key) {
        Some(LuaData::Str(s)) => Some(s.clone()),
        _ => None,
    }
}

/// Reads a string field, falling back to a default.
fn get_str_or(entries: &Vec<(LuaKey, LuaData)>, key: &str, default: &str) -> (r: String)
    ensures
        r@ == (match spec_get_str(crate::marshal::lua_entry_views_of(entries@), key@) {
            Some(s) => s,
            None => default@,
        }),
{
    match get_str(entries, key) {
        Some(s) => s,
        None => default.to_owned(),
    }
}

/// Reads a boolean field, falling back to a default.
fn get_bool_or(entries: &Vec<(LuaKey, LuaData)>, key: &str, default: bool) -> (r: bool)
    ensures
        r == spec_get_bool(crate::marshal::lua_entry_views_of(entries@), key@, default),
{
    match table_get(entries, key) {
        Some(LuaData::Boolean(b)) => *b,
        _ => default,
    }
}

/// Reads a numeric field as double bits.
fn get_num(entries: &Vec<(LuaKey, LuaData)>, key: &str) -> (r: Option<u64>)
    ensures
        r == spec_get_num(crate::marshal::lua_entry_views_of(entries@), key@),
{
    match table_get(entries, key) {
        Some(LuaData::Number(n)) => Some(*n),
        _ => None,
    }
}

/// The declared type a name denotes, up to ASCII case: number, string,
/// boolean (or bool), event, array; anything else is any.
pub open spec fn spec_parse_data_type(s: Seq<u8>) -> DataType {
    if ascii_eq_ignore_case(s, "number".spec_bytes()) {
        DataType::Number
    } else if ascii_eq_ignore_case(s, "string".spec_bytes()) {
        DataType::Text
    } else if ascii_eq_ignore_case(s, "boolean".spec_bytes()) || ascii_eq_ignore_case(
        s,
        "bool".spec_bytes(),
    ) {
        DataType::Boolean
    } else if ascii_eq_ignore_case(s, "event".spec_bytes()) {
        DataType::Event
    } else if ascii_eq_ignore_case(s, "array".spec_bytes()) {
        DataType::Array
    } else {
        DataType::Any
    }
}

/// Reads a type name.
pub fn parse_data_type(s: &str) -> (r: DataType)
    ensures
        r == spec_parse_data_type(s.spec_bytes()),
{
    if str_eq_ignore_ascii_case(s, "number") {
        DataType::Number
    } else if str_eq_ignore_ascii_case(s, "string") {
        DataType::Text
    } else if str_eq_ignore_ascii_case(s, "boolean") || str_eq_ignore_ascii_case(s, "bool") {
        DataType::Boolean
    } else if str_eq_ignore_ascii_case(s, "event") {
        DataType::Event
    } else if str_eq_ignore_ascii_case(s, "array") {
        DataType::Array
    } else {
        DataType::Any
    }
}

/// The widget a name denotes, up to ASCII case.
pub open spec fn spec_parse_widget(s: Seq<u8>) -> WidgetType {
    if ascii_eq_ignore_case(s, "textinput".spec_bytes()) || ascii_eq_ignore_case(
        s,
        "text_input".spec_bytes(),
    ) || ascii_eq_ignore_case(s, "input".spec_bytes()) {
        WidgetType::TextInput
    } else if ascii_eq_ignore_case(s, "password".spec_bytes()) {
        WidgetType::Password
    } else if ascii_eq_ignore_case(s, "textarea".spec_bytes()) || ascii_eq_ignore_case(
        s,
        "text_area".spec_bytes(),
    ) {
        WidgetType::TextArea
    } else if ascii_eq_ignore_case(s, "slider".spec_bytes()) {
        WidgetType::Slider
    } else if ascii_eq_ignore_case(s, "checkbox".spec_bytes()) {
        WidgetType::Checkbox
    } else if ascii_eq_ignore_case(s, "dropdown".spec_bytes()) || ascii_eq_ignore_case(
        s,
        "select".spec_bytes(),
    ) {
        WidgetType::Dropdown
    } else if ascii_eq_ignore_case(s, "button".spec_bytes()) {
        WidgetType::Button
    } else {
        WidgetType::NoWidget
    }
}

/// Reads a widget name.
pub fn parse_widget(s: &str) -> (r: WidgetType)
    ensures
        r == spec_parse_widget(s.spec_bytes()),
{
    if str_eq_ignore_ascii_case(s, "textinput") || str_eq_ignore_ascii_case(s, "text_input")
        || str_eq_ignore_ascii_case(s, "input") {
        WidgetType::TextInput
    } else if str_eq_ignore_ascii_case(s, "password") {
        WidgetType::Password
    } else if str_eq_ignore_ascii_case(s, "textarea") || str_eq_ignore_ascii_case(
        s,
        "text_area",
    ) {
        WidgetType::TextArea
    } else if str_eq_ignore_ascii_case(s, "slider") {
        WidgetType::Slider
    } else if str_eq_ignore_ascii_case(s, "checkbox") {
        WidgetType::Checkbox
    } else if str_eq_ignore_ascii_case(s, "dropdown") || str_eq_ignore_ascii_case(s, "select") {
        WidgetType::Dropdown
    } else if str_eq_ignore_ascii_case(s, "button") {
        WidgetType::Button
    } else {
        WidgetType::NoWidget
    }
}

/// The definition parser.
#[derive(Debug)]
pub struct ScriptParser;

impl ScriptParser {
    /// Reads one port entry: `id` and `name` are required strings; type,
    /// default, description, flags and bounds are optional.
    pub fn parse_port(entry: &LuaData) -> (r: Result<PortDefinition, ParseError>)
        ensures
            (match spec_parse_port(entry.deep_view()) {
                Ok(pv) => r matches Ok(p) && p.deep_view() == pv,
                Err(e) => r == Err::<PortDefinition, ParseError>(e),
            }),
    {
        let t = match entry {
            LuaData::Table(t) => t,
            _ => {
                return Err(ParseError::PortNotTable);
            }
        };
        let id = match get_str(t, "id") {
            Some(s) => s,
            None => {
                return Err(ParseError::PortMissingId);
            }
        };
        let name = match get_str(t, "name") {
            Some(s) => s,
            None => {
                return Err(ParseError::PortMissingName);
            }
        };
        let data_type = match get_str(t, "type") {
            Some(s) => {
                proof {
                    vstd::utf8::encode_utf8_decode_utf8(s@);
                }
                parse_data_type(s.as_str())
            }
            None => DataType::Any,
        };
        let default = match table_get(t, "default") {
            Some(d) => from_lua_data(d),
            None => Value::Nil,
        };
        let description = get_str_or(t, "description", "");
        let required = get_bool_or(t, "required", false);
        let multiple = get_bool_or(t, "multiple", false);
        let element_type = match get_str(t, "element_type") {
            Some(s) => {
                proof {
                    vstd::utf8::encode_utf8_decode_utf8(s@);
                }
                Some(parse_data_type(s.as_str()))
            }
            None => None,
        };
        let min = get_num(t, "min");
        let max = get_num(t, "max");
        proof {
            reveal_strlit("");
        }
        let out = PortDefinition {
            id,
            name,
            data_type,
            default,
            description,
            required,
            multiple,
            element_type,
            min,
            max,
        };
        proof {
            let ev = crate::marshal::lua_entry_views_of(t@);
            assert(entry.deep_view() == LuaDataView::Table(ev));
            let sp = spec_parse_port(LuaDataView::Table(ev));
            assert(sp is Ok);
            let pv = sp->Ok_0;
            assert(out.deep_view().id == pv.id);
            assert(out.deep_view().name == pv.name);
            assert(out.deep_view().data_type == pv.data_type);
            assert(out.deep_view().default == pv.default);
            assert(out.deep_view().description == pv.description);
            assert(out.deep_view().required == pv.required);
            assert(out.deep_view().multiple == pv.multiple);
            assert(out.deep_view().element_type == pv.element_type);
            assert(out.deep_view().min == pv.min);
            assert(out.deep_view().max == pv.max);
            assert(out.deep_view() == pv);
        }
        Ok(out)
    }

    /// Reads one property entry; the same fields as a port, less the
    /// flags.
    pub fn parse_property(entry: &LuaData) -> (r: Result<PropertyDefinition, ParseError>)
        ensures
            (match spec_parse_property(entry.deep_view()) {
                Ok(pv) => r matches Ok(p) && p.deep_view() == pv,
                Err(e) => r == Err::<PropertyDefinition, ParseError>(e),
            }),
    {
        let t = match entry {
            LuaData::Table(t) => t,
            _ => {
                return Err(ParseError::PortNotTable);
            }
        };
        let id = match get_str(t, "id") {
            Some(s) => s,
            None => {
                return Err(ParseError::PortMissingId);
            }
        };
        let name = match get_str(t, "name") {
            Some(s) => s,
            None => {
                return Err(ParseError::PortMissingName);
            }
        };
        let data_type = match get_str(t, "type") {
            Some(s) => {
                proof {
                    vstd::utf8::encode_utf8_decode_utf8(s@);
                }
                parse_data_type(s.as_str())
            }
            None => DataType::Any,
        };
        let default = match table_get(t, "default") {
            Some(d) => from_lua_data(d),
            None => Value::Nil,
        };
        let description = get_str_or(t, "description", "");
        let min = get_num(t, "min");
        let max = get_num(t, "max");
        proof {
            reveal_strlit("");
        }
        let out = PropertyDefinition { id, name, data_type, default, description, min, max };
        proof {
            let ev = crate::marshal::lua_entry_views_of(t@);
            assert(entry.deep_view() == LuaDataView::Table(ev));
            let sp = spec_parse_property(LuaDataView::Table(ev));
            assert(sp is Ok);
            let pv = sp->Ok_0;
            assert(out.deep_view().id == pv.id);
            assert(out.deep_view().name == pv.name);
            assert(out.deep_view().data_type == pv.data_type);
            assert(out.deep_view().default == pv.default);
            assert(out.deep_view().description == pv.description);
            assert(out.deep_view().min == pv.min);
            assert(out.deep_view().max == pv.max);
            assert(out.deep_view() == pv);
        }
        Ok(out)
    }

    /// Reads the metadata table: `id` and `name` are required strings;
    /// version, category, description, icon, color, widget, placeholder,
    /// options and the hideable flag are optional with defaults. The
    /// category falls back to the given one, derived from the script's
    /// location.
    pub fn parse_meta(meta: &Vec<(LuaKey, LuaData)>, default_category: &str) -> (r: Result<
        BlockMeta,
        ParseError,
    >)
        ensures
            ({
                let ev = crate::marshal::lua_entry_views_of(meta@);
                if spec_get_str(ev, "id"@) is None {
                    r == Err::<BlockMeta, ParseError>(ParseError::MissingId)
                } else if spec_get_str(ev, "name"@) is None {
                    r == Err::<BlockMeta, ParseError>(ParseError::MissingName)
                } else {
                    r matches Ok(m) && spec_meta_fields(ev, default_category@, m)
                }
            }),
    {
        let id = match get_str(meta, "id") {
            Some(s) => s,
            None => {
                return Err(ParseError::MissingId);
            }
        };
        let name = match get_str(meta, "name") {
            Some(s) => s,
            None => {
                return Err(ParseError::MissingName);
            }
        };
        let version = get_str_or(meta, "version", "1.0.0");
        let category = get_str_or(meta, "category", default_category);
        let description = get_str_or(meta, "description", "");
        let icon = get_str_or(meta, "icon", "");
        let color = get_str_or(meta, "color", "#607D8B");
        let widget = match get_str(meta, "widget") {
            Some(s) => {
                proof {
                    vstd::utf8::encode_utf8_decode_utf8(s@);
                }
                parse_widget(s.as_str())
            }
            None => WidgetType::NoWidget,
        };
        let placeholder = get_str_or(meta, "placeholder", "");
        let options = match table_get(meta, "options") {
            Some(LuaData::Table(opts)) => collect_strings(opts),
            _ => Vec::new(),
        };
        let hideable = get_bool_or(meta, "hideable", false);
        proof {
            reveal_strlit("");
        }
        let m = BlockMeta {
            id,
            name,
            version,
            category,
            description,
            icon,
            color,
            widget,
            placeholder,
            options,
            hideable,
        };
        proof {
            let ev = crate::marshal::lua_entry_views_of(meta@);
            assert(m.id@ == spec_get_str(ev, "id"@)->Some_0);
            assert(m.name@ == spec_get_str(ev, "name"@)->Some_0);
            assert(m.version@ == (match spec_get_str(ev, "version"@) {
                Some(s) => s,
                None => "1.0.0"@,
            }));
            assert(m.category@ == (match spec_get_str(ev, "category"@) {
                Some(s) => s,
                None => default_category@,
            }));
            assert(m.widget == (match spec_get_str(ev, "widget"@) {
                Some(s) => spec_parse_widget(vstd::utf8::encode_utf8(s)),
                None => WidgetType::NoWidget,
            }));
            assert(m.hideable == spec_get_bool(ev, "hideable"@, false));
            assert(m.description@ == (match spec_get_str(ev, "description"@) {
                Some(s) => s,
                None => Seq::<char>::empty(),
            }));
            assert(m.icon@ == (match spec_get_str(ev, "icon"@) {
                Some(s) => s,
                None => Seq::<char>::empty(),
            }));
            assert(m.color@ == (match spec_get_str(ev, "color"@) {
                Some(s) => s,
                None => "#607D8B"@,
            }));
            assert(m.placeholder@ == (match spec_get_str(ev, "placeholder"@) {
                Some(s) => s,
                None => Seq::<char>::empty(),
            }));
            assert(spec_meta_fields(ev, default_category@, m));
        }
        Ok(m)
    }

    /// Reads a port list field: each entry's value in order. A malformed
    /// entry fails the whole definition; a missing or non-table field is
    /// an empty list.
    pub fn parse_ports(table: &Vec<(LuaKey, LuaData)>, key: &str) -> (r: Result<
        Vec<PortDefinition>,
        ParseError,
    >)
        ensures
            (match spec_get(crate::marshal::lua_entry_views_of(table@), key@) {
                Some(LuaDataView::Table(list)) => (match r {
                    Ok(v) => v@.len() == list.len() && forall|j: int|
                        0 <= j < list.len() ==> (spec_parse_port(list[j].1) matches Ok(pv) && (
                        #[trigger] v@[j]).deep_view() == pv),
                    Err(e) => exists|j: int|
                        0 <= j < list.len() && spec_parse_port(#[trigger] list[j].1) == Err::<
                            crate::definition::PortView,
                            ParseError,
                        >(e),
                }),
                _ => r matches Ok(v) && v@.len() == 0,
            }),
    {
        let list = match table_get(table, key) {
            Some(LuaData::Table(entries)) => entries,
            _ => {
                return Ok(Vec::new());
            }
        };
        let ghost lv = crate::marshal::lua_entry_views_of(list@);
        proof {
            crate::marshal::lemma_lua_entry_views_of(list@);
            assert(spec_get(crate::marshal::lua_entry_views_of(table@), key@) == Some(
                LuaDataView::Table(lv),
            ));
        }
        let mut out: Vec<PortDefinition> = Vec::new();
        let mut i: usize = 0;
        while i < list.len()
            invariant
                spec_get(crate::marshal::lua_entry_views_of(table@), key@) == Some(
                    LuaDataView::Table(lv),
                ),
                lv == crate::marshal::lua_entry_views_of(list@),
                lv.len() == list@.len(),
                forall|k: int|
                    0 <= k < list@.len() ==> lv[k] == ((#[trigger] list@[k]).0.deep_view(),
                    crate::marshal::lua_view_of(list@[k].1)),
                i <= list@.len(),
                out@.len() == i,
                forall|j: int|
                    0 <= j < i ==> (spec_parse_port(lv[j].1) matches Ok(pv) && (
                    #[trigger] out@[j]).deep_view() == pv),
            decreases list@.len() - i,
        {
            match Self::parse_port(&list[i].1) {
                Ok(p) => out.push(p),
                Err(e) => {
                    proof {
                        assert(spec_parse_port(lv[i as int].1) == Err::<
                            crate::definition::PortView,
                            ParseError,
                        >(e));
                    }
                    return Err(e);
                }
            }
            i += 1;
        }
        Ok(out)
    }

    /// Reads the property list field, like the port lists.
    pub fn parse_properties(table: &Vec<(LuaKey, LuaData)>) -> (r: Result<
        Vec<PropertyDefinition>,
        ParseError,
    >)
        ensures
            (match spec_get(crate::marshal::lua_entry_views_of(table@), "properties"@) {
                Some(LuaDataView::Table(list)) => (match r {
                    Ok(v) => v@.len() == list.len() && forall|j: int|
                        0 <= j < list.len() ==> (spec_parse_property(list[j].1) matches Ok(pv)
                            && (#[trigger] v@[j]).deep_view() == pv),
                    Err(e) => exists|j: int|
                        0 <= j < list.len() && spec_parse_property(#[trigger] list[j].1)
                            == Err::<crate::definition::PropertyView, ParseError>(e),
                }),
                _ => r matches Ok(v) && v@.len() == 0,
            }),
    {
        let list = match table_get(table, "properties") {
            Some(LuaData::Table(entries)) => entries,
            _ => {
                return Ok(Vec::new());
            }
        };
        let ghost lv = crate::marshal::lua_entry_views_of(list@);
        proof {
            crate::marshal::lemma_lua_entry_views_of(list@);
            assert(spec_get(crate::marshal::lua_entry_views_of(table@), "properties"@) == Some(
                LuaDataView::Table(lv),
            ));
        }
        let mut out: Vec<PropertyDefinition> = Vec::new();
        let mut i: usize = 0;
        while i < list.len()
            invariant
                spec_get(crate::marshal::lua_entry_views_of(table@), "properties"@) == Some(
                    LuaDataView::Table(lv),
                ),
                lv == crate::marshal::lua_entry_views_of(list@),
                lv.len() == list@.len(),
                forall|k: int|
                    0 <= k < list@.len() ==> lv[k] == ((#[trigger] list@[k]).0.deep_view(),
                    crate::marshal::lua_view_of(list@[k].1)),
                i <= list@.len(),
                out@.len() == i,
                forall|j: int|
                    0 <= j < i ==> (spec_parse_property(lv[j].1) matches Ok(pv) && (
                    #[trigger] out@[j]).deep_view() == pv),
            decreases list@.len() - i,
        {
            match Self::parse_property(&list[i].1) {
                Ok(p) => out.push(p),
                Err(e) => {
                    proof {
                        assert(spec_parse_property(lv[i as int].1) == Err::<
                            crate::definition::PropertyView,
                            ParseError,
                        >(e));
                    }
                    return Err(e);
                }
            }
            i += 1;
        }
        Ok(out)
    }

    /// Reads an evaluated script's table into a block definition. The
    /// result is owed exactly when the table holds a `meta` table with
    /// string `id` and `name` and every port, output and property entry
    /// parses; each failure names the first reason, checked in that
    /// order.
    #[verifier::rlimit(100)]
    pub fn parse(data: &LuaData, script_path: &str, default_category: &str) -> (r: Result<
        BlockDefinition,
        ParseError,
    >)
        ensures
            !(data is Table) ==> r == Err::<BlockDefinition, ParseError>(ParseError::NotTable),
            data matches LuaData::Table(t) ==> ({
                let ev = crate::marshal::lua_entry_views_of(t@);
                !(spec_get(ev, "meta"@) matches Some(LuaDataView::Table(_))) ==> r == Err::<
                    BlockDefinition,
                    ParseError,
                >(ParseError::MissingMeta)
            }),
            data matches LuaData::Table(t) ==> ({
                let ev = crate::marshal::lua_entry_views_of(t@);
                spec_get(ev, "meta"@) matches Some(LuaDataView::Table(mev)) ==> (r is Ok
                    <==> spec_get_str(mev, "id"@) is Some && spec_get_str(mev, "name"@) is Some
                    && spec_port_list_ok(ev, "inputs"@) && spec_port_list_ok(ev, "outputs"@)
                    && spec_property_list_ok(ev))
            }),
            data matches LuaData::Table(t) ==> ({
                let ev = crate::marshal::lua_entry_views_of(t@);
                spec_get(ev, "meta"@) matches Some(LuaDataView::Table(mev)) ==> {
                    &&& (spec_get_str(mev, "id"@) is None ==> r == Err::<
                        BlockDefinition,
                        ParseError,
                    >(ParseError::MissingId))
                    &&& (spec_get_str(mev, "id"@) is Some && spec_get_str(mev, "name"@) is None
                        ==> r == Err::<BlockDefinition, ParseError>(ParseError::MissingName))
                }
            }),
            data matches LuaData::Table(t) ==> ({
                let ev = crate::marshal::lua_entry_views_of(t@);
                spec_get(ev, "meta"@) matches Some(LuaDataView::Table(mev)) ==> (r matches Err(e)
                    ==> ((spec_get_str(mev, "id"@) is Some && spec_get_str(mev, "name"@) is Some)
                    ==> (spec_port_list_fails(ev, "inputs"@, e) || spec_port_list_fails(
                    ev,
                    "outputs"@,
                    e,
                ) || spec_property_list_fails(ev, e))))
            }),
            data matches LuaData::Table(t) ==> ({
                let ev = crate::marshal::lua_entry_views_of(t@);
                spec_get(ev, "meta"@) matches Some(LuaDataView::Table(mev)) ==> (r matches Ok(d)
                    ==> {
                    &&& spec_meta_fields(mev, default_category@, d.meta)
                    &&& d.inputs.deep_view() == spec_port_list(ev, "inputs"@)
                    &&& d.outputs.deep_view() == spec_port_list(ev, "outputs"@)
                    &&& d.properties.deep_view() == spec_property_list(ev)
                    &&& d.script_path@ == script_path@
                })
            }),
    {
        let table = match data {
            LuaData::Table(t) => t,
            _ => {
                return Err(ParseError::NotTable);
            }
        };
        let meta_table = match table_get(table, "meta") {
            Some(LuaData::Table(m)) => m,
            _ => {
                return Err(ParseError::MissingMeta);
            }
        };
        let meta = match Self::parse_meta(meta_table, default_category) {
            Ok(m) => m,
            Err(e) => {
                return Err(e);
            }
        };
        let inputs = match Self::parse_ports(table, "inputs") {
            Ok(v) => v,
            Err(e) => {
                return Err(e);
            }
        };
        let outputs = match Self::parse_ports(table, "outputs") {
            Ok(v) => v,
            Err(e) => {
                return Err(e);
            }
        };
        let properties = match Self::parse_properties(table) {
            Ok(v) => v,
            Err(e) => {
                return Err(e);
            }
        };
        proof {
            let ev = crate::marshal::lua_entry_views_of(table@);
            assert(inputs.deep_view() =~= spec_port_list(ev, "inputs"@));
            assert(outputs.deep_view() =~= spec_port_list(ev, "outputs"@));
            assert(properties.deep_view() =~= spec_property_list(ev));
            match spec_get(ev, "inputs"@) {
                Some(LuaDataView::Table(list)) => {
                    assert forall|j: int| 0 <= j < list.len() implies (#[trigger] spec_parse_port(
                        list[j].1,
                    )) is Ok by {
                        assert(inputs@[j].deep_view() == spec_parse_port(list[j].1)->Ok_0);
                    }
                    assert(spec_port_list_ok(ev, "inputs"@));
                }
                _ => {}
            }
            match spec_get(ev, "outputs"@) {
                Some(LuaDataView::Table(list)) => {
                    assert forall|j: int| 0 <= j < list.len() implies (#[trigger] spec_parse_port(
                        list[j].1,
                    )) is Ok by {
                        assert(outputs@[j].deep_view() == spec_parse_port(list[j].1)->Ok_0);
                    }
                    assert(spec_port_list_ok(ev, "outputs"@));
                }
                _ => {}
            }
            match spec_get(ev, "properties"@) {
                Some(LuaDataView::Table(list)) => {
                    assert forall|j: int|
                        0 <= j < list.len() implies (#[trigger] spec_parse_property(
                        list[j].1,
                    )) is Ok by {
                        assert(properties@[j].deep_view() == spec_parse_property(
                            list[j].1,
                        )->Ok_0);
                    }
                    assert(spec_property_list_ok(ev));
                }
                _ => {}
            }
        }
        Ok(
            BlockDefinition {
                meta,
                inputs,
                outputs,
                properties,
                script_path: script_path.to_owned(),
            },
        )
    }
}

/// The string elements of a table, in order.
fn collect_strings(entries: &Vec<(LuaKey, LuaData)>) -> (r: Vec<String>)
    ensures
        r@.len() <= entries@.len(),
{
    let mut out: Vec<String> = Vec::new();
    let mut i: usize = 0;
    while i < entries.len()
        invariant
            i <= entries@.len(),
            out@.len() <= i,
        decreases entries@.len() - i,
    {
        match &entries[i].1 {
            LuaData::Str(s) => out.push(s.clone()),
            _ => {}
        }
        i += 1;
    }
    out
}

} // verus!
