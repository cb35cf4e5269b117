use legna_flow::block::Block;
use legna_flow::connection::Connection;
use legna_flow::definition::{BlockDefinition, BlockMeta, DataType, PortDefinition, WidgetType};
use legna_flow::geometry::Vec2;
use legna_flow::graph::Workflow;
use legna_flow::marshal::{from_lua_data, value_to_lua, LuaData, LuaKey};
use legna_flow::parser::{parse_data_type, ParseError, ScriptParser};
use legna_flow::registry::{MemoryRegistry, ScriptRegistry};
use legna_flow::usb::{UsbDirection, UsbRequestType, UsbTransferType};
use legna_flow::value::Value;

fn port(id: &str) -> PortDefinition {
    PortDefinition {
        id: id.to_string(),
        name: id.to_string(),
        data_type: DataType::Number,
        default: Value::Nil,
        description: String::new(),
        required: false,
        multiple: false,
        element_type: None,
        min: None,
        max: None,
    }
}

fn def_with_ports(id: &str) -> BlockDefinition {
    BlockDefinition {
        meta: BlockMeta {
            id: id.to_string(),
            name: id.to_string(),
            version: "1.0.0".to_string(),
            category: "test".to_string(),
            description: String::new(),
            icon: String::new(),
            color: "#607D8B".to_string(),
            widget: WidgetType::NoWidget,
            placeholder: String::new(),
            options: Vec::new(),
            hideable: false,
        },
        inputs: vec![port("x")],
        outputs: vec![port("x")],
        properties: Vec::new(),
        script_path: String::new(),
    }
}

fn chain_block(id: u128, y: i64) -> Block {
    let mut b = Block::new(&def_with_ports("step"), Vec2::new(0, y));
    b.id = id;
    b
}

#[test]
fn marshal_round_trip_all_variants() {
    let nested = Value::Object(vec![
        ("n".to_string(), Value::Number((-1.5f64).to_bits())),
        ("s".to_string(), Value::Text(String::new())),
        ("b".to_string(), Value::Boolean(true)),
        (
            "a".to_string(),
            Value::Array(vec![Value::Nil, Value::Number(2.25f64.to_bits())]),
        ),
        ("empty_list".to_string(), Value::Array(Vec::new())),
    ]);
    for v in [
        Value::Nil,
        Value::Number((-0.125f64).to_bits()),
        Value::Text("héllo".to_string()),
        Value::Text(String::new()),
        Value::Boolean(false),
        Value::Array(Vec::new()),
        Value::Array(vec![Value::Number(1.0f64.to_bits()), Value::Boolean(true)]),
        nested,
    ] {
        let encoded = value_to_lua(&v);
        let back = from_lua_data(&encoded);
        assert_eq!(back, v);
    }
}

#[test]
fn marshal_table_classification() {
    // Keys exactly 1..n: an array, in key order.
    let arr = LuaData::Table(vec![
        (LuaKey::Int(2), LuaData::Boolean(true)),
        (LuaKey::Int(1), LuaData::Boolean(false)),
    ]);
    assert_eq!(
        from_lua_data(&arr),
        Value::Array(vec![Value::Boolean(false), Value::Boolean(true)])
    );
    // A hole collapses the table into an object of its string keys:
    // none here, so an empty object.
    let sparse = LuaData::Table(vec![
        (LuaKey::Int(1), LuaData::Boolean(true)),
        (LuaKey::Int(3), LuaData::Boolean(false)),
    ]);
    assert_eq!(from_lua_data(&sparse), Value::Object(Vec::new()));
    // Mixed keys: an object keeping the string-keyed entries.
    let mixed = LuaData::Table(vec![
        (LuaKey::Int(1), LuaData::Boolean(true)),
        (LuaKey::Str("k".to_string()), LuaData::Number(1.0f64.to_bits())),
    ]);
    assert_eq!(
        from_lua_data(&mixed),
        Value::Object(vec![("k".to_string(), Value::Number(1.0f64.to_bits()))])
    );
    // An empty table reads back as an empty array.
    assert_eq!(from_lua_data(&LuaData::Table(Vec::new())), Value::Array(Vec::new()));
}

#[test]
fn engine_chain_adds_one_per_block() {
    // Three chained blocks; each script copies inputs.x to outputs.x
    // plus one. After one cycle the last output exceeds the first by 2.
    let mut w = Workflow::new("t".to_string());
    w.add_block(chain_block(1, 0));
    w.add_block(chain_block(2, 5000));
    w.add_block(chain_block(3, 10000));
    w.add_connection(Connection {
        id: 101,
        from_block: 1,
        from_port: "x".to_string(),
        to_block: 2,
        to_port: "x".to_string(),
    });
    w.add_connection(Connection {
        id: 102,
        from_block: 2,
        from_port: "x".to_string(),
        to_block: 3,
        to_port: "x".to_string(),
    });
    // Seed the source's manual input.
    {
        let b = w.blocks.iter_mut().find(|b| b.id == 1).unwrap();
        b.set_input("x", Value::Number(10.0f64.to_bits()));
    }
    for id in w.execution_plan() {
        let inputs = w.resolve_block_inputs(id).unwrap();
        // The script: outputs.x = inputs.x + 1.
        let x = match inputs.get("x") {
            Some(Value::Number(bits)) => f64::from_bits(*bits),
            _ => 0.0,
        };
        let result = LuaData::Table(vec![(
            LuaKey::Str("x".to_string()),
            LuaData::Number((x + 1.0).to_bits()),
        )]);
        let state = LuaData::Table(Vec::new());
        w.apply_block_result(id, &result, &state);
    }
    w.clear_dirty();
    assert!(w.dirty_blocks.is_empty());
    let first = w.blocks.iter().find(|b| b.id == 1).unwrap();
    let last = w.blocks.iter().find(|b| b.id == 3).unwrap();
    let a = match first.get_output("x") {
        Some(Value::Number(bits)) => f64::from_bits(*bits),
        _ => panic!("missing output"),
    };
    let c = match last.get_output("x") {
        Some(Value::Number(bits)) => f64::from_bits(*bits),
        _ => panic!("missing output"),
    };
    assert_eq!(a, 11.0);
    assert_eq!(c, a + 2.0);
}

#[test]
fn connections_override_stored_inputs() {
    let mut w = Workflow::new("t".to_string());
    w.add_block(chain_block(1, 0));
    w.add_block(chain_block(2, 5000));
    w.add_connection(Connection {
        id: 101,
        from_block: 1,
        from_port: "x".to_string(),
        to_block: 2,
        to_port: "x".to_string(),
    });
    {
        let b = w.blocks.iter_mut().find(|b| b.id == 1).unwrap();
        b.set_output("x", Value::Number(7.0f64.to_bits()));
    }
    {
        let b = w.blocks.iter_mut().find(|b| b.id == 2).unwrap();
        b.set_input("x", Value::Number(99.0f64.to_bits()));
    }
    let inputs = w.resolve_block_inputs(2).unwrap();
    match inputs.get("x") {
        Some(Value::Number(bits)) => assert_eq!(f64::from_bits(*bits), 7.0),
        other => panic!("unexpected input: {:?}", other),
    }
    // The resolved value was persisted onto the block.
    let b2 = w.blocks.iter().find(|b| b.id == 2).unwrap();
    match b2.input_values.get("x") {
        Some(Value::Number(bits)) => assert_eq!(f64::from_bits(*bits), 7.0),
        other => panic!("unexpected stored input: {:?}", other),
    }
}

#[test]
fn parser_reads_definition() {
    let meta = LuaData::Table(vec![
        (LuaKey::Str("id".to_string()), LuaData::Str("math.add".to_string())),
        (LuaKey::Str("name".to_string()), LuaData::Str("Add".to_string())),
        (LuaKey::Str("widget".to_string()), LuaData::Str("Slider".to_string())),
    ]);
    let input_port = LuaData::Table(vec![
        (LuaKey::Str("id".to_string()), LuaData::Str("x".to_string())),
        (LuaKey::Str("name".to_string()), LuaData::Str("X".to_string())),
        (LuaKey::Str("type".to_string()), LuaData::Str("Number".to_string())),
        (LuaKey::Str("required".to_string()), LuaData::Boolean(true)),
        (
            LuaKey::Str("default".to_string()),
            LuaData::Number(4.0f64.to_bits()),
        ),
    ]);
    let script = LuaData::Table(vec![
        (LuaKey::Str("meta".to_string()), meta),
        (
            LuaKey::Str("inputs".to_string()),
            LuaData::Table(vec![(LuaKey::Int(1), input_port)]),
        ),
    ]);
    let def = ScriptParser::parse(&script, "scripts/math/add.lua", "math").unwrap();
    assert_eq!(def.meta.id, "math.add");
    assert_eq!(def.meta.name, "Add");
    assert_eq!(def.meta.version, "1.0.0");
    assert_eq!(def.meta.category, "math");
    assert_eq!(def.meta.color, "#607D8B");
    assert_eq!(def.meta.widget, WidgetType::Slider);
    assert_eq!(def.inputs.len(), 1);
    assert_eq!(def.inputs[0].id, "x");
    assert_eq!(def.inputs[0].data_type, DataType::Number);
    assert!(def.inputs[0].required);
    assert_eq!(def.inputs[0].default, Value::Number(4.0f64.to_bits()));
    assert_eq!(def.outputs.len(), 0);
    assert_eq!(def.script_path, "scripts/math/add.lua");
}

#[test]
fn parser_error_cases() {
    assert_eq!(
        ScriptParser::parse(&LuaData::Nil, "p", "c").unwrap_err(),
        ParseError::NotTable
    );
    let empty = LuaData::Table(Vec::new());
    assert_eq!(
        ScriptParser::parse(&empty, "p", "c").unwrap_err(),
        ParseError::MissingMeta
    );
    let no_id = LuaData::Table(vec![(
        LuaKey::Str("meta".to_string()),
        LuaData::Table(vec![(
            LuaKey::Str("name".to_string()),
            LuaData::Str("n".to_string()),
        )]),
    )]);
    assert_eq!(
        ScriptParser::parse(&no_id, "p", "c").unwrap_err(),
        ParseError::MissingId
    );
}

#[test]
fn parse_data_type_names() {
    assert_eq!(parse_data_type("number"), DataType::Number);
    assert_eq!(parse_data_type("NUMBER"), DataType::Number);
    assert_eq!(parse_data_type("string"), DataType::Text);
    assert_eq!(parse_data_type("bool"), DataType::Boolean);
    assert_eq!(parse_data_type("boolean"), DataType::Boolean);
    assert_eq!(parse_data_type("event"), DataType::Event);
    assert_eq!(parse_data_type("array"), DataType::Array);
    assert_eq!(parse_data_type("whatever"), DataType::Any);
}

#[test]
fn registry_roundtrip() {
    let mut reg = ScriptRegistry::new("scripts".to_string());
    let def = def_with_ports("step");
    reg.register_definition(def);
    assert!(reg.get("step").is_some());
    assert!(reg.get("missing").is_none());
    assert_eq!(reg.get_by_category("test"), vec!["step".to_string()]);
    assert_eq!(reg.all_ids(), vec!["step".to_string()]);
    reg.clear();
    assert!(reg.get("step").is_none());

    let mut mem = MemoryRegistry::new();
    mem.insert("step".to_string(), def_with_ports("step"), "return {}".to_string());
    assert!(mem.get("step").is_some());
    assert_eq!(mem.get_source("step").unwrap().as_str(), "return {}");
}

#[test]
fn block_defaults_and_dynamic_outputs() {
    let def = def_with_ports("step");
    let mut b = Block::new(&def, Vec2::new(0, 0));
    assert_eq!(b.input_values.get("x"), Some(&Value::Nil));
    assert!(!b.selected);
    b.set_output("x", Value::Number(1.0f64.to_bits()));
    b.set_output("extra", Value::Text("hi".to_string()));
    b.update_dynamic_outputs(&def);
    assert_eq!(b.dynamic_outputs.len(), 1);
    assert_eq!(b.dynamic_outputs[0].id, "extra");
    assert_eq!(b.dynamic_outputs[0].data_type, DataType::Text);
    let all = b.all_outputs(&def);
    assert_eq!(all.len(), 2);
}

#[test]
fn block_geometry() {
    let def = def_with_ports("step");
    // One port row: the floor of 6000 wins over 2800 + 2200.
    assert_eq!(def.calculate_height(), 6000);
    // Width: one-character names keep the 14000 base.
    assert_eq!(def.calculate_width(), 14000);
    let mut b = Block::new(&def, Vec2::new(1234, -1234));
    assert!(b.contains(Vec2::new(1234, -1234)));
    assert!(!b.contains(Vec2::new(-1, -1234)));
    b.snap_to_grid(1000);
    assert_eq!(b.position.x, 1000);
    assert_eq!(b.position.y, -1000);
}

#[test]
fn usb_codes() {
    assert_eq!(UsbDirection::In.as_str(), "in");
    assert_eq!(UsbDirection::Out.as_str(), "out");
    assert_eq!(UsbTransferType::Bulk.as_str(), "bulk");
    let rt = UsbRequestType { direction: UsbDirection::In, request_type: 2, recipient: 1 };
    assert_eq!(rt.to_byte(), 0xc1u8);
    let rt2 = UsbRequestType { direction: UsbDirection::Out, request_type: 0, recipient: 0 };
    assert_eq!(rt2.to_byte(), 0u8);
}

#[test]
fn dynamic_outputs_sorted_by_id() {
    // Undeclared output keys spawn ports sorted ascending by id,
    // whatever order the values were stored in.
    let def = def_with_ports("step");
    let mut b = Block::new(&def, Vec2::new(0, 0));
    b.set_output("b", Value::Number(1.0f64.to_bits()));
    b.set_output("a", Value::Boolean(true));
    b.update_dynamic_outputs(&def);
    assert_eq!(b.dynamic_outputs.len(), 2);
    assert_eq!(b.dynamic_outputs[0].id, "a");
    assert_eq!(b.dynamic_outputs[1].id, "b");
    assert_eq!(b.dynamic_outputs[0].data_type, DataType::Boolean);
    assert_eq!(b.dynamic_outputs[1].data_type, DataType::Number);
}
