use legna_flow::block::Block;
use legna_flow::connection::Connection;
use legna_flow::definition::{BlockDefinition, BlockMeta, WidgetType};
use legna_flow::geometry::Vec2;
use legna_flow::graph::Workflow;
use legna_flow::clipboard::Clipboard;

fn simple_def(id: &str) -> BlockDefinition {
    BlockDefinition {
        meta: BlockMeta {
            id: id.to_string(),
            name: id.to_string(),
            version: "1.0.0".to_string(),
            category: "test".to_string(),
            description: String::new(),
            icon: String::new(),
            color: "#607D8B".to_string(),
            widget: WidgetType::NoWidget,
            placeholder: String::new(),
            options: Vec::new(),
            hideable: false,
        },
        inputs: Vec::new(),
        outputs: Vec::new(),
        properties: Vec::new(),
        script_path: String::new(),
    }
}

fn block_at(id: u128, x: i64, y: i64) -> Block {
    let mut b = Block::new(&simple_def("blk"), Vec2::new(x, y));
    b.id = id;
    b
}

fn conn(id: u128, from: u128, to: u128) -> Connection {
    Connection {
        id,
        from_block: from,
        from_port: "out".to_string(),
        to_block: to,
        to_port: "in".to_string(),
    }
}

#[test]
fn topological_sort_linear_chain() {
    let mut w = Workflow::new("t".to_string());
    w.add_block(block_at(1, 0, 0));
    w.add_block(block_at(2, 10000, 0));
    w.add_block(block_at(3, 20000, 0));
    w.add_connection(conn(101, 1, 2));
    w.add_connection(conn(102, 2, 3));
    assert_eq!(w.execution_order, vec![1, 2, 3]);
}

#[test]
fn topological_sort_position_tie_break() {
    // Two sources: the upper one runs first, then left before right.
    let mut w = Workflow::new("t".to_string());
    w.add_block(block_at(5, 0, 10000));
    w.add_block(block_at(6, 0, 0));
    w.add_block(block_at(7, 5000, 10000));
    assert_eq!(w.execution_order, vec![6, 5, 7]);
}

#[test]
fn topological_sort_insertion_order_irrelevant() {
    // The same shape assembled in two different orders schedules
    // identically.
    let mut w1 = Workflow::new("a".to_string());
    w1.add_block(block_at(1, 0, 0));
    w1.add_block(block_at(2, 0, 5000));
    w1.add_block(block_at(3, 0, 10000));
    w1.add_connection(conn(101, 1, 3));

    let mut w2 = Workflow::new("b".to_string());
    w2.add_block(block_at(3, 0, 10000));
    w2.add_block(block_at(1, 0, 0));
    w2.add_connection(conn(500, 1, 3));
    w2.add_block(block_at(2, 0, 5000));

    assert_eq!(w1.execution_order, w2.execution_order);
}

#[test]
fn cycle_excluded_from_order() {
    // A cycle between 1 and 2; block 4 is unrelated and still runs.
    let mut w = Workflow::new("t".to_string());
    w.add_block(block_at(1, 0, 0));
    w.add_block(block_at(2, 0, 5000));
    w.add_block(block_at(4, 0, 20000));
    w.add_connection(conn(101, 1, 2));
    w.add_connection(conn(102, 2, 1));
    assert!(w.execution_order.contains(&4));
    assert!(!w.execution_order.contains(&1));
    assert!(!w.execution_order.contains(&2));
}

#[test]
fn mark_dirty_reaches_downstream_only() {
    let mut w = Workflow::new("t".to_string());
    w.add_block(block_at(1, 0, 0));
    w.add_block(block_at(2, 0, 5000));
    w.add_block(block_at(3, 0, 10000));
    w.add_block(block_at(4, 0, 20000));
    w.add_connection(conn(101, 1, 2));
    w.add_connection(conn(102, 2, 3));
    w.dirty_blocks = Vec::new();
    w.mark_dirty(1);
    assert!(w.dirty_blocks.contains(&1));
    assert!(w.dirty_blocks.contains(&2));
    assert!(w.dirty_blocks.contains(&3));
    assert!(!w.dirty_blocks.contains(&4));
}

#[test]
fn mark_dirty_stops_at_marked_blocks() {
    let mut w = Workflow::new("t".to_string());
    w.add_block(block_at(1, 0, 0));
    w.add_block(block_at(2, 0, 5000));
    w.add_connection(conn(101, 1, 2));
    w.dirty_blocks = Vec::new();
    w.mark_dirty(2);
    w.mark_dirty(1);
    let ones: Vec<_> = w.dirty_blocks.iter().filter(|d| **d == 2).collect();
    assert_eq!(ones.len(), 1);
}

#[test]
fn remove_block_cascades_connections() {
    let mut w = Workflow::new("t".to_string());
    w.add_block(block_at(1, 0, 0));
    w.add_block(block_at(2, 0, 5000));
    w.add_block(block_at(3, 0, 10000));
    w.add_connection(conn(101, 1, 2));
    w.add_connection(conn(102, 2, 3));
    w.remove_block(2);
    assert_eq!(w.blocks.len(), 2);
    assert!(w.connections.is_empty());
    assert_eq!(w.execution_order.len(), 2);
}

#[test]
fn readonly_rejects_editor_connection() {
    // An add-connection request through the editor layer fails on a
    // read-only workflow, while the engine still schedules normally.
    let mut w = Workflow::new("t".to_string());
    w.add_block(block_at(1, 0, 0));
    w.add_block(block_at(2, 0, 5000));
    w.readonly = true;
    let before = w.connections.len();
    let accepted = w.try_add_connection(conn(101, 1, 2));
    assert!(!accepted);
    assert_eq!(w.connections.len(), before);
    assert!(!w.is_editable());
    assert_eq!(w.execution_order.len(), 2);
}

#[test]
fn editable_accepts_editor_connection() {
    let mut w = Workflow::new("t".to_string());
    w.add_block(block_at(1, 0, 0));
    w.add_block(block_at(2, 0, 5000));
    let accepted = w.try_add_connection(conn(101, 1, 2));
    assert!(accepted);
    assert_eq!(w.connections.len(), 1);
}

#[test]
fn activation_decays_and_evicts() {
    let mut w = Workflow::new("t".to_string());
    w.add_block(block_at(1, 0, 0));
    w.activate_block(1);
    assert_eq!(w.get_block_activation(1), 1000);
    w.decay_activation(400);
    assert_eq!(w.get_block_activation(1), 600);
    w.decay_activation(400);
    assert_eq!(w.get_block_activation(1), 200);
    // 200 - 400 falls to or below the epsilon: the entry is evicted.
    w.decay_activation(400);
    assert_eq!(w.get_block_activation(1), 0);
}

#[test]
fn selection_and_groups() {
    let mut w = Workflow::new("t".to_string());
    w.add_block(block_at(1, 0, 0));
    w.add_block(block_at(2, 0, 50000));
    w.select_in_rect(Vec2::new(-1000, -1000), Vec2::new(30000, 30000));
    assert_eq!(w.selected_blocks(), vec![1]);
    let gid = w.create_group("g".to_string()).expect("one block is selected");
    assert_eq!(w.groups.len(), 1);
    assert_eq!(w.blocks[0].group_id, Some(gid));
    assert_eq!(w.blocks[1].group_id, None);
    w.ungroup(gid);
    assert!(w.groups.is_empty());
    assert_eq!(w.blocks[0].group_id, None);
    w.clear_selection();
    assert!(w.selected_blocks().is_empty());
}

#[test]
fn auto_layout_moves_only_positions() {
    let mut w = Workflow::new("t".to_string());
    w.add_block(block_at(1, 90000, 90000));
    w.add_block(block_at(2, 10, 10));
    w.add_connection(conn(101, 1, 2));
    let ids: Vec<u128> = w.blocks.iter().map(|b| b.id).collect();
    w.auto_layout();
    let ids2: Vec<u128> = w.blocks.iter().map(|b| b.id).collect();
    assert_eq!(ids, ids2);
    // The source column sits left of its consumer's column.
    let x1 = w.blocks.iter().find(|b| b.id == 1).unwrap().position.x;
    let x2 = w.blocks.iter().find(|b| b.id == 2).unwrap().position.x;
    assert!(x1 < x2);
}

#[test]
fn clipboard_copy_paste_rewires() {
    let blocks = vec![block_at(1, 0, 0), block_at(2, 0, 5000)];
    let conns = vec![conn(101, 1, 2), conn(102, 1, 99)];
    let mut cb = Clipboard::new();
    cb.copy(&blocks, &conns);
    assert!(!cb.is_empty());
    let (nb, nc) = cb.paste(Vec2::new(100, 200));
    assert_eq!(nb.len(), 2);
    // Only the connection between the two copied blocks came along.
    assert_eq!(nc.len(), 1);
    assert_eq!(nb[0].position.x, 100);
    assert_eq!(nb[0].position.y, 200);
    assert!(nb[0].selected);
    assert_eq!(nc[0].from_block, nb[0].id);
    assert_eq!(nc[0].to_block, nb[1].id);
    assert_eq!(nc[0].from_port, "out");
    assert_eq!(nc[0].to_port, "in");
}

#[test]
fn to_distributable_sets_readonly() {
    let mut w = Workflow::new("t".to_string());
    w.add_block(block_at(1, 0, 0));
    let d = w.to_distributable();
    assert!(d.readonly);
    assert!(!w.readonly);
    assert_eq!(d.blocks.len(), 1);
    assert_eq!(d.name, w.name);
}

#[test]
fn auto_layout_exact_columns() {
    // A chain 1 -> 2: the source column starts at x = 10000 and the
    // consumer column one width (floored at 16000) and a 6000 gap
    // further right; both stack from y = 10000.
    let mut w = Workflow::new("t".to_string());
    w.add_block(block_at(1, 90000, 90000));
    w.add_block(block_at(2, 10, 10));
    w.add_connection(conn(101, 1, 2));
    w.auto_layout();
    let b1 = w.blocks.iter().find(|b| b.id == 1).unwrap();
    let b2 = w.blocks.iter().find(|b| b.id == 2).unwrap();
    assert_eq!((b1.position.x, b1.position.y), (10000, 10000));
    assert_eq!((b2.position.x, b2.position.y), (10000 + 16000 + 6000, 10000));
}

#[test]
fn auto_layout_stacks_by_previous_y() {
    // Two sources in one column stack in their previous vertical
    // order: the lower block first, each advancing by height + 4000.
    let mut w = Workflow::new("t".to_string());
    w.add_block(block_at(1, 0, 90000));
    w.add_block(block_at(2, 0, 10));
    w.auto_layout();
    let b1 = w.blocks.iter().find(|b| b.id == 1).unwrap();
    let b2 = w.blocks.iter().find(|b| b.id == 2).unwrap();
    // Block heights are 6000 here.
    assert_eq!((b2.position.x, b2.position.y), (10000, 10000));
    assert_eq!((b1.position.x, b1.position.y), (10000, 10000 + 6000 + 4000));
}
