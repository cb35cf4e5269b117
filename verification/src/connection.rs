//! Connections: directed edges between two named ports on two blocks.

use vstd::prelude::*;

use crate::ids::fresh_id;

verus! {

/// A directed edge from an output port of one block to an input port of
/// another.
#[derive(Debug)]
pub struct Connection {
    pub id: u128,
    pub from_block: u128,
    pub from_port: String,
    pub to_block: u128,
    pub to_port: String,
}

/// The mathematical model of a connection.
pub struct ConnectionView {
    pub id: u128,
    pub from_block: u128,
    pub from_port: Seq<char>,
    pub to_block: u128,
    pub to_port: Seq<char>,
}

impl DeepView for Connection {
    type V = ConnectionView;

    open spec fn deep_view(&self) -> ConnectionView {
        ConnectionView {
            id: self.id,
            from_block: self.from_block,
            from_port: self.from_port@,
            to_block: self.to_block,
            to_port: self.to_port@,
        }
    }
}

impl Connection {
    /// Builds a connection between the given ports, under a fresh identity.
    pub fn new(from_block: u128, from_port: String, to_block: u128, to_port: String) -> (r:
        Connection)
        ensures
            r.from_block == from_block,
            r.from_port@ == from_port@,
            r.to_block == to_block,
            r.to_port@ == to_port@,
    {
        Connection { id: fresh_id(), from_block, from_port, to_block, to_port }
    }
}

impl Clone for Connection {
    /// Copy; equal to the original.
    fn clone(&self) -> (r: Connection)
        ensures
            r == *self,
    {
        Connection {
            id: self.id,
            from_block: self.from_block,
            from_port: self.from_port.clone(),
            to_block: self.to_block,
            to_port: self.to_port.clone(),
        }
    }
}

} // verus!
