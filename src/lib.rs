//! One participant of a gradient clock synchronization network: the wire
//! codec, the neighbour table, the connection bookkeeping and the clock and
//! rate engine of a node, each with its contract.
pub mod codec;
pub mod table;
pub mod node;
