//! A hashgraph consensus engine: a DAG of gossiped events from which every
//! peer derives the same rounds, witnesses, fame verdicts and final order.
//!
//! The events of a node stand in its store in order of arrival, and a
//! parent always stands before its child. Ancestry, rounds, fame, received
//! rounds, consensus timestamps and the final order are functions of the
//! store and the rounds; each step of the insertion pipeline states, as a
//! relation between the engine before and after it, what it does.

pub mod ancestry;
pub mod author;
pub mod consensus;
pub mod event;
pub mod events;
pub mod fame;
pub mod frame;
pub mod hashgraph;
pub mod index;
pub mod internal_txs;
pub mod key;
pub mod laws;
pub mod membership;
pub mod node;
pub mod order;
pub mod peer;
pub mod peers;
pub mod pipeline;
pub mod purge;
pub mod received;
pub mod round;
pub mod sync;

pub use crate::hashgraph::Hashgraph;
pub use crate::key::Key;
pub use crate::node::NodeConfig;
pub use crate::peer::Peer;
