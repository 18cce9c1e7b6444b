//! Multi-Paxos replication: the state of one replica and its reactions to protocol commands.

pub mod acceptor;
pub mod agreement;
pub mod arrivals;
pub mod ballot;
pub mod comm;
pub mod commands;
pub mod conduct;
pub mod config;
pub mod elections;
pub mod events;
pub mod group;
pub mod growth;
pub mod inbox;
pub mod liveness;
pub mod model;
pub mod node;
pub mod proposals;
pub mod proposer;
pub mod quorum;
pub mod readiness;
pub mod replica;
pub mod round;
pub mod stamps;
pub mod value;
pub mod window;

pub use ballot::{Ballot, NodeId, Slot};
pub use comm::{Action, Comm};
pub use commands::{Command, Commander, Receiver};
pub use config::Configuration;
pub use inbox::StampedReceiver;
pub use liveness::Liveness;
pub use node::Node;
pub use replica::Replica;
pub use round::{PaxosKey, PaxosRound, Phase};
