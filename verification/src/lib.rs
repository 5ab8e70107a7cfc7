//! Behavior orchestration for Arora devices: the run-status vocabulary, the
//! editable behavior graph, a behavior-tree ticker, and the pieces of the ROS 2
//! bridge that are pure logic (exposure profiles, the bridge configuration and
//! its routing decisions, CDR framing, the action goal book, outbound
//! coalescing).

pub mod value;
pub mod status;
pub mod tree;
pub mod nodes;
pub mod groot;
pub mod graph;
pub mod text;
pub mod keys;
pub mod profile;
pub mod cdr;
pub mod msg_types;
pub mod type_hash;
pub mod subscriber;
pub mod bridge;
pub mod outbound;
pub mod goals;
pub mod config;
