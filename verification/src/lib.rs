use vstd::prelude::*;

pub mod cli;
pub mod laws;
pub mod memory;
pub mod operator;
pub mod order;
pub mod ordered;
pub mod res;
pub mod set;
pub mod state;
pub mod text;

pub use cli::{BatchOpts, Executor, Opts, SshHost};
pub use memory::MemoryBackend;
pub use operator::{Backend, DeleteFilter, Error, Operator, Plan, Rule};
pub use res::{ExternalPorts, Interface, Node, PortSpec, Proto, Service};
pub use set::OrderedSet;
pub use state::{Event, Op, Ops, State};

verus! {

/// The service annotation that asks for external ports.
pub const ANNOTATION: &'static str = "epok.getbetter.ro/externalport";

/// The node annotation that keeps a node out of the rules.
pub const NODE_EXCLUDE_ANNOTATION: &'static str = "epok.getbetter.ro/exclude";

/// The node label that keeps a node out of the rules.
pub const NODE_EXCLUDE_LABEL: &'static str = "epok_exclude";

/// The most operations queued at once.
pub const MAX_OP_QUEUE_SIZE: usize = 64;

/// The marker of a rule's id in the rule's comment.
pub const RULE_MARKER: &'static str = "epok_rule_id";

/// The marker of a service's id in the rule's comment.
pub const SERVICE_MARKER: &'static str = "epok_service_id";

} // verus!
