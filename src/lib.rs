//! The structural core of loopy belief propagation over discrete Bayesian
//! networks: the node graph and its conditional-table shapes, the evidence,
//! the per-edge message slots with their synchronous commit, the memo slots of
//! each node, and the order in which a node's table is contracted against its
//! messages. Message values are generic; the log-space arithmetic on them is
//! left to the caller.

pub mod cache;
pub mod messages;
pub mod network;
pub mod plan;

pub use cache::Cache;
pub use messages::Network;
pub use network::{deterministic_support, support, Delivery, Graph, ShapeError};
pub use plan::{lambda_plan, pi_plan, AxisLabel, Contraction, Operand};
