//! Curator: a task runner in which agents announce the tasks found in their
//! containers to a central server, which forwards run requests to them and
//! collects their execution reports.
//!
//! This crate holds the verified core: the wire formats (line buffering and
//! server-sent events), the protocol types, the server's registry of agents
//! and executions, the agent's decisions and the discovery bookkeeping.
pub mod errors;
pub mod protocol;
pub mod text;
pub mod lines;
pub mod sse;
pub mod server;
pub mod agent;
pub mod docker;
pub mod client;
