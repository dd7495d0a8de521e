//! Reading the output of the GitHub Copilot agent.
//!
//! The agent prints one JSON object per line. [`agent::agent_parse_line`] takes one
//! line and the parser's state, and gives the state after the line and the events
//! that the line tells the host. [`metadata::agent_metadata`] says how the host
//! starts the agent.
pub mod agent;
pub mod events;
pub mod json;
pub mod metadata;
pub mod search;
pub mod session;
pub mod shell;
pub mod split;
pub mod state;
pub mod text;
pub mod tools;
