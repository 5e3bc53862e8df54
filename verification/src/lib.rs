//! Verified decision logic of the CapDAG orchestrator.

pub mod cap;
pub mod cartridge;
pub mod cbor;
pub mod chain;
pub mod cli_cap;
pub mod cli_runtime;
pub mod collector;
pub mod context;
pub mod credit;
pub mod dag;
pub mod execute_plan;
pub mod executor_error;
pub mod failure;
pub mod feed;
pub mod forward;
pub mod frame;
pub mod group_input;
pub mod groups;
pub mod outcome;
pub mod outgoing;
pub mod pages;
pub mod parser;
pub mod plan;
pub mod region_run;
pub mod regions;
pub mod run_arguments;
pub mod spool;
pub mod stream_io;
pub mod table;
pub mod terminal;
pub mod text;
pub mod transport;
pub mod urn;
