//! Passbook: the bookkeeping core of a ledger that follows an EVM chain and
//! records every balance change of a small set of watched addresses.

pub mod primitives;
pub mod text;
pub mod watched;
pub mod model;
pub mod reconcile;
pub mod inspector;
pub mod reexec;
pub mod attribution;
pub mod erc20;
pub mod system;
pub mod optimism;
pub mod stack;
pub mod exex;
pub mod ledger;
pub mod committed;
pub mod config;
pub mod op_chain;
pub mod driver;
pub mod chain;
pub mod cli;
pub mod laws;
pub mod completeness;
pub mod relevance;
pub mod booking;
pub mod balance;
pub mod collecting;
pub mod crediting;
pub mod views;
