//! The decisions of a fork keeper: what is found in a repository of branches and release cuts, what
//! the forge says of its pull requests, and what each command reports.

pub mod bind;
pub mod cli;
pub mod columns;
pub mod commands;
pub mod config;
pub mod consumer_pins;
pub mod detect;
pub mod forbidden;
pub mod forge;
pub mod forge_cache;
pub mod graph;
pub mod grouping;
pub mod ids;
pub mod ledger;
pub mod moments;
pub mod numbered;
pub mod order;
pub mod paths;
pub mod pieces;
pub mod pins;
pub mod release_model;
pub mod seen;
pub mod seqs;
pub mod snapshot;
pub mod sorting;
pub mod store;
pub mod text;
