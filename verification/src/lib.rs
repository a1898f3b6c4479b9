//! A drift checker's core: the graph model, its structural analyses, and the
//! text conventions its reports are written in.

pub mod text;
pub mod ansi;
pub mod config;
pub mod diagnostic;
pub mod hints;
pub mod cli;
pub mod paths;
pub mod order;
pub mod reach;
pub mod graph;
pub mod structure;
pub mod analyses;
pub mod sort;
pub mod impact;
pub mod policy;
pub mod projection;
pub mod parsers;
pub mod model;
pub mod nodes;
pub mod edges;
pub mod layout;
pub mod lockfile;
pub mod builders;
pub mod metrics;
pub mod assemble;
pub mod graphs;
pub mod commands;
pub mod compose;
pub mod guide;
pub mod rules;
