//! Planning of one derivation per ninja edge.
pub mod admission;
pub mod apart;
pub mod arguments;
pub mod assembly;
pub mod builddir;
pub mod climb;
pub mod closure;
pub mod command;
pub mod derivation;
pub mod derived;
pub mod discovery;
pub mod encoding;
pub mod fresh;
pub mod graph;
pub mod inputs;
pub mod invocation;
pub mod made;
pub mod order;
pub mod outer;
pub mod outputs;
pub mod outside;
pub mod path;
pub mod progress;
pub mod python;
pub mod readers;
pub mod resources;
pub mod rewrite;
pub mod runner;
pub mod seen;
pub mod sets;
pub mod shapes;
pub mod store;
pub mod task;
pub mod text;
pub mod upload;
pub mod vars;
pub mod views;
