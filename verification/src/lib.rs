//! The sway graph engine and its MIDI front end, with their contracts.
//!
//! A [`model::Graph`] is nodes and edges and nothing else. Nodes are addressed
//! by generational [`id::NodeId`]; an edge names two nodes and two field paths
//! relative to the nodes' parts. The MIDI modules turn a byte stream into
//! messages and keep the controller snapshot that nodes read.

pub mod id;
pub mod text;
pub mod idset;
pub mod legality;
pub mod node;
pub mod edge;
pub mod path;
pub mod order;
pub mod model;
pub mod message;
pub mod parser;
pub mod controls;
pub mod note;
pub mod registry;
pub mod marker;
pub mod doc;
pub mod wiring;
pub mod command;
pub mod stride;
pub mod kahn;
pub mod parents;
pub mod structure;
pub mod compile;
pub mod display;
pub mod reconcile;
pub mod tick_step;
pub mod world_order;
pub mod editor;
