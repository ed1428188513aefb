//! Orders source files that declare, in a leading block of comment lines,
//! a name, what they require, and a layer: one graph per layer, checked for
//! missing names, requirements on later layers and cycles, then sorted so
//! that the order depends only on the names and the requirements.
pub mod config;
pub mod exceptions;
pub mod file_dag;
pub mod file_node;
pub mod layer_graph;
pub mod stable_topo;
