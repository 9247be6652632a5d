//! Graph algorithms over an adjacency-list graph — breadth- and depth-first
//! search, shortest paths, weakly- and strongly-connected components and
//! Graphviz export — with the `graph` command's logic, a structural checker
//! for SVG slide masters, and binding discovery for provable contracts.
//! Every function states its behavior as a contract, proved to hold.

pub mod graph;
pub mod paths;
pub mod traversal;
pub mod community;
pub mod text;
pub mod viz;
pub mod layout;
pub mod contracts;
pub mod cli;
pub mod demo;
pub mod transpose;
