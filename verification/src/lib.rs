//! Connectivity analytics over a directed graph of flight routes between
//! airports: adjacency construction, hop counts by breadth-first search,
//! first- and second-degree connectivity, and degree statistics.

pub mod adjacency;
pub mod airports;
pub mod degrees;
pub mod graph;
pub mod id_table;
pub mod records;
pub mod second_degree;
pub mod sorting;
pub mod statistics;

pub use airports::AirportTable;
pub use degrees::{degrees_fit, update_degrees};
pub use graph::AirportGraph;
pub use id_table::IdTable;
pub use records::{Airport, AirportView, Route, RouteView};
pub use second_degree::calculate_degree2;
pub use statistics::{calculate_statistics, DegreeStatistics};
