pub mod coord;
pub mod topology;
pub mod cost;
pub mod subnodes;
pub mod angles;
pub mod graph;
pub mod insertions;
pub mod transit;
pub mod driving;
pub mod settings;
