//! A tile-grid factory that routes network packets.
//!
//! Structures (a traffic source, sinks, conveyors, junctions and five filter
//! kinds) are placed on an integer grid. A directed connection graph is
//! derived from their geometry, and a per-tick update advances structure
//! state and routes packets across the graph with round-robin fairness.

pub mod building;
pub mod building_map;
pub mod building_storage;
pub mod connection_graph;
pub mod dto;
pub mod filters;
pub mod packet;
pub mod packet_completion;
pub mod packet_export;
pub mod traffic;
pub mod world;
