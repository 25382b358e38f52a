//! A time-dependent route planner over a static road network.
//!
//! The planner finds the fastest or the shortest way between two points of
//! a road graph, with traffic lights that are without power at given hours
//! of the day counted against the roads near them.
//!
//! Everything is whole-number arithmetic, so that every rule can be stated
//! exactly and is proved against its contract:
//! - a coordinate is a number of units of 1e-7 of a degree;
//! - a length is a number of metres, a speed a number of km/h;
//! - a cost is a number of milliseconds.
//!
//! The parts:
//! - `geometry`: positions, boxes, distances;
//! - `fixed`: doubles, as they arrive in payloads, turned into fixed point;
//! - `loader`: the layout of payloads;
//! - `node`, `traffic_light`, `suburb`: the records, and how nodes are typed
//!   by the lights near them;
//! - `polygon`: why the point-in-polygon test is right for convex outlines;
//! - `parallel_list`, `super_cell`: index-addressed storage;
//! - `quad_tree`: the spatial index;
//! - `solver`: the search, over the queues of `heap` and `pairing`;
//! - `engine`: all of it together behind one value.

pub mod clock;
pub mod engine;
pub mod fixed;
pub mod geometry;
pub mod heap;
pub mod loader;
pub mod node;
pub mod pairing;
pub mod parallel_list;
pub mod polygon;
pub mod quad_tree;
pub mod solver;
pub mod suburb;
pub mod super_cell;
pub mod traffic_light;
pub mod traits;
