//! A chunked hexagonal terrain grid with per-tile elevation, and a
//! multi-goal flow field over it: every reachable tile stores the
//! direction of its next hop toward the nearest goal, so that many
//! agents can follow shortest paths without running their own search.

pub mod components;
pub mod consts;
pub mod flow;
pub mod hex;
pub mod hexmap;
pub mod map;
mod rng;
pub mod systems;
