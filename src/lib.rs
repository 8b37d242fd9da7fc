//! Control of networked smart lights over a JSON request/response protocol,
//! and a registry of devices and nested device groups kept in a graph store.

pub mod text;
pub mod method;
pub mod response;
pub mod function;
pub mod bulb;
pub mod group;
pub mod registry;
pub mod store;
pub mod round_trip;
