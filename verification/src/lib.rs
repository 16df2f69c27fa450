//! Core data structures and rules of the ELK layout kernel: option enums,
//! enum sets, typed property maps, Java-compatible random numbers and
//! priority queues, and structural graph utilities of the layered algorithm.

pub mod properties;
pub mod options;
pub mod javacompat;
pub mod priority_queue;
pub mod index_map;
pub mod property_map;
pub mod mrtree;
pub mod lgraph;
pub mod layered_options;
pub mod components;
pub mod lgraph_util;
pub mod compound;
