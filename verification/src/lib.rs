//! Verified core of an automated plant-watering controller: request parsing and routing,
//! decimal and hexadecimal text codecs, partition-table lookup, the configuration model, the
//! firmware-update plan, and the decisions of the watering and Wi-Fi tasks.

pub mod config;
pub mod handler;
pub mod link;
pub mod ota;
pub mod partitions;
pub mod pump;
pub mod server;
pub mod text;
pub mod types;
