//! A verified data-access core for a document store holding two collections:
//! `world` entities (numeric key, numeric payload) and `fortune` messages
//! (numeric key, text payload). The four request operations — point fetch,
//! fan-out fetch, scan-and-augment, and unordered bulk update — are stated
//! and proved here over an in-memory model of the store; an unverified shell
//! wires the same operations to a real driver.

pub mod connection;
pub mod fortunes;
pub mod models;
pub mod store;
