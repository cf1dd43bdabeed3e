//! The image labeller: a worker that watches for new image items, asks a vision
//! model for a label and stores it with the item.

pub mod client;
pub mod config;
pub mod worker;
