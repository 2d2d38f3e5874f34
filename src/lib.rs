//! Core of a partitioned message broker: the binary command and response
//! codecs, partitions of segmented message logs with consumer offsets, the
//! registry of streams and topics with its replayable command log, the
//! configuration rules, and the archiving and layout-sampling helpers.

pub mod archiver;
pub mod codec;
pub mod config;
pub mod delete_partitions;
pub mod error;
pub mod mapper;
pub mod memory;
pub mod models;
pub mod partition;
pub mod registry;
pub mod response;
pub mod samplers;
pub mod sort;
pub mod text;
