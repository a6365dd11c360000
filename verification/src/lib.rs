//! Apache Kafka for stryke: what is asked of a cluster, what is made of its answers,
//! and the helpers that need no cluster at all. Each operation takes and gives plain
//! values; talking to brokers is left to the caller.

pub mod admin;
pub mod assignment;
pub mod brokers;
pub mod cache;
pub mod codec;
pub mod config;
pub mod consume;
pub mod error;
pub mod hash;
pub mod headers;
pub mod json;
pub mod lag;
pub mod message;
pub mod metadata;
pub mod number;
pub mod offset;
pub mod order;
pub mod partitioner;
pub mod partitions;
pub mod produce;
pub mod reply;
pub mod resource;
pub mod text;
pub mod topic;
