//! Publishing persistence events to Kafka.
pub mod producer;
