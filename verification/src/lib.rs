//! Recommends a Kafka message key for OTLP metrics traffic: counts the
//! resource-attribute schemas seen in a sample and simulates how each
//! candidate key spreads messages over partitions.

pub mod analyzer;
pub mod attributes;
pub mod consumer;
pub mod layout;
pub mod order;
pub mod otlp_parser;
pub mod pairs;
pub mod partitioning;
pub mod reader;
pub mod reporter;
pub mod spread;
pub mod telemetry;
pub mod text;
