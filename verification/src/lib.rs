//! Event sources and conditions of a log pipeline: the HTTP and Kafka sources'
//! event construction, the Kafka offset committer, client settings and
//! configuration tables, and event conditions.
pub mod conditions;
pub mod event;
pub mod kafka;
pub mod sources;
