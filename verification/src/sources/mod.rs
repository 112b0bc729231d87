pub mod kafka_client;
pub mod kafka_committer;
pub mod kafka;
pub mod http;
pub mod kafka_config;
