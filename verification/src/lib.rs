//! The core of a BitTorrent tracker: swarms, the HTTP and UDP protocols, rate
//! limits, metrics, settings, and what is saved in a database.

pub mod address;
pub mod address_laws;
pub mod announce_laws;
pub mod bencode;
pub mod blacklist;
pub mod blacklist_laws;
pub mod client;
pub mod clock;
pub mod config;
pub mod config_laws;
pub mod exposition;
pub mod health;
pub mod maps;
pub mod metrics;
pub mod metrics_laws;
pub mod order;
pub mod payload;
pub mod persistence;
pub mod persistence_laws;
pub mod query;
pub mod query_laws;
pub mod rate_limit;
pub mod scrape_json;
pub mod scrape_laws;
pub mod service_laws;
pub mod snapshot_laws;
pub mod state;
pub mod state_laws;
pub mod sums;
pub mod swarm;
pub mod swarm_laws;
pub mod text;
pub mod udp;
pub mod udp_laws;
pub mod web;
pub mod web_laws;
pub mod wire;
