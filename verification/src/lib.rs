//! Verified core of a middle-proxy front end: per-user IP admission control,
//! per-source-address pool routing, and the decisions of pool start-up.

pub mod ad_tag;
pub mod address_laws;
pub mod admission_laws;
pub mod alpn;
pub mod cleanup_queue;
pub mod clock;
pub mod hashing;
pub mod ip;
pub mod ip_format;
pub mod ip_shard;
pub mod ip_table;
pub mod ip_text;
pub mod ip_text_laws;
pub mod ip_tracker;
pub mod me_init;
pub mod me_plan;
pub mod me_startup;
pub mod names;
pub mod number_laws;
pub mod plan_laws;
pub mod pool_mux;
pub mod progress_laws;
pub mod queue_laws;
pub mod routing_laws;
pub mod runtime_settings;
pub mod shard_plan;
pub mod sighting_laws;
pub mod sorted_map;
pub mod startup_actions;
pub mod startup_laws;
pub mod status_laws;
pub mod text;
pub mod tracker_laws;
pub mod tracker_model;
pub mod tracker_report;
pub mod tracker_sums;
pub mod user_map;
pub mod wording_laws;
