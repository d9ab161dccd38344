//! Decision and data-plane logic of the AIVPN server, with machine-checked contracts.

pub mod batch;
pub mod bootstrap;
pub mod bytes;
pub mod candidates;
pub mod control;
pub mod data_plane;
pub mod dns;
pub mod downlink;
pub mod enroll;
pub mod feedback_laws;
pub mod feedback_map;
pub mod hints;
pub mod hll;
pub mod housekeeping;
pub mod icmp;
pub mod ingress;
pub mod kernel;
pub mod layout;
pub mod management;
pub mod mask_catalog;
pub mod mask_feedback;
pub mod mask_repair;
pub mod outside;
pub mod outside_maps;
pub mod peer;
pub mod publish;
pub mod receive;
pub mod region;
pub mod rotation;
pub mod session_lookup;
pub mod settings;
pub mod text;
pub mod throttle;
pub mod validate;
