//! The logic of a smartdns plugin that mirrors resolved addresses into the
//! firewall address lists of a MikroTik router.

pub mod ip;
pub mod mikrotik_api;
pub mod packet_laws;
pub mod pipeline;
pub mod plugin;
pub mod plugin_laws;
pub mod router_laws;
pub mod smartdns;
pub mod text;
pub mod text_laws;
pub mod worker;
pub mod worker_laws;
