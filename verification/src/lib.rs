//! Verified core of an SDO (service data object) tool for CAN buses: bit
//! fields in CAN payloads, the SDO frame layout, DBC value encoding and the
//! bookkeeping of exports and restores.

pub mod bits;
pub mod dbc;
pub mod text;
pub mod annotations;
pub mod boards;
pub mod messages;
pub mod codec;
pub mod can;
pub mod sdo;
pub mod exports;
pub mod app;
pub mod config;
