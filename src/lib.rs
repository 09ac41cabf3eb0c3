//! A multi-timezone timeline engine: instant/column mapping for a scrubbable
//! time window, DST and local-midnight scanning, a registry of zones that can
//! merge and split cities, and ranked city search.

pub mod catalog;
pub mod clock;
pub mod config;
pub mod control;
pub mod naming;
pub mod order;
pub mod registry;
pub mod properties;
pub mod text;
pub mod timeline;
pub mod zones;
