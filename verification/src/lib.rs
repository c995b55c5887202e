//! DAPNET paging, dashboard settings and supplementary-service handling of a TETRA base station.

pub mod config;
pub mod dashboard;
pub mod lines;
pub mod message;
pub mod number;
pub mod outside;
pub mod paging;
pub mod rewrite_laws;
pub mod rf_test;
pub mod section_laws;
pub mod session;
pub mod ss_bs;
pub mod text;
pub mod worker;
