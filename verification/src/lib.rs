//! Bitstream generation and timing analysis for a small island-style FPGA
//! whose placement and routing were produced by VPR.
//!
//! The crate reads the `.place`, `.route` and `.pre-vpr.blif` texts, maps the
//! routed nets and the look-up tables onto a matrix of programmable tiles and
//! computes the critical path delays of the mapped design.
pub mod config;
pub mod types;
pub mod tile;
pub mod bitstream;
pub mod timing;
pub mod model;
pub mod text;
pub mod parse;
pub mod blif;
pub mod output;
pub mod parameter;
pub mod logging;
