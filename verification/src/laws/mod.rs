//! What holds of the operations, in terms of what goes in and what comes out.

pub mod arith;
pub mod chart;
pub mod keys;
pub mod label;
pub mod look;
pub mod mount;
pub mod paint;
pub mod path;
pub mod record;
pub mod ring;
pub mod rows;
pub mod scan;
pub mod size;
pub mod start;
pub mod text;
pub mod trash;
pub mod valid;
pub mod view;
