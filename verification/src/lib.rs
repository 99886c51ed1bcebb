//! disksun: an interactive disk-usage viewer. A directory is a pie, and each
//! child of it a slice as wide as its share.
//!
//! The library decides what is scanned, counted, laid out, said and done at each
//! event; the program around it reads the disk and draws.

pub mod admin;
pub mod apart;
pub mod app;
pub mod cli;
pub mod cursor;
pub mod double;
pub mod fill;
pub mod fit;
pub mod float;
pub mod hue;
pub mod labels;
pub mod laws;
pub mod layout;
pub mod links;
pub mod look;
pub mod mounts;
pub mod nav;
pub mod order;
pub mod paint;
pub mod paths;
pub mod rings;
pub mod side;
pub mod signed;
pub mod single;
pub mod sizes;
pub mod text;
pub mod trash;
pub mod tree;
pub mod usage;
pub mod walk;
