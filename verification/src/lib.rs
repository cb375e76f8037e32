//! The core of a head-up display for War Thunder: the documents of the game's
//! local interface, the fields computed from them, the indicators of the user and
//! the rows of the overlay's windows.
pub mod accuracy;
pub mod arith;
pub mod build_version;
pub mod calculator;
pub mod catalog;
pub mod client;
pub mod color;
pub mod defs;
pub mod derived;
pub mod digits;
pub mod expression;
pub mod fixed;
pub mod flight;
pub mod fm;
pub mod fm_update;
pub mod formula;
pub mod helpers;
pub mod http;
pub mod install;
pub mod json;
pub mod laws;
pub mod layout;
pub mod meaning;
pub mod num;
pub mod number;
pub mod paths;
pub mod physics;
pub mod platform;
pub mod polling;
pub mod progress;
pub mod rounding;
pub mod settings;
pub mod setup;
pub mod single;
pub mod style;
pub mod surface;
pub mod syntax;
pub mod table;
pub mod text;
