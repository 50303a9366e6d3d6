//! flatland: agent-oriented PCB design tooling, the verified core.
//!
//! Lengths are integer nanometres, so the geometry kept here is exact.
//! The modules hold the parsers, the path algebra, the canonical forms and
//! the small rules of the board model; the command line, file I/O,
//! floating-point geometry and serialisation live around this crate.

pub mod text;
pub mod error;
pub mod decimal;
pub mod numfmt;
pub mod isqrt;
pub mod units;
pub mod utf8len;
pub mod sexpr;
pub mod store;
pub mod index_check;
pub mod emit;
pub mod dsn_wiring;
pub mod dsn_network;
pub mod geom;
pub mod schema;
pub mod canon;
pub mod kicad;
pub mod sim;
pub mod spice_deck;
pub mod edit;
pub mod model;
pub mod validate;
pub mod drc;
pub mod drc_run;
pub mod drc_pairs;
pub mod changes;
pub mod gerber;
pub mod plot;
pub mod islands;
pub mod connect;
pub mod netcheck;
pub mod route_search;
pub mod wiring;
pub mod trace_list;
pub mod route_pieces;
pub mod route_plan;
pub mod ratsnest;
pub mod gerber_write;
pub mod drill_write;
pub mod frontier;
pub mod layer_files;
pub mod template;
pub mod board_diff;
pub mod netlist;
pub mod net_compare;
pub mod assembly;
