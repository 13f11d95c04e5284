//! XCPlite BIN calibration containers: reading their records, converting
//! their calibration segments to and from Intel-HEX, and patching them from
//! HEX data; plus the lookups of the CFA tools (frame tables, function
//! symbols, frame base expressions).
pub mod bin_format;
pub mod container;
pub mod error;
pub mod hex_codec;
pub mod hex_properties;
pub mod patch;

pub mod cfa_expr;
pub mod cfa_reader;
pub mod dwarf_reader;
pub mod text;
