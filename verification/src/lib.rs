//! Verified core of a Counter-Strike 2 radar toolkit: VPK archive parsing,
//! map overview parsing, memory signature scanning, player scanning and
//! the binary wire format used by the radar website.
pub mod text;
pub mod vpk;
pub mod memory;
pub mod serialization;
pub mod dumper;
pub mod reader;
pub mod website;
