//! Verified core of a contract-call command tool.
//!
//! The library turns command-line style argument lists into the JSON
//! argument text demanded by a contract method's declared parameter
//! kinds, converts human-readable token amounts into base units, and
//! packs a prepared call message into a single reversible transport
//! token (and unpacks it again).  Network transport, key handling and
//! schema loading are left to the surrounding program.
pub mod convert;
pub mod envelope;
pub mod hexutil;
pub mod jsontext;
pub mod params;
pub mod strutil;
