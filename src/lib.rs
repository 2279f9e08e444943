//! A reader for the Clausewitz save-file text format and a path-directed
//! extractor that turns the resulting tree into a typed snapshot.
//!
//! Reading: `scan` (byte classes and run scanners), `number`, `date`,
//! `value` (the tree and its model), `grammar` (the format as functions on
//! text), `parser` (the reader, proved against `grammar`), `format` (a
//! canonical text for a tree). Extraction: `path`, `dto`, `extract`,
//! `campaign`, `custodian`. Fixtures: `helpers`. What holds of every input:
//! `laws` and `roundtrip`.
pub mod scan;
pub mod number;
pub mod date;
pub mod value;
pub mod grammar;
pub mod parser;
pub mod format;
pub mod path;
pub mod dto;
pub mod extract;
pub mod campaign;
pub mod custodian;
pub mod helpers;
pub mod laws;
pub mod roundtrip;
