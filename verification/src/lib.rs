//! A memory scanner's logic: the encoding of searched values, the scan of
//! region contents, the choice of memory regions, the parsing of module and
//! process file names, and the state of the scanning server.

pub mod scan;
pub mod regions;
pub mod names;
pub mod server;
