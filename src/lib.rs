//! Reading of GenBank flat files: record header, CDS feature table, ORIGIN
//! sequence, and the protein translation of every CDS. A reader of the
//! simpler ID/SQ form stands beside it.
pub mod bases;
pub mod config;
pub mod embl;
pub mod gbk;
pub mod table;
pub mod text;
