//! Reading and writing Master Boot Record partition tables.
//!
//! The `mbr` module holds a bit-exact codec for the 512-byte MBR/EBR sector, a resolver
//! that turns relative partition requests into concrete block ranges, and a builder that
//! lays out a whole table (primary sector plus any chain of extended boot records).
pub mod mbr;
