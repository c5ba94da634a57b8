//! Disk-usage scanning: a lazily expanded tree of a directory subtree, its
//! flattening into a list of file records, and the sorting, truncation and
//! aligned rendering of that list.
pub mod list;
pub mod node;
