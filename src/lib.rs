//! Storage of one byte payload at the end of a program's own executable image.
//!
//! An image is a program region, one marker, then the payload. The modules here
//! hold the verified logic: the marker, a streaming scanner that finds it, the
//! construction and reading of images, and the decisions of the handoff that
//! lets a running program have its own file rewritten.
pub mod marker;
pub mod scanner;
pub mod image;
pub mod reader;
pub mod handoff;
