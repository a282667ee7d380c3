//! Reading and editing text files by line anchors: every line of a file has a short name, made from
//! a hash of its text, by which an edit finds it again.
pub mod anchors;
pub mod batch;
pub mod command;
pub mod diff;
pub mod edit;
pub mod hash;
pub mod laws;
pub mod normalize;
pub mod rows;
pub mod text;
pub mod window;
