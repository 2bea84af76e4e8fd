//! Arena-backed binary tree used to hold a hierarchy of bounding volumes
//! over a chain of biarcs.

pub mod tree;
