//! A doubly-linked list whose nodes live in an arena and refer to their
//! neighbours by index.

pub mod dllist;
pub mod lemmas;
