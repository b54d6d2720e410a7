//! Skip lists of integers: a bag kept in sorted levels, of which the lowest
//! holds every element and each higher one a random part of the one below
//! it.

pub mod array_skiplist;
pub mod chance;
pub mod levels;
pub mod list_skiplist;
