//! Multiword anagram search: letter profiles, word groups, a backtracking
//! search over group signatures and the expansion of each abstract solution
//! into concrete sentences.

pub mod anagram;
pub mod groups;
pub mod profile;
pub mod search;
