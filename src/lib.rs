//! Finds the newest platform version that every mod of a list supports,
//! under optional loader, exact-release and minimum-release constraints.

pub mod logic;
pub mod mod_list;
pub mod types;
