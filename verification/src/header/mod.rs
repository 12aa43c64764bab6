//! Header storage for parsed requests.

pub mod map;
pub mod map2;
