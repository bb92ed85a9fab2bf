//! Expansion of compact host-list expressions such as `host[1-10,20]`
//! into the individual host names they denote.

pub mod numeric;
pub mod token;
pub mod expand;
pub mod pipeline;
pub mod theorems;
