//! A primordial soup of self-modifying BFF programs: a verified interpreter
//! for the ten-instruction BFF language, the soup of tapes that pairs and runs
//! them, and the statistics that describe the soup.

pub mod constants;
pub mod interpreter;
pub mod order;
mod random;
pub mod soup;
pub mod stats;
pub mod catalogue;
