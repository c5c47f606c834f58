//! Local optimisation passes over straight-line blocks of a small typed
//! intermediate representation: local value numbering and dead code
//! elimination, together with the data model they work on.

pub mod builder;
pub mod dce;
pub mod liveness;
pub mod lvn;
pub mod meaning;
pub mod names;
pub mod numbering;
pub mod types;
