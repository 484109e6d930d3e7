//! Parameter sets of the DGHV fully homomorphic encryption scheme over the
//! integers. The scheme's arithmetic on big integers lives with the program;
//! the parameter choice, which is plain integer arithmetic, lives here.

pub mod context;
pub mod parameters;
