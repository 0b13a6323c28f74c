//! Point estimation for feature-allocation matrices: an alignment-invariant
//! loss between binary matrices whose columns are exchangeable, and a local
//! search for the matrix of least expected loss over a set of draws.
pub mod matrix;
pub mod cost;
pub mod perm;
pub mod assignment;
pub mod loss;
pub mod laws;
pub mod candidate;
pub mod random;
pub mod timers;
pub mod search;
pub mod init;
pub mod pipeline;

