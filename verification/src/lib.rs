//! Linear and differential cryptanalysis of the Heys substitution-permutation
//! cipher: 16-bit blocks, one 4-bit S-box, seven round keys.

pub mod auxil;
pub mod spn;
pub mod cipher;
pub mod sums;
pub mod table;
mod parallel;
pub mod linear;
pub mod differential;
pub mod search;
pub mod characteristic;
pub mod recovery;
pub mod ranking;
