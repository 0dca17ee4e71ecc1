//! Base-13 to base-9 rotating lane conversion for a Keccak-style round,
//! arranged as a witness trace whose rows obey the running-sum, lookup and
//! block-count identities of the arithmetic circuit.
//!
//! - `slicer`: how a lane's digit positions are cut into groups.
//! - `bignum`: arbitrary-precision naturals.
//! - `block_count`: block-count accumulation and the final range check.
//! - `conversion`: one digit-group row.
//! - `lane`: a whole lane, and the rotation amounts.
//! - `laws`: the input running sum, the rotation offset, the block totals.
//! - `rotated`: the output value is the rotated boolean lane.
pub mod bignum;
pub mod block_count;
pub mod conversion;
pub mod lane;
pub mod laws;
pub mod rotated;
pub mod slicer;
