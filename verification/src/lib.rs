//! Execution scopes and builtin hints (memset, keccak) of a Cairo virtual machine,
//! verified with Verus.
pub mod integer;
pub mod exec_scope;
pub mod relocatable;
pub mod errors;
pub mod memory;
pub mod hint_utils;
pub mod memset_utils;
pub mod keccak_utils;
