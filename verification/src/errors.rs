//! Errors of memory accesses and of hints.
use vstd::prelude::*;
use crate::exec_scope::ExecScopeError;
use crate::integer::Integer;
use crate::relocatable::MaybeRelocatable;

verus! {

/// Why a memory access failed.
#[derive(Debug, PartialEq, Eq)]
pub enum MemoryError {
    /// The segment (first field) does not exist; the second field is the number of segments.
    UnallocatedSegment(usize, usize),
    /// The cell (first field) already holds a value (second) that differs from the one written (third).
    InconsistentMemory(MaybeRelocatable, MaybeRelocatable, MaybeRelocatable),
}

/// Why a hint failed.
#[derive(Debug, PartialEq, Eq)]
pub enum VirtualMachineError {
    MemoryError(MemoryError),
    /// The cell at this address does not hold an integer.
    ExpectedInteger(MaybeRelocatable),
    /// The cell at this address does not hold an address.
    ExpectedRelocatable(MaybeRelocatable),
    /// A variable is not among the hint's references, or its address is out of range.
    FailedToGetIds,
    /// The innermost scope has no integer variable of this name.
    VariableNotInScopeError(String),
    MainScopeError(ExecScopeError),
    /// The keccak input length (first field) exceeds the maximum allowed (second).
    KeccakMaxSize(Integer, Integer),
    /// The keccak input length is not a `u64`.
    InvalidKeccakInputLength(Integer),
    /// A keccak input word does not fit in its number of bytes.
    InvalidWordSize(Integer),
    /// A cell of a memory range is empty.
    NoneInMemoryRange,
    /// A cell of a memory range does not hold an integer.
    ExpectedIntAtRange(Option<MaybeRelocatable>),
    /// Two addresses of different segments were subtracted.
    DiffIndexSub,
}

} // verus!
