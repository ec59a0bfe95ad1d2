//! Addresses into memory segments, and the values that memory cells hold.
use vstd::prelude::*;
use crate::integer::Integer;

verus! {

/// The address `offset` within segment `segment_index`.
#[derive(Clone, Copy, Debug, PartialEq, Eq, Structural)]
pub struct Relocatable {
    pub segment_index: usize,
    pub offset: usize,
}

/// What a memory cell holds, as a mathematical value.
pub enum CellValue {
    Relocatable(Relocatable),
    Int(int),
}

/// A memory cell's content: an address or an integer.
#[derive(Debug, PartialEq, Eq)]
pub enum MaybeRelocatable {
    RelocatableValue(Relocatable),
    Int(Integer),
}

impl View for MaybeRelocatable {
    type V = CellValue;

    open spec fn view(&self) -> CellValue {
        match self {
            MaybeRelocatable::RelocatableValue(r) => CellValue::Relocatable(*r),
            MaybeRelocatable::Int(i) => CellValue::Int(i@),
        }
    }
}

impl MaybeRelocatable {
    /// Whether two cell contents are equal.
    pub fn equals(&self, other: &MaybeRelocatable) -> (r: bool)
        ensures
            r == (self@ == other@),
    {
        match (self, other) {
            (MaybeRelocatable::RelocatableValue(a), MaybeRelocatable::RelocatableValue(b)) => a
                == b,
            (MaybeRelocatable::Int(a), MaybeRelocatable::Int(b)) => a.equals(b),
            _ => false,
        }
    }
}

impl Clone for MaybeRelocatable {
    fn clone(&self) -> (r: Self)
        ensures
            r@ == self@,
    {
        match self {
            MaybeRelocatable::RelocatableValue(a) => MaybeRelocatable::RelocatableValue(*a),
            MaybeRelocatable::Int(i) => MaybeRelocatable::Int(i.clone()),
        }
    }
}

} // verus!
