//! How hints find the variables (ids) of the Cairo code that they run in.
use vstd::prelude::*;
use crate::errors::VirtualMachineError;
use crate::exec_scope::NameMap;
use crate::integer::Integer;
use crate::memory::{cell_at, insert_error_matches, memory_after_insert, Memory};
use crate::relocatable::{CellValue, MaybeRelocatable, Relocatable};

verus! {

/// Where a variable of the Cairo code lives: `offset` cells from the frame pointer.
#[derive(Clone, Copy, Debug, PartialEq, Eq, Structural)]
pub struct HintReference {
    pub offset: i32,
}

impl View for HintReference {
    type V = HintReference;

    open spec fn view(&self) -> HintReference {
        *self
    }
}

/// The part of the virtual machine that hints see: its memory and frame pointer.
pub struct VMProxy {
    pub memory: Memory,
    pub fp: Relocatable,
}

/// The address that `reference` denotes under the frame pointer `fp`, when it
/// lies in `0..usize::MAX`.
pub open spec fn reference_address(reference: HintReference, fp: Relocatable) -> Option<Relocatable> {
    let offset = fp.offset + reference.offset;
    if 0 <= offset < usize::MAX {
        Some(Relocatable { segment_index: fp.segment_index, offset: offset as usize })
    } else {
        None
    }
}

/// The address of the variable `name`, if it is among `ids` and its address is in range.
pub open spec fn var_address(
    ids: Map<Seq<char>, HintReference>,
    name: Seq<char>,
    fp: Relocatable,
) -> Option<Relocatable> {
    if ids.contains_key(name) {
        reference_address(ids[name], fp)
    } else {
        None
    }
}

/// The integer value of the variable `name`; on failure, the address whose cell
/// holds no integer (`None` when the variable has no address).
pub open spec fn read_int_var(
    memory: Seq<Map<nat, CellValue>>,
    ids: Map<Seq<char>, HintReference>,
    fp: Relocatable,
    name: Seq<char>,
) -> Result<int, Option<Relocatable>> {
    match var_address(ids, name, fp) {
        None => Err(None),
        Some(a) => match cell_at(memory, a) {
            Some(CellValue::Int(v)) => Ok(v),
            _ => Err(Some(a)),
        },
    }
}

/// The address held by the variable `name`; on failure, the address whose cell
/// holds no address (`None` when the variable has no address).
pub open spec fn read_ptr_var(
    memory: Seq<Map<nat, CellValue>>,
    ids: Map<Seq<char>, HintReference>,
    fp: Relocatable,
    name: Seq<char>,
) -> Result<Relocatable, Option<Relocatable>> {
    match var_address(ids, name, fp) {
        None => Err(None),
        Some(a) => match cell_at(memory, a) {
            Some(CellValue::Relocatable(p)) => Ok(p),
            _ => Err(Some(a)),
        },
    }
}

/// The error that a failed integer read gives.
pub open spec fn int_read_error(e: VirtualMachineError, failure: Option<Relocatable>) -> bool {
    match failure {
        None => e matches VirtualMachineError::FailedToGetIds,
        Some(a) => e matches VirtualMachineError::ExpectedInteger(x) && x@ == CellValue::Relocatable(a),
    }
}

/// The error that a failed address read gives.
pub open spec fn ptr_read_error(e: VirtualMachineError, failure: Option<Relocatable>) -> bool {
    match failure {
        None => e matches VirtualMachineError::FailedToGetIds,
        Some(a) => e matches VirtualMachineError::ExpectedRelocatable(x) && x@
            == CellValue::Relocatable(a),
    }
}

/// The address that `reference` denotes under `fp`.
pub fn compute_addr_from_reference(reference: &HintReference, fp: &Relocatable) -> (r: Option<
    Relocatable,
>)
    ensures
        r == reference_address(*reference, *fp),
{
    let offset: i128 = fp.offset as i128 + reference.offset as i128;
    if 0 <= offset && offset < usize::MAX as i128 {
        Some(Relocatable { segment_index: fp.segment_index, offset: offset as usize })
    } else {
        None
    }
}

/// The address of the variable `var_name`.
pub fn get_relocatable_from_var_name(
    var_name: &str,
    vm_proxy: &VMProxy,
    ids_data: &NameMap<HintReference>,
) -> (r: Result<Relocatable, VirtualMachineError>)
    ensures
        match var_address(ids_data@, var_name@, vm_proxy.fp) {
            Some(a) => r == Ok::<Relocatable, VirtualMachineError>(a),
            None => r matches Err(VirtualMachineError::FailedToGetIds),
        },
{
    match ids_data.get(var_name) {
        Some(reference) => match compute_addr_from_reference(reference, &vm_proxy.fp) {
            Some(a) => Ok(a),
            None => Err(VirtualMachineError::FailedToGetIds),
        },
        None => Err(VirtualMachineError::FailedToGetIds),
    }
}

/// The integer value of the variable `var_name`.
pub fn get_integer_from_var_name<'a>(
    var_name: &str,
    vm_proxy: &'a VMProxy,
    ids_data: &NameMap<HintReference>,
) -> (r: Result<&'a Integer, VirtualMachineError>)
    ensures
        match var_address(ids_data@, var_name@, vm_proxy.fp) {
            Some(a) => match cell_at(vm_proxy.memory@, a) {
                Some(CellValue::Int(v)) => r matches Ok(i) && i@ == v,
                _ => r matches Err(VirtualMachineError::ExpectedInteger(e)) && e@
                    == CellValue::Relocatable(a),
            },
            None => r matches Err(VirtualMachineError::FailedToGetIds),
        },
{
    let addr = get_relocatable_from_var_name(var_name, vm_proxy, ids_data)?;
    vm_proxy.memory.get_integer(&addr)
}

/// The address that the variable `var_name` (a pointer) holds.
pub fn get_ptr_from_var_name(
    var_name: &str,
    vm_proxy: &VMProxy,
    ids_data: &NameMap<HintReference>,
) -> (r: Result<Relocatable, VirtualMachineError>)
    ensures
        match var_address(ids_data@, var_name@, vm_proxy.fp) {
            Some(a) => match cell_at(vm_proxy.memory@, a) {
                Some(CellValue::Relocatable(p)) => r == Ok::<Relocatable, VirtualMachineError>(p),
                _ => r matches Err(VirtualMachineError::ExpectedRelocatable(e)) && e@
                    == CellValue::Relocatable(a),
            },
            None => r matches Err(VirtualMachineError::FailedToGetIds),
        },
{
    let addr = get_relocatable_from_var_name(var_name, vm_proxy, ids_data)?;
    vm_proxy.memory.get_relocatable(&addr)
}

/// Writes `value` into the variable `var_name` (see `memory_after_insert`).
pub fn insert_value_from_var_name(
    var_name: &str,
    value: MaybeRelocatable,
    vm_proxy: &mut VMProxy,
    ids_data: &NameMap<HintReference>,
) -> (r: Result<(), VirtualMachineError>)
    ensures
        final(vm_proxy).fp == old(vm_proxy).fp,
        match var_address(ids_data@, var_name@, old(vm_proxy).fp) {
            Some(a) => match memory_after_insert(old(vm_proxy).memory@, a, value@) {
                Ok(m) => r is Ok && final(vm_proxy).memory@ == m,
                Err(refusal) => r matches Err(VirtualMachineError::MemoryError(e))
                    && insert_error_matches(e, refusal, old(vm_proxy).memory@, a, value@)
                    && final(vm_proxy).memory@ == old(vm_proxy).memory@,
            },
            None => r matches Err(VirtualMachineError::FailedToGetIds) && final(vm_proxy).memory@
                == old(vm_proxy).memory@,
        },
{
    let addr = get_relocatable_from_var_name(var_name, vm_proxy, ids_data)?;
    vm_proxy.memory.insert_value(&addr, value)
}

} // verus!
