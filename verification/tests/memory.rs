use cairo_rs::errors::{MemoryError, VirtualMachineError};
use cairo_rs::exec_scope::NameMap;
use cairo_rs::hint_utils::{
    compute_addr_from_reference, get_integer_from_var_name, get_ptr_from_var_name,
    get_relocatable_from_var_name, insert_value_from_var_name, HintReference, VMProxy,
};
use cairo_rs::integer::Integer;
use cairo_rs::memory::Memory;
use cairo_rs::relocatable::{MaybeRelocatable, Relocatable};

fn addr(segment_index: usize, offset: usize) -> Relocatable {
    Relocatable { segment_index, offset }
}

fn int_cell(v: i64) -> MaybeRelocatable {
    MaybeRelocatable::Int(Integer::from_i64(v))
}

#[test]
fn add_segment_returns_base() {
    let mut memory = Memory::new();
    assert_eq!(memory.add_segment(), addr(0, 0));
    assert_eq!(memory.add_segment(), addr(1, 0));
    assert_eq!(memory.data.len(), 2);
}

#[test]
fn insert_is_write_once() {
    let mut memory = Memory::new();
    memory.add_segment();
    assert_eq!(memory.insert(&addr(0, 3), &int_cell(7)), Ok(()));
    assert_eq!(memory.get(&addr(0, 3)), Some(&int_cell(7)));
    assert_eq!(memory.get(&addr(0, 2)), None);
    // writing the same value again changes nothing
    assert_eq!(memory.insert(&addr(0, 3), &int_cell(7)), Ok(()));
    assert_eq!(memory.data[0].len(), 4);
    // writing another value is refused
    assert_eq!(
        memory.insert(&addr(0, 3), &int_cell(8)),
        Err(MemoryError::InconsistentMemory(
            MaybeRelocatable::RelocatableValue(addr(0, 3)),
            int_cell(7),
            int_cell(8)
        ))
    );
    assert_eq!(memory.get(&addr(0, 3)), Some(&int_cell(7)));
}

#[test]
fn insert_into_missing_segment() {
    let mut memory = Memory::new();
    memory.add_segment();
    assert_eq!(
        memory.insert(&addr(1, 0), &int_cell(1)),
        Err(MemoryError::UnallocatedSegment(1, 1))
    );
    assert_eq!(
        memory.insert_value(&addr(3, 0), int_cell(1)),
        Err(VirtualMachineError::MemoryError(MemoryError::UnallocatedSegment(3, 1)))
    );
}

#[test]
fn typed_reads() {
    let mut memory = Memory::new();
    memory.add_segment();
    memory.insert(&addr(0, 0), &int_cell(4)).unwrap();
    memory.insert(&addr(0, 1), &MaybeRelocatable::RelocatableValue(addr(0, 0))).unwrap();
    assert_eq!(memory.get_integer(&addr(0, 0)), Ok(&Integer::from_i64(4)));
    assert_eq!(
        memory.get_integer(&addr(0, 1)),
        Err(VirtualMachineError::ExpectedInteger(MaybeRelocatable::RelocatableValue(addr(0, 1))))
    );
    assert_eq!(memory.get_relocatable(&addr(0, 1)), Ok(addr(0, 0)));
    assert_eq!(
        memory.get_relocatable(&addr(0, 5)),
        Err(VirtualMachineError::ExpectedRelocatable(MaybeRelocatable::RelocatableValue(addr(
            0, 5
        ))))
    );
    assert_eq!(
        memory.get_range(&addr(0, 0), 3),
        vec![Some(int_cell(4)), Some(MaybeRelocatable::RelocatableValue(addr(0, 0))), None]
    );
}

#[test]
fn references_resolve_from_fp() {
    assert_eq!(compute_addr_from_reference(&HintReference { offset: -2 }, &addr(1, 5)), Some(addr(1, 3)));
    assert_eq!(compute_addr_from_reference(&HintReference { offset: -6 }, &addr(1, 5)), None);
    assert_eq!(compute_addr_from_reference(&HintReference { offset: 1 }, &addr(1, usize::MAX - 1)), None);
}

#[test]
fn variables_by_name() {
    let mut memory = Memory::new();
    memory.add_segment();
    memory.add_segment();
    memory.insert(&addr(1, 0), &int_cell(9)).unwrap();
    memory.insert(&addr(1, 1), &MaybeRelocatable::RelocatableValue(addr(0, 4))).unwrap();
    let mut vm = VMProxy { memory, fp: addr(1, 3) };
    let mut ids = NameMap::new();
    ids.insert("x".to_string(), HintReference { offset: -3 });
    ids.insert("p".to_string(), HintReference { offset: -2 });
    ids.insert("y".to_string(), HintReference { offset: -1 });
    assert_eq!(get_relocatable_from_var_name("y", &vm, &ids), Ok(addr(1, 2)));
    assert_eq!(get_relocatable_from_var_name("z", &vm, &ids), Err(VirtualMachineError::FailedToGetIds));
    assert_eq!(get_integer_from_var_name("x", &vm, &ids), Ok(&Integer::from_i64(9)));
    assert_eq!(get_ptr_from_var_name("p", &vm, &ids), Ok(addr(0, 4)));
    assert_eq!(insert_value_from_var_name("y", int_cell(1), &mut vm, &ids), Ok(()));
    assert_eq!(vm.memory.get(&addr(1, 2)), Some(&int_cell(1)));
}
