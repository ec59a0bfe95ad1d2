use cairo_rs::errors::{MemoryError, VirtualMachineError};
use cairo_rs::exec_scope::{ExecutionScopes, NameMap};
use cairo_rs::hint_utils::{HintReference, VMProxy};
use cairo_rs::integer::Integer;
use cairo_rs::memory::Memory;
use cairo_rs::memset_utils::{memset_continue_loop, memset_enter_scope};
use cairo_rs::relocatable::{MaybeRelocatable, Relocatable};

fn addr(segment_index: usize, offset: usize) -> Relocatable {
    Relocatable { segment_index, offset }
}

fn int_cell(v: i64) -> MaybeRelocatable {
    MaybeRelocatable::Int(Integer::from_i64(v))
}

/// A machine with segments 0 and 1, the frame pointer at (1, fp), and the given cells.
fn vm_with(fp: usize, cells: Vec<(Relocatable, MaybeRelocatable)>) -> VMProxy {
    let mut memory = Memory::new();
    memory.add_segment();
    memory.add_segment();
    for (key, value) in cells {
        memory.insert(&key, &value).unwrap();
    }
    VMProxy { memory, fp: addr(1, fp) }
}

/// One variable, one cell below the frame pointer.
fn ids(name: &str) -> NameMap<HintReference> {
    let mut ids = NameMap::new();
    ids.insert(name.to_string(), HintReference { offset: -1 });
    ids
}

#[test]
fn memset_enter_scope_valid() {
    let mut vm = vm_with(2, vec![(addr(1, 1), int_cell(5))]);
    let mut exec_scopes: ExecutionScopes<Integer> = ExecutionScopes::new();
    assert!(memset_enter_scope(&mut vm, &mut exec_scopes, &ids("n")).is_ok());
    assert_eq!(exec_scopes.data.len(), 2);
    assert_eq!(
        exec_scopes.get_local_variables().unwrap().get("n"),
        Some(&Integer::from_i64(5))
    );
}

#[test]
fn memset_enter_scope_invalid() {
    let mut vm = vm_with(2, vec![(addr(1, 1), MaybeRelocatable::RelocatableValue(addr(1, 0)))]);
    let mut exec_scopes: ExecutionScopes<Integer> = ExecutionScopes::new();
    assert_eq!(
        memset_enter_scope(&mut vm, &mut exec_scopes, &ids("n")),
        Err(VirtualMachineError::ExpectedInteger(MaybeRelocatable::RelocatableValue(addr(1, 1))))
    );
    assert_eq!(exec_scopes.data.len(), 1);
}

#[test]
fn memset_continue_loop_valid_continue_loop_equal_1() {
    let mut vm = vm_with(1, vec![(addr(1, 1), int_cell(5))]);
    let mut exec_scopes: ExecutionScopes<Integer> = ExecutionScopes::new();
    exec_scopes.assign_or_update_variable("n", Integer::from_i64(1));
    assert!(memset_continue_loop(&mut vm, &mut exec_scopes, &ids("continue_loop")).is_ok());
    assert_eq!(vm.memory.get(&addr(1, 0)), Some(&int_cell(0)));
    assert_eq!(
        exec_scopes.get_local_variables().unwrap().get("n"),
        Some(&Integer::from_i64(0))
    );
}

#[test]
fn memset_continue_loop_valid_continue_loop_equal_5() {
    let mut vm = vm_with(1, vec![(addr(1, 2), int_cell(5))]);
    let mut exec_scopes: ExecutionScopes<Integer> = ExecutionScopes::new();
    exec_scopes.assign_or_update_variable("n", Integer::from_i64(5));
    assert!(memset_continue_loop(&mut vm, &mut exec_scopes, &ids("continue_loop")).is_ok());
    assert_eq!(vm.memory.get(&addr(1, 0)), Some(&int_cell(1)));
    assert_eq!(
        exec_scopes.get_local_variables().unwrap().get("n"),
        Some(&Integer::from_i64(4))
    );
}

#[test]
fn memset_continue_loop_variable_not_in_scope_error() {
    let mut vm = vm_with(3, vec![(addr(1, 2), int_cell(5))]);
    let mut exec_scopes: ExecutionScopes<Integer> = ExecutionScopes::new();
    assert_eq!(
        memset_continue_loop(&mut vm, &mut exec_scopes, &ids("continue_loop")),
        Err(VirtualMachineError::VariableNotInScopeError("n".to_string()))
    );
}

#[test]
fn memset_continue_loop_insert_error() {
    let mut vm = vm_with(1, vec![(addr(1, 0), int_cell(5))]);
    let mut exec_scopes: ExecutionScopes<Integer> = ExecutionScopes::new();
    exec_scopes.assign_or_update_variable("n", Integer::from_i64(1));
    assert_eq!(
        memset_continue_loop(&mut vm, &mut exec_scopes, &ids("continue_loop")),
        Err(VirtualMachineError::MemoryError(MemoryError::InconsistentMemory(
            MaybeRelocatable::RelocatableValue(addr(1, 0)),
            int_cell(5),
            int_cell(0)
        )))
    );
    // nothing changed: n is still 1
    assert_eq!(
        exec_scopes.get_local_variables().unwrap().get("n"),
        Some(&Integer::from_i64(1))
    );
}

#[test]
fn memset_enter_scope_missing_reference() {
    let mut vm = vm_with(2, vec![(addr(1, 1), int_cell(5))]);
    let mut exec_scopes: ExecutionScopes<Integer> = ExecutionScopes::new();
    assert_eq!(
        memset_enter_scope(&mut vm, &mut exec_scopes, &ids("m")),
        Err(VirtualMachineError::FailedToGetIds)
    );
}

#[test]
fn memset_continue_loop_no_scope() {
    let mut vm = vm_with(1, vec![]);
    let mut exec_scopes: ExecutionScopes<Integer> = ExecutionScopes { data: Vec::new() };
    assert_eq!(
        memset_continue_loop(&mut vm, &mut exec_scopes, &ids("continue_loop")),
        Err(VirtualMachineError::MainScopeError(
            cairo_rs::exec_scope::ExecScopeError::NoScopesError
        ))
    );
}

/// The loop of memset runs n times: continue_loop is 1, 1, then 0 for n = 3.
#[test]
fn memset_countdown_runs_n_times() {
    let mut exec_scopes: ExecutionScopes<Integer> = ExecutionScopes::new();
    let mut vm = vm_with(1, vec![(addr(1, 0), int_cell(3))]);
    let mut n_ids = NameMap::new();
    n_ids.insert("n".to_string(), HintReference { offset: -1 });
    memset_enter_scope(&mut vm, &mut exec_scopes, &n_ids).unwrap();
    let mut flags = Vec::new();
    for step in 0..3usize {
        let mut step_vm = vm_with(1 + step, vec![]);
        memset_continue_loop(&mut step_vm, &mut exec_scopes, &ids("continue_loop")).unwrap();
        flags.push(step_vm.memory.get(&addr(1, step)).cloned());
    }
    assert_eq!(flags, vec![Some(int_cell(1)), Some(int_cell(1)), Some(int_cell(0))]);
    assert_eq!(
        exec_scopes.get_local_variables().unwrap().get("n"),
        Some(&Integer::from_i64(0))
    );
    assert!(exec_scopes.exit_scope().is_ok());
    assert!(exec_scopes.get_local_variables().unwrap().is_empty());
}
