use cairo_rs::errors::VirtualMachineError;
use cairo_rs::exec_scope::{ExecutionScopes, NameMap};
use cairo_rs::hint_utils::{HintReference, VMProxy};
use cairo_rs::integer::Integer;
use cairo_rs::keccak_utils::{
    check_no_nones_in_range, digest_halves, left_pad, unsafe_keccak, unsafe_keccak_finalize,
};
use cairo_rs::memory::Memory;
use cairo_rs::relocatable::{MaybeRelocatable, Relocatable};
use sha3::{Digest, Keccak256};

fn addr(segment_index: usize, offset: usize) -> Relocatable {
    Relocatable { segment_index, offset }
}

fn int_cell(v: i64) -> MaybeRelocatable {
    MaybeRelocatable::Int(Integer::from_i64(v))
}

fn int_bytes(bytes: &[u8]) -> MaybeRelocatable {
    MaybeRelocatable::Int(Integer::from_bytes_be(bytes))
}

fn hex(s: &str) -> Vec<u8> {
    (0..s.len()).step_by(2).map(|i| u8::from_str_radix(&s[i..i + 2], 16).unwrap()).collect()
}

/// Segments 0, 1 and 2; the frame pointer at (1, 10); data words from (2, 0).
fn vm_with(cells: Vec<(Relocatable, MaybeRelocatable)>) -> VMProxy {
    let mut memory = Memory::new();
    memory.add_segment();
    memory.add_segment();
    memory.add_segment();
    for (key, value) in cells {
        memory.insert(&key, &value).unwrap();
    }
    VMProxy { memory, fp: addr(1, 10) }
}

/// `names[i]` lives at fp - (len - i).
fn ids(names: &[&str]) -> NameMap<HintReference> {
    let mut ids = NameMap::new();
    let n = names.len() as i32;
    for (i, name) in names.iter().enumerate() {
        ids.insert(name.to_string(), HintReference { offset: i as i32 - n });
    }
    ids
}

/// ids length, data, high, low at (1, 6), (1, 7), (1, 8), (1, 9).
fn keccak_vm(length: MaybeRelocatable, words: Vec<MaybeRelocatable>) -> VMProxy {
    let mut cells = vec![
        (addr(1, 6), length),
        (addr(1, 7), MaybeRelocatable::RelocatableValue(addr(2, 0))),
    ];
    for (i, w) in words.into_iter().enumerate() {
        cells.push((addr(2, i), w));
    }
    vm_with(cells)
}

fn keccak_ids() -> NameMap<HintReference> {
    ids(&["length", "data", "high", "low"])
}

fn expected_halves(input: &[u8]) -> (MaybeRelocatable, MaybeRelocatable) {
    let digest = Keccak256::digest(input).to_vec();
    (int_bytes(&digest[..16]), int_bytes(&digest[16..32]))
}

#[test]
fn unsafe_keccak_empty_input() {
    let mut vm = keccak_vm(int_cell(0), vec![]);
    let scopes: ExecutionScopes<Integer> = ExecutionScopes::new();
    assert_eq!(unsafe_keccak(&mut vm, &scopes, &keccak_ids()), Ok(()));
    assert_eq!(
        vm.memory.get(&addr(1, 8)),
        Some(&int_bytes(&hex("c5d2460186f7233c927e7db2dcc703c0")))
    );
    assert_eq!(
        vm.memory.get(&addr(1, 9)),
        Some(&int_bytes(&hex("e500b653ca82273b7bfad8045d85a470")))
    );
}

#[test]
fn unsafe_keccak_abc() {
    let mut vm = keccak_vm(int_cell(3), vec![int_cell(0x616263)]);
    let scopes: ExecutionScopes<Integer> = ExecutionScopes::new();
    assert_eq!(unsafe_keccak(&mut vm, &scopes, &keccak_ids()), Ok(()));
    assert_eq!(
        vm.memory.get(&addr(1, 8)),
        Some(&int_bytes(&hex("4e03657aea45a94fc7d47ba826c8d667")))
    );
    assert_eq!(
        vm.memory.get(&addr(1, 9)),
        Some(&int_bytes(&hex("c0d1e6e33a64a036ec44f58fa12d6c45")))
    );
}

#[test]
fn unsafe_keccak_pads_words() {
    // 20 bytes: a full word of value 1 (15 zero bytes, then 1), then 4 bytes of value 2
    let mut vm = keccak_vm(int_cell(20), vec![int_cell(1), int_cell(2)]);
    let scopes: ExecutionScopes<Integer> = ExecutionScopes::new();
    assert_eq!(unsafe_keccak(&mut vm, &scopes, &keccak_ids()), Ok(()));
    let mut input = vec![0u8; 15];
    input.push(1);
    input.extend_from_slice(&[0, 0, 0, 2]);
    let (high, low) = expected_halves(&input);
    assert_eq!(vm.memory.get(&addr(1, 8)), Some(&high));
    assert_eq!(vm.memory.get(&addr(1, 9)), Some(&low));
}

#[test]
fn unsafe_keccak_word_too_big() {
    let mut vm = keccak_vm(int_cell(3), vec![int_cell(1 << 24)]);
    let scopes: ExecutionScopes<Integer> = ExecutionScopes::new();
    assert_eq!(
        unsafe_keccak(&mut vm, &scopes, &keccak_ids()),
        Err(VirtualMachineError::InvalidWordSize(Integer::from_i64(1 << 24)))
    );
    assert_eq!(vm.memory.get(&addr(1, 8)), None);
}

#[test]
fn unsafe_keccak_negative_word() {
    let mut vm = keccak_vm(int_cell(3), vec![int_cell(-1)]);
    let scopes: ExecutionScopes<Integer> = ExecutionScopes::new();
    assert_eq!(
        unsafe_keccak(&mut vm, &scopes, &keccak_ids()),
        Err(VirtualMachineError::InvalidWordSize(Integer::from_i64(-1)))
    );
}

#[test]
fn unsafe_keccak_missing_word() {
    let mut vm = keccak_vm(int_cell(17), vec![int_cell(1)]);
    let scopes: ExecutionScopes<Integer> = ExecutionScopes::new();
    assert_eq!(
        unsafe_keccak(&mut vm, &scopes, &keccak_ids()),
        Err(VirtualMachineError::ExpectedInteger(MaybeRelocatable::RelocatableValue(addr(2, 1))))
    );
}

#[test]
fn unsafe_keccak_max_size() {
    let mut vm = keccak_vm(int_cell(3), vec![int_cell(0x616263)]);
    let mut scopes: ExecutionScopes<Integer> = ExecutionScopes::new();
    scopes.assign_or_update_variable("__keccak_max_size", Integer::from_i64(2));
    assert_eq!(
        unsafe_keccak(&mut vm, &scopes, &keccak_ids()),
        Err(VirtualMachineError::KeccakMaxSize(Integer::from_i64(3), Integer::from_i64(2)))
    );
    let mut scopes: ExecutionScopes<Integer> = ExecutionScopes::new();
    scopes.assign_or_update_variable("__keccak_max_size", Integer::from_i64(3));
    assert_eq!(unsafe_keccak(&mut vm, &scopes, &keccak_ids()), Ok(()));
}

#[test]
fn unsafe_keccak_invalid_length() {
    let mut vm = keccak_vm(int_cell(-1), vec![]);
    let scopes: ExecutionScopes<Integer> = ExecutionScopes::new();
    assert_eq!(
        unsafe_keccak(&mut vm, &scopes, &keccak_ids()),
        Err(VirtualMachineError::InvalidKeccakInputLength(Integer::from_i64(-1)))
    );
}

#[test]
fn unsafe_keccak_length_not_integer() {
    let mut vm = keccak_vm(MaybeRelocatable::RelocatableValue(addr(2, 0)), vec![]);
    let scopes: ExecutionScopes<Integer> = ExecutionScopes::new();
    assert_eq!(
        unsafe_keccak(&mut vm, &scopes, &keccak_ids()),
        Err(VirtualMachineError::ExpectedInteger(MaybeRelocatable::RelocatableValue(addr(1, 6))))
    );
}

#[test]
fn unsafe_keccak_data_not_pointer() {
    let mut vm = vm_with(vec![(addr(1, 6), int_cell(0)), (addr(1, 7), int_cell(0))]);
    let scopes: ExecutionScopes<Integer> = ExecutionScopes::new();
    assert_eq!(
        unsafe_keccak(&mut vm, &scopes, &keccak_ids()),
        Err(VirtualMachineError::ExpectedRelocatable(MaybeRelocatable::RelocatableValue(addr(
            1, 7
        ))))
    );
}

#[test]
fn unsafe_keccak_missing_high() {
    let mut vm = keccak_vm(int_cell(0), vec![]);
    let scopes: ExecutionScopes<Integer> = ExecutionScopes::new();
    assert_eq!(
        unsafe_keccak(&mut vm, &scopes, &{
            let mut ids = keccak_ids();
            ids.remove("high");
            ids
        }),
        Err(VirtualMachineError::FailedToGetIds)
    );
}

#[test]
fn unsafe_keccak_high_already_written() {
    let mut vm = keccak_vm(int_cell(0), vec![]);
    vm.memory.insert(&addr(1, 8), &int_cell(7)).unwrap();
    let scopes: ExecutionScopes<Integer> = ExecutionScopes::new();
    assert!(matches!(
        unsafe_keccak(&mut vm, &scopes, &keccak_ids()),
        Err(VirtualMachineError::MemoryError(_))
    ));
    assert_eq!(vm.memory.get(&addr(1, 9)), None);
}

/// ids keccak_state at (1, 7) and (1, 8) (start and end pointers), high, low at (1, 8)+.
fn finalize_vm(words: Vec<MaybeRelocatable>) -> VMProxy {
    let n = words.len();
    let mut cells = vec![
        (addr(1, 7), MaybeRelocatable::RelocatableValue(addr(2, 0))),
        (addr(1, 8), MaybeRelocatable::RelocatableValue(addr(2, n))),
    ];
    for (i, w) in words.into_iter().enumerate() {
        cells.push((addr(2, i), w));
    }
    vm_with(cells)
}

/// keccak_state at fp - 3, high at fp - 1 ... low at fp + 0 (fp = (1, 10)).
fn finalize_ids() -> NameMap<HintReference> {
    let mut ids = NameMap::new();
    ids.insert("keccak_state".to_string(), HintReference { offset: -3 });
    ids.insert("high".to_string(), HintReference { offset: -1 });
    ids.insert("low".to_string(), HintReference { offset: 0 });
    ids
}

#[test]
fn unsafe_keccak_finalize_two_words() {
    let mut vm = finalize_vm(vec![int_cell(0x616263), int_cell(5)]);
    assert_eq!(unsafe_keccak_finalize(&mut vm, &finalize_ids()), Ok(()));
    let mut input = vec![0u8; 13];
    input.extend_from_slice(b"abc");
    input.extend_from_slice(&[0u8; 15]);
    input.push(5);
    let (high, low) = expected_halves(&input);
    assert_eq!(vm.memory.get(&addr(1, 9)), Some(&high));
    assert_eq!(vm.memory.get(&addr(1, 10)), Some(&low));
}

#[test]
fn unsafe_keccak_finalize_empty_range() {
    let mut vm = finalize_vm(vec![]);
    assert_eq!(unsafe_keccak_finalize(&mut vm, &finalize_ids()), Ok(()));
    assert_eq!(
        vm.memory.get(&addr(1, 9)),
        Some(&int_bytes(&hex("c5d2460186f7233c927e7db2dcc703c0")))
    );
    assert_eq!(
        vm.memory.get(&addr(1, 10)),
        Some(&int_bytes(&hex("e500b653ca82273b7bfad8045d85a470")))
    );
}

#[test]
fn unsafe_keccak_finalize_agrees_with_unsafe_keccak() {
    let mut a = finalize_vm(vec![int_cell(0x616263), int_cell(9)]);
    assert_eq!(unsafe_keccak_finalize(&mut a, &finalize_ids()), Ok(()));
    let mut b = keccak_vm(int_cell(32), vec![int_cell(0x616263), int_cell(9)]);
    let scopes: ExecutionScopes<Integer> = ExecutionScopes::new();
    assert_eq!(unsafe_keccak(&mut b, &scopes, &keccak_ids()), Ok(()));
    assert_eq!(a.memory.get(&addr(1, 9)), b.memory.get(&addr(1, 8)));
    assert_eq!(a.memory.get(&addr(1, 10)), b.memory.get(&addr(1, 9)));
}

#[test]
fn unsafe_keccak_finalize_none_in_range() {
    let mut vm = vm_with(vec![
        (addr(1, 7), MaybeRelocatable::RelocatableValue(addr(2, 0))),
        (addr(1, 8), MaybeRelocatable::RelocatableValue(addr(2, 2))),
        (addr(2, 1), int_cell(1)),
    ]);
    assert_eq!(
        unsafe_keccak_finalize(&mut vm, &finalize_ids()),
        Err(VirtualMachineError::NoneInMemoryRange)
    );
}

#[test]
fn unsafe_keccak_finalize_relocatable_word() {
    let mut vm = finalize_vm(vec![int_cell(1), MaybeRelocatable::RelocatableValue(addr(0, 0))]);
    assert_eq!(
        unsafe_keccak_finalize(&mut vm, &finalize_ids()),
        Err(VirtualMachineError::ExpectedInteger(MaybeRelocatable::RelocatableValue(addr(0, 0))))
    );
}

#[test]
fn unsafe_keccak_finalize_different_segments() {
    let mut vm = vm_with(vec![
        (addr(1, 7), MaybeRelocatable::RelocatableValue(addr(2, 0))),
        (addr(1, 8), MaybeRelocatable::RelocatableValue(addr(0, 0))),
    ]);
    assert_eq!(
        unsafe_keccak_finalize(&mut vm, &finalize_ids()),
        Err(VirtualMachineError::DiffIndexSub)
    );
}

#[test]
fn unsafe_keccak_finalize_end_not_pointer() {
    let mut vm = vm_with(vec![
        (addr(1, 7), MaybeRelocatable::RelocatableValue(addr(2, 0))),
        (addr(1, 8), int_cell(3)),
    ]);
    assert_eq!(
        unsafe_keccak_finalize(&mut vm, &finalize_ids()),
        Err(VirtualMachineError::ExpectedRelocatable(MaybeRelocatable::RelocatableValue(addr(
            1, 8
        ))))
    );
}

#[test]
fn left_pad_prepends_zeros() {
    assert_eq!(left_pad(&[1, 2], 3), vec![0, 0, 0, 1, 2]);
    assert_eq!(left_pad(&[], 2), vec![0, 0]);
    assert_eq!(left_pad(&[7], 0), vec![7]);
}

#[test]
fn check_no_nones_in_range_finds_gaps() {
    assert_eq!(check_no_nones_in_range(&vec![Some(1), Some(2)]), Ok(()));
    assert_eq!(
        check_no_nones_in_range(&vec![Some(1), None]),
        Err(VirtualMachineError::NoneInMemoryRange)
    );
    let empty: Vec<Option<u8>> = vec![];
    assert_eq!(check_no_nones_in_range(&empty), Ok(()));
}

#[test]
fn digest_halves_splits_digest() {
    let digest: Vec<u8> = (0u8..32).collect();
    let (high, low) = digest_halves(&digest);
    assert_eq!(high, Integer::from_bytes_be(&digest[..16]));
    assert_eq!(low, Integer::from_bytes_be(&digest[16..]));
    // leading zero bytes do not matter
    assert_eq!(high, Integer::from_bytes_be(&digest[1..16]));
}

#[test]
fn unsafe_keccak_finalize_negative_word() {
    let mut vm = finalize_vm(vec![int_cell(1), int_cell(-1)]);
    assert_eq!(
        unsafe_keccak_finalize(&mut vm, &finalize_ids()),
        Err(VirtualMachineError::InvalidWordSize(Integer::from_i64(-1)))
    );
    assert_eq!(vm.memory.get(&addr(1, 9)), None);
    assert_eq!(vm.memory.get(&addr(1, 10)), None);
}

#[test]
fn unsafe_keccak_finalize_word_too_big() {
    let mut big = vec![1u8];
    big.extend_from_slice(&[0u8; 16]);
    let mut vm = finalize_vm(vec![int_bytes(&big)]);
    assert_eq!(
        unsafe_keccak_finalize(&mut vm, &finalize_ids()),
        Err(VirtualMachineError::InvalidWordSize(Integer::from_bytes_be(&big)))
    );
    assert_eq!(vm.memory.get(&addr(1, 9)), None);
    // the largest word that 16 bytes hold is accepted
    let mut vm = finalize_vm(vec![int_bytes(&[0xff; 16])]);
    assert_eq!(unsafe_keccak_finalize(&mut vm, &finalize_ids()), Ok(()));
    let (high, low) = expected_halves(&[0xff; 16]);
    assert_eq!(vm.memory.get(&addr(1, 9)), Some(&high));
    assert_eq!(vm.memory.get(&addr(1, 10)), Some(&low));
}

#[test]
fn unsafe_keccak_finalize_end_before_start() {
    let mut vm = vm_with(vec![
        (addr(1, 7), MaybeRelocatable::RelocatableValue(addr(2, 3))),
        (addr(1, 8), MaybeRelocatable::RelocatableValue(addr(2, 1))),
    ]);
    assert_eq!(unsafe_keccak_finalize(&mut vm, &finalize_ids()), Ok(()));
    assert_eq!(
        vm.memory.get(&addr(1, 9)),
        Some(&int_bytes(&hex("c5d2460186f7233c927e7db2dcc703c0")))
    );
    assert_eq!(
        vm.memory.get(&addr(1, 10)),
        Some(&int_bytes(&hex("e500b653ca82273b7bfad8045d85a470")))
    );
}

#[test]
fn unsafe_keccak_ignores_cells_past_its_words() {
    let mut a = keccak_vm(int_cell(3), vec![int_cell(0x616263)]);
    let mut b = keccak_vm(int_cell(3), vec![int_cell(0x616263), int_cell(99)]);
    let scopes: ExecutionScopes<Integer> = ExecutionScopes::new();
    assert_eq!(unsafe_keccak(&mut a, &scopes, &keccak_ids()), Ok(()));
    assert_eq!(unsafe_keccak(&mut b, &scopes, &keccak_ids()), Ok(()));
    assert_eq!(a.memory.get(&addr(1, 8)), b.memory.get(&addr(1, 8)));
    assert_eq!(a.memory.get(&addr(1, 9)), b.memory.get(&addr(1, 9)));
}
