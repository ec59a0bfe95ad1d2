//! The hints of Cairo's `unsafe_keccak` and `unsafe_keccak_finalize`: they hash
//! words of memory with Keccak-256 and write the digest as two 128-bit halves.
use vstd::prelude::*;
use vstd::arithmetic::power::pow;
use sha3::{Digest, Keccak256};
use crate::errors::VirtualMachineError;
use crate::exec_scope::{local_variables, ExecutionScopes, NameMap};
use crate::hint_utils::{
    get_integer_from_var_name, get_ptr_from_var_name, get_relocatable_from_var_name,
    int_read_error, ptr_read_error, read_int_var, read_ptr_var, var_address, HintReference,
    VMProxy,
};
use crate::integer::{
    be_encode, be_value, lemma_be_bytes_min_pad, zeros,
    Integer,
};
use crate::memory::{
    cell_at, insert_error_matches, lemma_cell_offset_bound, lemma_insert_agree,
    lemma_insert_cells, lemma_insert_into_empty_cell, memory_after_insert,
};
use crate::relocatable::{CellValue, MaybeRelocatable, Relocatable};

verus! {

/// The Keccak-256 digest of `data`.
pub uninterp spec fn keccak256_digest(data: Seq<u8>) -> Seq<u8>;

/// `sha3::Keccak256::digest` (`Digest::digest`: new, update, finalize) on `data`.
/// Claimed: the digest is a function of `data` alone, and it has 32 bytes.
#[verifier::external_body]
fn keccak256(data: &[u8]) -> (r: Vec<u8>)
    ensures
        r@ == keccak256_digest(data@),
        r@.len() == 32,
{
    Keccak256::digest(data).to_vec()
}

/// The value of the first 16 bytes of a digest, big-endian.
pub open spec fn digest_high(digest: Seq<u8>) -> nat {
    be_value(digest.subrange(0, 16))
}

/// The value of bytes 16 to 31 of a digest, big-endian.
pub open spec fn digest_low(digest: Seq<u8>) -> nat {
    be_value(digest.subrange(16, 32))
}

/// The value of a concatenation: the first part shifted by the length of the second.
pub proof fn lemma_be_value_concat(a: Seq<u8>, b: Seq<u8>)
    ensures
        be_value(a + b) == be_value(a) * pow(256, b.len()) + be_value(b),
    decreases b.len(),
{
    reveal(pow);
    if b.len() == 0 {
        assert(a + b =~= a);
    } else {
        assert((a + b).drop_last() =~= a + b.drop_last());
        lemma_be_value_concat(a, b.drop_last());
        let x = be_value(a) as int;
        let p = pow(256, b.drop_last().len());
        let y = be_value(b.drop_last()) as int;
        assert((x * p + y) * 256 == x * (p * 256) + y * 256) by (nonlinear_arith);
    }
}

/// The two halves of a 32-byte digest are each below `2^128`, and together
/// they give the digest's value: `high * 2^128 + low`.
pub proof fn lemma_digest_halves(digest: Seq<u8>)
    requires
        digest.len() == 32,
    ensures
        digest_high(digest) < pow(256, 16),
        digest_low(digest) < pow(256, 16),
        be_value(digest) == digest_high(digest) * pow(256, 16) + digest_low(digest),
{
    assert(digest =~= digest.subrange(0, 16) + digest.subrange(16, 32));
    lemma_be_value_concat(digest.subrange(0, 16), digest.subrange(16, 32));
    crate::integer::lemma_be_value_upper_bound(digest.subrange(0, 16));
    crate::integer::lemma_be_value_upper_bound(digest.subrange(16, 32));
}

/// The high and low halves of a 32-byte Keccak digest, as integers.
pub fn digest_halves(hashed: &[u8]) -> (r: (Integer, Integer))
    requires
        hashed@.len() == 32,
    ensures
        r.0@ == digest_high(hashed@),
        r.1@ == digest_low(hashed@),
{
    let mut high: Vec<u8> = Vec::new();
    let mut low: Vec<u8> = Vec::new();
    let mut i: usize = 0;
    while i < 16
        invariant
            hashed@.len() == 32,
            i <= 16,
            high@ == hashed@.subrange(0, i as int),
            low@ == hashed@.subrange(16, 16 + i as int),
        decreases 16 - i,
    {
        high.push(hashed[i]);
        low.push(hashed[16 + i]);
        i += 1;
        assert(high@ =~= hashed@.subrange(0, i as int));
        assert(low@ =~= hashed@.subrange(16, 16 + i as int));
    }
    (Integer::from_bytes_be(high.as_slice()), Integer::from_bytes_be(low.as_slice()))
}

/// `n_zeros` zero bytes followed by `bytes_vector`.
pub fn left_pad(bytes_vector: &[u8], n_zeros: usize) -> (r: Vec<u8>)
    requires
        n_zeros + bytes_vector@.len() <= usize::MAX,
    ensures
        r@ == zeros(n_zeros as nat) + bytes_vector@,
{
    let mut res: Vec<u8> = Vec::new();
    let mut i: usize = 0;
    while i < n_zeros
        invariant
            i <= n_zeros,
            res@ == zeros(i as nat),
        decreases n_zeros - i,
    {
        res.push(0u8);
        i += 1;
        assert(res@ =~= zeros(i as nat));
    }
    let mut j: usize = 0;
    while j < bytes_vector.len()
        invariant
            j <= bytes_vector@.len(),
            res@ == zeros(n_zeros as nat) + bytes_vector@.subrange(0, j as int),
        decreases bytes_vector@.len() - j,
    {
        res.push(bytes_vector[j]);
        j += 1;
        assert(res@ =~= zeros(n_zeros as nat) + bytes_vector@.subrange(0, j as int));
    }
    assert(bytes_vector@.subrange(0, bytes_vector@.len() as int) =~= bytes_vector@);
    res
}

/// Fails with `NoneInMemoryRange` exactly when some cell of the range is empty.
pub fn check_no_nones_in_range<T>(range: &Vec<Option<T>>) -> (r: Result<(), VirtualMachineError>)
    ensures
        (forall|i: int| 0 <= i < range@.len() ==> #[trigger] range@[i] is Some) ==> r is Ok,
        !(forall|i: int| 0 <= i < range@.len() ==> #[trigger] range@[i] is Some) ==> r matches Err(
            VirtualMachineError::NoneInMemoryRange,
        ),
{
    let n = range.len();
    let mut i: usize = 0;
    while i < n
        invariant
            n == range@.len(),
            i <= n,
            forall|j: int| 0 <= j < i ==> #[trigger] range@[j] is Some,
        decreases n - i,
    {
        if range[i].is_none() {
            return Err(VirtualMachineError::NoneInMemoryRange);
        }
        i += 1;
    }
    Ok(())
}


/// The number of bytes of word `i` of an input of `length` bytes: 16, or what is left.
pub open spec fn word_len(length: nat, i: nat) -> nat {
    if length >= 16 * i + 16 {
        16
    } else {
        (length - 16 * i) as nat
    }
}

/// The number of 16-byte words that an input of `length` bytes takes.
pub open spec fn word_count(length: nat) -> nat {
    (length + 15) / 16
}

/// The input of `length` bytes that `words` stand for: each word written
/// big-endian with `word_len` bytes.
pub open spec fn keccak_input_bytes(words: Seq<int>, length: nat) -> Seq<u8>
    decreases words.len(),
{
    if words.len() == 0 {
        Seq::empty()
    } else {
        keccak_input_bytes(words.drop_last(), length) + be_encode(
            words.last() as nat,
            word_len(length, (words.len() - 1) as nat),
        )
    }
}

/// The address of word `i` of the input that starts at `data`.
pub open spec fn word_addr(data: Relocatable, i: nat) -> Relocatable {
    Relocatable { segment_index: data.segment_index, offset: (data.offset + i) as usize }
}

/// Word `i` is an integer `w` with `0 <= w < 256^word_len(length, i)`.
pub open spec fn word_fits(memory: Seq<Map<nat, CellValue>>, data: Relocatable, length: nat, i: nat) -> bool {
    cell_at(memory, word_addr(data, i)) matches Some(CellValue::Int(w)) && 0 <= w < pow(
        256,
        word_len(length, i),
    )
}

/// Every word of the input fits.
pub open spec fn all_words_fit(memory: Seq<Map<nat, CellValue>>, data: Relocatable, length: nat) -> bool {
    forall|i: nat| i < word_count(length) ==> #[trigger] word_fits(memory, data, length, i)
}

/// Word `i` is the first word of the input that does not fit.
pub open spec fn first_misfit(memory: Seq<Map<nat, CellValue>>, data: Relocatable, length: nat, i: nat) -> bool {
    &&& i < word_count(length)
    &&& !word_fits(memory, data, length, i)
    &&& forall|j: nat| j < i ==> #[trigger] word_fits(memory, data, length, j)
}

/// The integers of the first `n` words (zero where a cell holds no integer).
pub open spec fn input_words(memory: Seq<Map<nat, CellValue>>, data: Relocatable, n: nat) -> Seq<int> {
    Seq::new(
        n,
        |i: int|
            match cell_at(memory, word_addr(data, i as nat)) {
                Some(CellValue::Int(w)) => w,
                _ => 0,
            },
    )
}

/// The error that a word that does not fit gives.
pub open spec fn word_error_matches(
    e: VirtualMachineError,
    memory: Seq<Map<nat, CellValue>>,
    data: Relocatable,
    i: nat,
) -> bool {
    match cell_at(memory, word_addr(data, i)) {
        Some(CellValue::Int(w)) => e matches VirtualMachineError::InvalidWordSize(x) && x@ == w,
        _ => e matches VirtualMachineError::ExpectedInteger(a) && a@ == CellValue::Relocatable(
            word_addr(data, i),
        ),
    }
}

/// The innermost scope sets `__keccak_max_size` below `length`.
pub open spec fn exceeds_max_size(scopes: Seq<Map<Seq<char>, int>>, length: int) -> bool {
    local_variables(scopes) matches Some(locals) && locals.contains_key("__keccak_max_size"@)
        && length > locals["__keccak_max_size"@]
}

/// The outcome of writing the two halves of the 32-byte `digest` (each below
/// `2^128`) to `high` and then `low`: a refused write fails the hint and leaves
/// what was written before it.
pub open spec fn digest_written(
    r: Result<(), VirtualMachineError>,
    before: Seq<Map<nat, CellValue>>,
    after: Seq<Map<nat, CellValue>>,
    high: Relocatable,
    low: Relocatable,
    digest: Seq<u8>,
) -> bool {
    let h = CellValue::Int(digest_high(digest) as int);
    let l = CellValue::Int(digest_low(digest) as int);
    &&& digest.len() == 32
    &&& digest_high(digest) < pow(256, 16)
    &&& digest_low(digest) < pow(256, 16)
    &&& match memory_after_insert(before, high, h) {
        Err(refusal) => r matches Err(VirtualMachineError::MemoryError(e)) && insert_error_matches(
            e,
            refusal,
            before,
            high,
            h,
        ) && after == before,
        Ok(m1) => match memory_after_insert(m1, low, l) {
            Err(refusal) => r matches Err(VirtualMachineError::MemoryError(e))
                && insert_error_matches(e, refusal, m1, low, l) && after == m1,
            Ok(m2) => r is Ok && after == m2,
        },
    }
}

/// What `unsafe_keccak` does, step by step: read `ids.length` (failing if it
/// exceeds the scope's `__keccak_max_size`), `ids.data`, the addresses of
/// `ids.high` and `ids.low`; require a `u64` length; read each word and check
/// that it fits its number of bytes; hash the words' bytes and write the halves.
/// Every failure before the writes leaves memory unchanged.
pub open spec fn unsafe_keccak_outcome(
    r: Result<(), VirtualMachineError>,
    before: Seq<Map<nat, CellValue>>,
    after: Seq<Map<nat, CellValue>>,
    ids: Map<Seq<char>, HintReference>,
    fp: Relocatable,
    scopes: Seq<Map<Seq<char>, int>>,
) -> bool {
    match read_int_var(before, ids, fp, "length"@) {
        Err(f) => r matches Err(e) && int_read_error(e, f) && after == before,
        Ok(length) => if exceeds_max_size(scopes, length) {
            r matches Err(VirtualMachineError::KeccakMaxSize(a, b)) && a@ == length && b@
                == local_variables(scopes).unwrap()["__keccak_max_size"@] && after == before
        } else {
            match read_ptr_var(before, ids, fp, "data"@) {
                Err(f) => r matches Err(e) && ptr_read_error(e, f) && after == before,
                Ok(data) => if var_address(ids, "high"@, fp) is None || var_address(
                    ids,
                    "low"@,
                    fp,
                ) is None {
                    r matches Err(VirtualMachineError::FailedToGetIds) && after == before
                } else if !(0 <= length <= u64::MAX) {
                    r matches Err(VirtualMachineError::InvalidKeccakInputLength(x)) && x@ == length
                        && after == before
                } else if !all_words_fit(before, data, length as nat) {
                    after == before && exists|i: nat|
                        #[trigger] first_misfit(before, data, length as nat, i) && (r matches Err(e)
                            && word_error_matches(e, before, data, i))
                } else {
                    digest_written(
                        r,
                        before,
                        after,
                        var_address(ids, "high"@, fp).unwrap(),
                        var_address(ids, "low"@, fp).unwrap(),
                        keccak256_digest(
                            keccak_input_bytes(
                                input_words(before, data, word_count(length as nat)),
                                length as nat,
                            ),
                        ),
                    )
                }
            }
        },
    }
}

/// Implements the hint that hashes `ids.length` bytes from `ids.data` (16 per
/// word, big-endian, the last word holding what is left) with Keccak-256 and
/// writes the digest's halves into `ids.high` and `ids.low`.
pub fn unsafe_keccak(
    vm_proxy: &mut VMProxy,
    exec_scopes_proxy: &ExecutionScopes<Integer>,
    ids_data: &NameMap<HintReference>,
) -> (r: Result<(), VirtualMachineError>)
    ensures
        final(vm_proxy).fp == old(vm_proxy).fp,
        unsafe_keccak_outcome(
            r,
            old(vm_proxy).memory@,
            final(vm_proxy).memory@,
            ids_data@,
            old(vm_proxy).fp,
            exec_scopes_proxy@,
        ),
{
    let length = get_integer_from_var_name("length", vm_proxy, ids_data)?.clone();
    if let Ok(keccak_max_size) = exec_scopes_proxy.get_int_ref("__keccak_max_size") {
        if length.is_greater_than(keccak_max_size) {
            return Err(VirtualMachineError::KeccakMaxSize(length.clone(), keccak_max_size.clone()));
        }
    }
    let data = get_ptr_from_var_name("data", vm_proxy, ids_data)?;
    let high_addr = get_relocatable_from_var_name("high", vm_proxy, ids_data)?;
    let low_addr = get_relocatable_from_var_name("low", vm_proxy, ids_data)?;
    let u64_length = match length.to_u64() {
        Some(l) => l,
        None => return Err(VirtualMachineError::InvalidKeccakInputLength(length.clone())),
    };
    let ghost len = u64_length as nat;
    let ghost mem = vm_proxy.memory@;
    let length128 = u64_length as u128;
    let mut keccak_input: Vec<u8> = Vec::new();
    let mut word_i: usize = 0;
    #[verifier::loop_isolation(false)]
    while (word_i as u128) * 16 < length128
        invariant
            length128 == len,
            len <= u64::MAX,
            mem == vm_proxy.memory@,
            word_i <= word_count(len),
            data.offset + word_i <= usize::MAX,
            forall|j: nat| j < word_i ==> #[trigger] word_fits(mem, data, len, j),
            keccak_input@ == keccak_input_bytes(input_words(mem, data, word_i as nat), len),
        decreases word_count(len) - word_i,
    {
        let address = Relocatable {
            segment_index: data.segment_index,
            offset: data.offset + word_i,
        };
        assert(address == word_addr(data, word_i as nat));
        let word = match vm_proxy.memory.get_integer(&address) {
            Ok(w) => w,
            Err(e) => {
                assert(first_misfit(mem, data, len, word_i as nat));
                return Err(e);
            },
        };
        let n_bytes: usize = if length128 - (word_i as u128) * 16 >= 16 {
            16
        } else {
            (length128 - (word_i as u128) * 16) as usize
        };
        assert(n_bytes == word_len(len, word_i as nat));
        if !word.fits_in_bytes(n_bytes) {
            assert(first_misfit(mem, data, len, word_i as nat));
            return Err(VirtualMachineError::InvalidWordSize(word.clone()));
        }
        proof {
            lemma_cell_offset_bound(&vm_proxy.memory, address);
            lemma_be_bytes_min_pad(word@ as nat, n_bytes as nat);
        }
        let (_, bytes) = word.to_bytes_be();
        let mut padded = left_pad(bytes.as_slice(), n_bytes - bytes.len());
        keccak_input.append(&mut padded);
        proof {
            let ws = input_words(mem, data, word_i as nat);
            let ws1 = input_words(mem, data, (word_i + 1) as nat);
            assert(ws1.drop_last() =~= ws);
            assert(ws1.last() == word@);
        }
        word_i += 1;
    }
    let hashed = keccak256(keccak_input.as_slice());
    proof {
        lemma_digest_halves(hashed@);
    }
    let (high, low) = digest_halves(hashed.as_slice());
    vm_proxy.memory.insert_value(&high_addr, MaybeRelocatable::Int(high))?;
    vm_proxy.memory.insert_value(&low_addr, MaybeRelocatable::Int(low))
}


/// The input that `words` stand for in `unsafe_keccak_finalize`: each word
/// written as 16 big-endian bytes.
pub open spec fn finalize_input_bytes(words: Seq<int>) -> Seq<u8>
    decreases words.len(),
{
    if words.len() == 0 {
        Seq::empty()
    } else {
        finalize_input_bytes(words.drop_last()) + be_encode(words.last() as nat, 16)
    }
}

proof fn lemma_be_encode_len(v: nat, n: nat)
    ensures
        be_encode(v, n).len() == n,
    decreases n,
{
    if n > 0 {
        lemma_be_encode_len(v / 256, (n - 1) as nat);
    }
}

/// The input that `unsafe_keccak` hashes has exactly `length` bytes once all
/// its words are read.
pub proof fn lemma_keccak_input_len(words: Seq<int>, length: nat)
    requires
        words.len() <= word_count(length),
    ensures
        keccak_input_bytes(words, length).len() == if length < 16 * words.len() {
            length
        } else {
            16 * words.len()
        },
        words.len() == word_count(length) ==> keccak_input_bytes(words, length).len() == length,
    decreases words.len(),
{
    if words.len() > 0 {
        lemma_keccak_input_len(words.drop_last(), length);
        lemma_be_encode_len(
            words.last() as nat,
            word_len(length, (words.len() - 1) as nat),
        );
    }
}

/// The input that `unsafe_keccak_finalize` hashes has 16 bytes per word.
pub proof fn lemma_finalize_input_len(words: Seq<int>)
    ensures
        finalize_input_bytes(words).len() == 16 * words.len(),
    decreases words.len(),
{
    if words.len() > 0 {
        lemma_finalize_input_len(words.drop_last());
        lemma_be_encode_len(words.last() as nat, 16);
    }
}

/// On non-negative words and a length of 16 bytes per word, both hints hash the
/// same input.
pub proof fn lemma_hints_hash_same_input(words: Seq<int>)
    requires
        forall|i: int| 0 <= i < words.len() ==> 0 <= #[trigger] words[i],
    ensures
        keccak_input_bytes(words, 16 * words.len()) == finalize_input_bytes(words),
    decreases words.len(),
{
    if words.len() > 0 {
        let d = words.drop_last();
        assert forall|i: int| 0 <= i < d.len() implies 0 <= #[trigger] d[i] by {
            assert(d[i] == words[i]);
        }
        lemma_hints_hash_same_input(d);
        assert(keccak_input_bytes(d, 16 * words.len()) == keccak_input_bytes(d, 16 * d.len()))
            by {
            lemma_keccak_input_prefix_len_free(d, 16 * d.len(), 16 * words.len());
        }
        assert(words.last() == words[words.len() - 1]);
    }
}

/// Words that are all complete (16 bytes) encode the same whatever the total length.
proof fn lemma_keccak_input_prefix_len_free(words: Seq<int>, l1: nat, l2: nat)
    requires
        16 * words.len() <= l1,
        16 * words.len() <= l2,
    ensures
        keccak_input_bytes(words, l1) == keccak_input_bytes(words, l2),
    decreases words.len(),
{
    if words.len() > 0 {
        lemma_keccak_input_prefix_len_free(words.drop_last(), l1, l2);
    }
}

/// The address after `a` in its segment.
pub open spec fn next_addr(a: Relocatable) -> Relocatable {
    Relocatable { segment_index: a.segment_index, offset: (a.offset + 1) as usize }
}

/// Every cell of the `n` cells from `start` holds a value.
pub open spec fn all_present(memory: Seq<Map<nat, CellValue>>, start: Relocatable, n: nat) -> bool {
    forall|i: nat| i < n ==> #[trigger] cell_at(memory, word_addr(start, i)) is Some
}

/// Cell `i` from `start` holds an integer `w` with `0 <= w < 2^128`, which 16
/// big-endian bytes can write.
pub open spec fn word16_fits(memory: Seq<Map<nat, CellValue>>, start: Relocatable, i: nat) -> bool {
    cell_at(memory, word_addr(start, i)) matches Some(CellValue::Int(w)) && 0 <= w < pow(256, 16)
}

/// Every one of the `n` words from `start` fits in 16 bytes.
pub open spec fn all_words16_fit(memory: Seq<Map<nat, CellValue>>, start: Relocatable, n: nat) -> bool {
    forall|i: nat| i < n ==> #[trigger] word16_fits(memory, start, i)
}

/// Word `i` is the first of the `n` words from `start` that does not fit in 16 bytes.
pub open spec fn first_word16_misfit(
    memory: Seq<Map<nat, CellValue>>,
    start: Relocatable,
    n: nat,
    i: nat,
) -> bool {
    &&& i < n
    &&& !word16_fits(memory, start, i)
    &&& all_words16_fit(memory, start, i)
}

/// The error that a word of the range that does not fit in 16 bytes gives: an
/// integer out of range is an invalid word, an address is not an integer.
pub open spec fn word16_error_matches(
    e: VirtualMachineError,
    memory: Seq<Map<nat, CellValue>>,
    start: Relocatable,
    i: nat,
) -> bool {
    match cell_at(memory, word_addr(start, i)) {
        Some(CellValue::Int(w)) => e matches VirtualMachineError::InvalidWordSize(x) && x@ == w,
        _ => e matches VirtualMachineError::ExpectedInteger(x) && Some(x@) == cell_at(
            memory,
            word_addr(start, i),
        ),
    }
}

/// The number of cells from `start` to `end` (none when `end` is before `start`).
pub open spec fn range_len(start: Relocatable, end: Relocatable) -> nat {
    if start.offset <= end.offset {
        (end.offset - start.offset) as nat
    } else {
        0
    }
}

/// The integers of the `n` cells from `start` (zero where a cell holds none).
pub open spec fn range_words(memory: Seq<Map<nat, CellValue>>, start: Relocatable, n: nat) -> Seq<int> {
    input_words(memory, start, n)
}

/// What `unsafe_keccak_finalize` does, step by step: read the address of
/// `ids.keccak_state` and the two addresses it holds (start and end of the
/// range, empty when the end is before the start); require them in one segment;
/// require every cell of the range to hold a value, and every word to be an
/// integer written by 16 bytes; hash the words' bytes; read the addresses of
/// `ids.high` and `ids.low`; write the halves. Every failure before the writes
/// leaves memory unchanged.
pub open spec fn unsafe_keccak_finalize_outcome(
    r: Result<(), VirtualMachineError>,
    before: Seq<Map<nat, CellValue>>,
    after: Seq<Map<nat, CellValue>>,
    ids: Map<Seq<char>, HintReference>,
    fp: Relocatable,
) -> bool {
    match var_address(ids, "keccak_state"@, fp) {
        None => r matches Err(VirtualMachineError::FailedToGetIds) && after == before,
        Some(state) => match read_ptr_var(before, ids, fp, "keccak_state"@) {
            Err(f) => r matches Err(e) && ptr_read_error(e, f) && after == before,
            Ok(start) => match cell_at(before, next_addr(state)) {
                Some(CellValue::Relocatable(end)) => if end.segment_index != start.segment_index {
                    r matches Err(VirtualMachineError::DiffIndexSub) && after == before
                } else {
                    let n = range_len(start, end);
                    if !all_present(before, start, n) {
                        r matches Err(VirtualMachineError::NoneInMemoryRange) && after == before
                    } else if !all_words16_fit(before, start, n) {
                        after == before && exists|i: nat|
                            #[trigger] first_word16_misfit(before, start, n, i) && (r matches Err(e)
                                && word16_error_matches(e, before, start, i))
                    } else if var_address(ids, "high"@, fp) is None || var_address(
                        ids,
                        "low"@,
                        fp,
                    ) is None {
                        r matches Err(VirtualMachineError::FailedToGetIds) && after == before
                    } else {
                        digest_written(
                            r,
                            before,
                            after,
                            var_address(ids, "high"@, fp).unwrap(),
                            var_address(ids, "low"@, fp).unwrap(),
                            keccak256_digest(finalize_input_bytes(range_words(before, start, n))),
                        )
                    }
                },
                _ => r matches Err(VirtualMachineError::ExpectedRelocatable(x)) && x@
                    == CellValue::Relocatable(next_addr(state)) && after == before,
            },
        },
    }
}

/// Implements the hint that hashes the words between `ids.keccak_state.start_ptr`
/// and `ids.keccak_state.end_ptr` (16 big-endian bytes each) with Keccak-256 and
/// writes the digest's halves into `ids.high` and `ids.low`.
pub fn unsafe_keccak_finalize(vm_proxy: &mut VMProxy, ids_data: &NameMap<HintReference>) -> (r:
    Result<(), VirtualMachineError>)
    ensures
        final(vm_proxy).fp == old(vm_proxy).fp,
        unsafe_keccak_finalize_outcome(
            r,
            old(vm_proxy).memory@,
            final(vm_proxy).memory@,
            ids_data@,
            old(vm_proxy).fp,
        ),
{
    let keccak_state_ptr = get_relocatable_from_var_name("keccak_state", vm_proxy, ids_data)?;
    let start_ptr = get_ptr_from_var_name("keccak_state", vm_proxy, ids_data)?;
    let end_ptr = vm_proxy.memory.get_relocatable(
        &Relocatable {
            segment_index: keccak_state_ptr.segment_index,
            offset: keccak_state_ptr.offset + 1,
        },
    )?;
    if end_ptr.segment_index != start_ptr.segment_index {
        return Err(VirtualMachineError::DiffIndexSub);
    }
    let n_elems = if start_ptr.offset <= end_ptr.offset {
        end_ptr.offset - start_ptr.offset
    } else {
        0
    };
    let range = vm_proxy.memory.get_range(&start_ptr, n_elems);
    let ghost mem = vm_proxy.memory@;
    let ghost n = n_elems as nat;
    proof {
        assert forall|i: nat| i < n implies (#[trigger] cell_at(mem, word_addr(start_ptr, i)) is Some
            <==> range@[i as int] is Some) by {
            assert(range@[i as int] matches Some(v) ==> cell_at(mem, word_addr(start_ptr, i))
                == Some(v@));
        }
    }
    match check_no_nones_in_range(&range) {
        Ok(()) => {},
        Err(e) => {
            proof {
                let i = choose|i: int| 0 <= i < range@.len() && !(#[trigger] range@[i] is Some);
                assert(cell_at(mem, word_addr(start_ptr, i as nat)) is None);
            }
            return Err(e);
        },
    }
    let mut keccak_input: Vec<u8> = Vec::new();
    let mut i: usize = 0;
    #[verifier::loop_isolation(false)]
    while i < n_elems
        invariant
            mem == vm_proxy.memory@,
            i <= n_elems,
            all_present(mem, start_ptr, n),
            all_words16_fit(mem, start_ptr, i as nat),
            keccak_input@ == finalize_input_bytes(range_words(mem, start_ptr, i as nat)),
        decreases n_elems - i,
    {
        assert(range@[i as int] matches Some(v) ==> cell_at(mem, word_addr(start_ptr, i as nat))
            == Some(v@));
        let word = match &range[i] {
            Some(MaybeRelocatable::Int(w)) => w,
            Some(other) => {
                assert(first_word16_misfit(mem, start_ptr, n, i as nat));
                return Err(VirtualMachineError::ExpectedInteger(other.clone()));
            },
            None => return Err(VirtualMachineError::ExpectedIntAtRange(None)),
        };
        assert(cell_at(mem, word_addr(start_ptr, i as nat)) == Some(CellValue::Int(word@)));
        if !word.fits_in_bytes(16) {
            assert(first_word16_misfit(mem, start_ptr, n, i as nat));
            return Err(VirtualMachineError::InvalidWordSize(word.clone()));
        }
        proof {
            lemma_be_bytes_min_pad(word@ as nat, 16);
        }
        let (_, bytes) = word.to_bytes_be();
        let mut padded = left_pad(bytes.as_slice(), 16 - bytes.len());
        keccak_input.append(&mut padded);
        proof {
            let ws = range_words(mem, start_ptr, i as nat);
            let ws1 = range_words(mem, start_ptr, (i + 1) as nat);
            assert(ws1.drop_last() =~= ws);
            assert(ws1.last() == word@);
            assert forall|j: nat| j < i + 1 implies #[trigger] word16_fits(mem, start_ptr, j) by {
                if j < i {
                    assert(all_words16_fit(mem, start_ptr, i as nat));
                }
            }
        }
        i += 1;
    }
    let hashed = keccak256(keccak_input.as_slice());
    proof {
        lemma_digest_halves(hashed@);
    }
    let high_addr = get_relocatable_from_var_name("high", vm_proxy, ids_data)?;
    let low_addr = get_relocatable_from_var_name("low", vm_proxy, ids_data)?;
    let (high, low) = digest_halves(hashed.as_slice());
    vm_proxy.memory.insert_value(&high_addr, MaybeRelocatable::Int(high))?;
    vm_proxy.memory.insert_value(&low_addr, MaybeRelocatable::Int(low))
}


/// Two writes of one digest at the same addresses from the same memory end the
/// same way.
proof fn lemma_digest_written_unique(
    r1: Result<(), VirtualMachineError>,
    r2: Result<(), VirtualMachineError>,
    before: Seq<Map<nat, CellValue>>,
    after1: Seq<Map<nat, CellValue>>,
    after2: Seq<Map<nat, CellValue>>,
    high: Relocatable,
    low: Relocatable,
    digest: Seq<u8>,
)
    requires
        digest_written(r1, before, after1, high, low, digest),
        digest_written(r2, before, after2, high, low, digest),
    ensures
        after1 == after2,
        r1 is Ok <==> r2 is Ok,
{
}

/// Both keccak hints write the same halves: on a range of `n` words from
/// `start` that each fit in 16 bytes, `unsafe_keccak` with `ids.length = 16 * n`
/// and `ids.data = start` ends as `unsafe_keccak_finalize` on that range does
/// (both succeed or both fail, and memory ends the same), when both write to
/// the same `ids.high` and `ids.low`.
pub proof fn lemma_hints_write_same_halves(
    before: Seq<Map<nat, CellValue>>,
    ids_keccak: Map<Seq<char>, HintReference>,
    ids_finalize: Map<Seq<char>, HintReference>,
    fp: Relocatable,
    scopes: Seq<Map<Seq<char>, int>>,
    state: Relocatable,
    start: Relocatable,
    end: Relocatable,
    r1: Result<(), VirtualMachineError>,
    after1: Seq<Map<nat, CellValue>>,
    r2: Result<(), VirtualMachineError>,
    after2: Seq<Map<nat, CellValue>>,
)
    requires
        var_address(ids_finalize, "keccak_state"@, fp) == Some(state),
        read_ptr_var(before, ids_finalize, fp, "keccak_state"@) == Ok::<
            Relocatable,
            Option<Relocatable>,
        >(start),
        cell_at(before, next_addr(state)) == Some(CellValue::Relocatable(end)),
        end.segment_index == start.segment_index,
        start.offset <= end.offset,
        all_words16_fit(before, start, (end.offset - start.offset) as nat),
        16 * (end.offset - start.offset) <= u64::MAX,
        read_int_var(before, ids_keccak, fp, "length"@) == Ok::<int, Option<Relocatable>>(
            16 * (end.offset - start.offset),
        ),
        !exceeds_max_size(scopes, 16 * (end.offset - start.offset)),
        read_ptr_var(before, ids_keccak, fp, "data"@) == Ok::<Relocatable, Option<Relocatable>>(
            start,
        ),
        var_address(ids_keccak, "high"@, fp) is Some,
        var_address(ids_keccak, "low"@, fp) is Some,
        var_address(ids_keccak, "high"@, fp) == var_address(ids_finalize, "high"@, fp),
        var_address(ids_keccak, "low"@, fp) == var_address(ids_finalize, "low"@, fp),
        unsafe_keccak_outcome(r1, before, after1, ids_keccak, fp, scopes),
        unsafe_keccak_finalize_outcome(r2, before, after2, ids_finalize, fp),
    ensures
        after1 == after2,
        r1 is Ok <==> r2 is Ok,
{
    let n = (end.offset - start.offset) as nat;
    let length = 16 * n;
    assert(range_len(start, end) == n);
    assert(word_count(length) == n);
    assert forall|i: nat| i < word_count(length) implies #[trigger] word_fits(
        before,
        start,
        length,
        i,
    ) by {
        assert(word16_fits(before, start, i));
        assert(word_len(length, i) == 16);
    }
    assert forall|i: nat| i < n implies #[trigger] cell_at(before, word_addr(start, i)) is Some by {
        assert(word16_fits(before, start, i));
    }
    let words = input_words(before, start, n);
    assert forall|i: int| 0 <= i < words.len() implies 0 <= #[trigger] words[i] by {
        assert(word16_fits(before, start, i as nat));
    }
    lemma_hints_hash_same_input(words);
    assert(words.len() == n);
    lemma_digest_written_unique(
        r1,
        r2,
        before,
        after1,
        after2,
        var_address(ids_keccak, "high"@, fp).unwrap(),
        var_address(ids_keccak, "low"@, fp).unwrap(),
        keccak256_digest(finalize_input_bytes(range_words(before, start, n))),
    );
}


/// Writing one digest into two memories that have as many segments and agree
/// on the two target cells succeeds on both or on neither, and leaves the two
/// target cells equal.
proof fn lemma_digest_written_agree(
    r1: Result<(), VirtualMachineError>,
    r2: Result<(), VirtualMachineError>,
    m1: Seq<Map<nat, CellValue>>,
    m2: Seq<Map<nat, CellValue>>,
    after1: Seq<Map<nat, CellValue>>,
    after2: Seq<Map<nat, CellValue>>,
    high: Relocatable,
    low: Relocatable,
    digest: Seq<u8>,
)
    requires
        m1.len() == m2.len(),
        cell_at(m1, high) == cell_at(m2, high),
        cell_at(m1, low) == cell_at(m2, low),
        digest_written(r1, m1, after1, high, low, digest),
        digest_written(r2, m2, after2, high, low, digest),
    ensures
        r1 is Ok <==> r2 is Ok,
        cell_at(after1, high) == cell_at(after2, high),
        cell_at(after1, low) == cell_at(after2, low),
{
    let h = CellValue::Int(digest_high(digest) as int);
    let l = CellValue::Int(digest_low(digest) as int);
    lemma_insert_agree(m1, m2, high, h, low);
    lemma_insert_agree(m1, m2, high, h, high);
    if memory_after_insert(m1, high, h) is Ok {
        let n1 = memory_after_insert(m1, high, h)->Ok_0;
        let n2 = memory_after_insert(m2, high, h)->Ok_0;
        lemma_insert_agree(n1, n2, low, l, high);
        lemma_insert_agree(n1, n2, low, l, low);
    }
}

/// `unsafe_keccak` reads only the cells of its four variables and the first
/// `word_count(length)` words: on two memories with as many segments that agree
/// on these cells, it succeeds on both or on neither, and it leaves the same
/// values in `ids.high` and `ids.low`.
pub proof fn lemma_unsafe_keccak_reads_only_its_cells(
    m1: Seq<Map<nat, CellValue>>,
    m2: Seq<Map<nat, CellValue>>,
    ids: Map<Seq<char>, HintReference>,
    fp: Relocatable,
    scopes: Seq<Map<Seq<char>, int>>,
    r1: Result<(), VirtualMachineError>,
    after1: Seq<Map<nat, CellValue>>,
    r2: Result<(), VirtualMachineError>,
    after2: Seq<Map<nat, CellValue>>,
)
    requires
        m1.len() == m2.len(),
        var_address(ids, "length"@, fp) is Some ==> cell_at(m1, var_address(ids, "length"@, fp)->0)
            == cell_at(m2, var_address(ids, "length"@, fp)->0),
        var_address(ids, "data"@, fp) is Some ==> cell_at(m1, var_address(ids, "data"@, fp)->0)
            == cell_at(m2, var_address(ids, "data"@, fp)->0),
        var_address(ids, "high"@, fp) is Some ==> cell_at(m1, var_address(ids, "high"@, fp)->0)
            == cell_at(m2, var_address(ids, "high"@, fp)->0),
        var_address(ids, "low"@, fp) is Some ==> cell_at(m1, var_address(ids, "low"@, fp)->0)
            == cell_at(m2, var_address(ids, "low"@, fp)->0),
        read_int_var(m1, ids, fp, "length"@) is Ok && read_int_var(m1, ids, fp, "length"@)->Ok_0
            >= 0 && read_ptr_var(m1, ids, fp, "data"@) is Ok ==> forall|i: nat|
            i < word_count(read_int_var(m1, ids, fp, "length"@)->Ok_0 as nat) ==> #[trigger] cell_at(
                m1,
                word_addr(read_ptr_var(m1, ids, fp, "data"@)->Ok_0, i),
            ) == cell_at(m2, word_addr(read_ptr_var(m1, ids, fp, "data"@)->Ok_0, i)),
        unsafe_keccak_outcome(r1, m1, after1, ids, fp, scopes),
        unsafe_keccak_outcome(r2, m2, after2, ids, fp, scopes),
    ensures
        r1 is Ok <==> r2 is Ok,
        var_address(ids, "high"@, fp) is Some ==> cell_at(after1, var_address(ids, "high"@, fp)->0)
            == cell_at(after2, var_address(ids, "high"@, fp)->0),
        var_address(ids, "low"@, fp) is Some ==> cell_at(after1, var_address(ids, "low"@, fp)->0)
            == cell_at(after2, var_address(ids, "low"@, fp)->0),
{
    assert(read_int_var(m1, ids, fp, "length"@) == read_int_var(m2, ids, fp, "length"@));
    assert(read_ptr_var(m1, ids, fp, "data"@) == read_ptr_var(m2, ids, fp, "data"@));
    if read_int_var(m1, ids, fp, "length"@) is Ok && read_ptr_var(m1, ids, fp, "data"@) is Ok {
        let length = read_int_var(m1, ids, fp, "length"@)->Ok_0;
        let data = read_ptr_var(m1, ids, fp, "data"@)->Ok_0;
        if 0 <= length <= u64::MAX && var_address(ids, "high"@, fp) is Some && var_address(
            ids,
            "low"@,
            fp,
        ) is Some && !exceeds_max_size(scopes, length) {
            let len = length as nat;
            let n = word_count(len);
            assert forall|i: nat| i < n implies #[trigger] word_fits(m1, data, len, i) == word_fits(
                m2,
                data,
                len,
                i,
            ) by {
                assert(cell_at(m1, word_addr(data, i)) == cell_at(m2, word_addr(data, i)));
            }
            if all_words_fit(m1, data, len) {
                assert forall|i: nat| i < n implies #[trigger] word_fits(m2, data, len, i) by {
                    assert(word_fits(m1, data, len, i));
                }
            }
            if all_words_fit(m2, data, len) {
                assert forall|i: nat| i < n implies #[trigger] word_fits(m1, data, len, i) by {
                    assert(word_fits(m2, data, len, i));
                }
            }
            assert(all_words_fit(m1, data, len) == all_words_fit(m2, data, len));
            if all_words_fit(m1, data, len) {
                assert(input_words(m1, data, n) =~= input_words(m2, data, n)) by {
                    assert forall|i: int| 0 <= i < n implies #[trigger] input_words(m1, data, n)[i]
                        == input_words(m2, data, n)[i] by {
                        assert(cell_at(m1, word_addr(data, i as nat)) == cell_at(
                            m2,
                            word_addr(data, i as nat),
                        ));
                    }
                }
                lemma_digest_written_agree(
                    r1,
                    r2,
                    m1,
                    m2,
                    after1,
                    after2,
                    var_address(ids, "high"@, fp)->0,
                    var_address(ids, "low"@, fp)->0,
                    keccak256_digest(keccak_input_bytes(input_words(m1, data, n), len)),
                );
            }
        }
    }
}


/// Encoding a value below `256^n` with `n` bytes loses nothing.
proof fn lemma_be_value_be_encode(v: nat, n: nat)
    requires
        v < pow(256, n),
    ensures
        be_value(be_encode(v, n)) == v,
    decreases n,
{
    reveal(pow);
    let e = be_encode(v, n);
    if n == 0 {
        assert(v == 0);
    } else {
        let p = pow(256, (n - 1) as nat);
        assert(v / 256 < p) by (nonlinear_arith)
            requires
                v < 256 * p,
        ;
        lemma_be_value_be_encode(v / 256, (n - 1) as nat);
        assert(e.drop_last() =~= be_encode(v / 256, (n - 1) as nat));
        assert(e.last() == (v % 256) as u8);
    }
}

/// The input of `unsafe_keccak_finalize` is the words one after another, 16
/// bytes each.
proof fn lemma_finalize_input_blocks(words: Seq<int>)
    ensures
        finalize_input_bytes(words).len() == 16 * words.len(),
        forall|i: int|
            0 <= i < words.len() ==> #[trigger] finalize_input_bytes(words).subrange(
                16 * i,
                16 * i + 16,
            ) == be_encode(words[i] as nat, 16),
    decreases words.len(),
{
    lemma_finalize_input_len(words);
    if words.len() > 0 {
        let d = words.drop_last();
        lemma_finalize_input_blocks(d);
        lemma_finalize_input_len(d);
        lemma_be_encode_len(words.last() as nat, 16);
        let f = finalize_input_bytes(words);
        assert forall|i: int| 0 <= i < words.len() implies #[trigger] f.subrange(16 * i, 16 * i + 16)
            == be_encode(words[i] as nat, 16) by {
            if i < d.len() {
                assert(f.subrange(16 * i, 16 * i + 16) =~= finalize_input_bytes(d).subrange(
                    16 * i,
                    16 * i + 16,
                ));
                assert(d[i] == words[i]);
            } else {
                assert(f.subrange(16 * i, 16 * i + 16) =~= be_encode(words.last() as nat, 16));
            }
        }
    }
}

/// The input of `unsafe_keccak` is the words one after another, each with its
/// `word_len` bytes.
proof fn lemma_keccak_input_blocks(words: Seq<int>, length: nat)
    requires
        words.len() <= word_count(length),
    ensures
        forall|i: int|
            0 <= i < words.len() ==> #[trigger] keccak_input_bytes(words, length).subrange(
                16 * i,
                16 * i + word_len(length, i as nat),
            ) == be_encode(words[i] as nat, word_len(length, i as nat)),
    decreases words.len(),
{
    if words.len() > 0 {
        let d = words.drop_last();
        lemma_keccak_input_blocks(d, length);
        lemma_keccak_input_len(d, length);
        lemma_be_encode_len(words.last() as nat, word_len(length, d.len()));
        let f = keccak_input_bytes(words, length);
        assert(keccak_input_bytes(d, length).len() == 16 * d.len());
        assert forall|i: int| 0 <= i < words.len() implies #[trigger] f.subrange(
            16 * i,
            16 * i + word_len(length, i as nat),
        ) == be_encode(words[i] as nat, word_len(length, i as nat)) by {
            if i < d.len() {
                assert(16 * i + word_len(length, i as nat) <= 16 * d.len());
                assert(f.subrange(16 * i, 16 * i + word_len(length, i as nat)) =~= keccak_input_bytes(
                    d,
                    length,
                ).subrange(16 * i, 16 * i + word_len(length, i as nat)));
                assert(d[i] == words[i]);
            } else {
                assert(f.subrange(16 * i, 16 * i + word_len(length, i as nat)) =~= be_encode(
                    words.last() as nat,
                    word_len(length, i as nat),
                ));
            }
        }
    }
}

/// Writing a digest into two distinct empty cells of existing segments
/// succeeds, puts the two halves there and changes no other cell.
proof fn lemma_digest_written_into_empty(
    r: Result<(), VirtualMachineError>,
    before: Seq<Map<nat, CellValue>>,
    after: Seq<Map<nat, CellValue>>,
    high: Relocatable,
    low: Relocatable,
    digest: Seq<u8>,
)
    requires
        digest_written(r, before, after, high, low, digest),
        high != low,
        high.segment_index < before.len(),
        low.segment_index < before.len(),
        cell_at(before, high) is None,
        cell_at(before, low) is None,
    ensures
        r is Ok,
        cell_at(after, high) == Some(CellValue::Int(be_value(digest.subrange(0, 16)) as int)),
        cell_at(after, low) == Some(CellValue::Int(be_value(digest.subrange(16, 32)) as int)),
        forall|b: Relocatable| b != high && b != low ==> #[trigger] cell_at(after, b) == cell_at(before, b),
{
    let h = CellValue::Int(digest_high(digest) as int);
    let l = CellValue::Int(digest_low(digest) as int);
    lemma_insert_into_empty_cell(before, high, h);
    let m1 = memory_after_insert(before, high, h)->Ok_0;
    lemma_insert_cells(before, high, h, low);
    lemma_insert_into_empty_cell(m1, low, l);
    let m2 = memory_after_insert(m1, low, l)->Ok_0;
    lemma_insert_cells(m1, low, l, high);
    assert forall|b: Relocatable| b != high && b != low implies #[trigger] cell_at(after, b)
        == cell_at(before, b) by {
        lemma_insert_cells(before, high, h, b);
        lemma_insert_cells(m1, low, l, b);
    }
}

/// `unsafe_keccak_finalize` hashes every word of its range: on a range of
/// integers in `0..2^128` (zero included) from the start address held by
/// `ids.keccak_state` to the end address held in the next cell, with
/// `ids.high` and `ids.low` two empty cells, it succeeds; it writes into them
/// the two halves of the Keccak-256 digest of an input of 16 bytes per word
/// whose `i`-th 16 bytes are the value of word `i`; no other cell changes.
pub proof fn lemma_finalize_hashes_every_word(
    before: Seq<Map<nat, CellValue>>,
    ids: Map<Seq<char>, HintReference>,
    fp: Relocatable,
    state: Relocatable,
    start: Relocatable,
    end: Relocatable,
    high: Relocatable,
    low: Relocatable,
    r: Result<(), VirtualMachineError>,
    after: Seq<Map<nat, CellValue>>,
)
    requires
        var_address(ids, "keccak_state"@, fp) == Some(state),
        cell_at(before, state) == Some(CellValue::Relocatable(start)),
        cell_at(
            before,
            Relocatable { segment_index: state.segment_index, offset: (state.offset + 1) as usize },
        ) == Some(CellValue::Relocatable(end)),
        end.segment_index == start.segment_index,
        start.offset <= end.offset,
        forall|i: nat|
            i < end.offset - start.offset ==> (#[trigger] cell_at(before, word_addr(start, i)) matches Some(
                CellValue::Int(w),
            ) && 0 <= w < pow(256, 16)),
        var_address(ids, "high"@, fp) == Some(high),
        var_address(ids, "low"@, fp) == Some(low),
        high != low,
        high.segment_index < before.len(),
        low.segment_index < before.len(),
        cell_at(before, high) is None,
        cell_at(before, low) is None,
        unsafe_keccak_finalize_outcome(r, before, after, ids, fp),
    ensures
        r is Ok,
        exists|input: Seq<u8>|
            #![trigger keccak256_digest(input)]
            input.len() == 16 * (end.offset - start.offset) && (forall|i: nat|
                i < end.offset - start.offset ==> cell_at(before, word_addr(start, i)) == Some(
                    CellValue::Int(be_value(#[trigger] input.subrange(16 * (i as int), 16 * (i as int) + 16)) as int),
                )) && cell_at(after, high) == Some(
                CellValue::Int(be_value(keccak256_digest(input).subrange(0, 16)) as int),
            ) && cell_at(after, low) == Some(
                CellValue::Int(be_value(keccak256_digest(input).subrange(16, 32)) as int),
            ),
        forall|b: Relocatable| b != high && b != low ==> #[trigger] cell_at(after, b) == cell_at(before, b),
{
    let n = (end.offset - start.offset) as nat;
    assert(read_ptr_var(before, ids, fp, "keccak_state"@) == Ok::<Relocatable, Option<Relocatable>>(start));
    assert(next_addr(state) == Relocatable { segment_index: state.segment_index, offset: (state.offset + 1) as usize });
    assert(range_len(start, end) == n);
    assert forall|i: nat| i < n implies #[trigger] cell_at(before, word_addr(start, i)) is Some by {}
    assert forall|i: nat| i < n implies #[trigger] word16_fits(before, start, i) by {
        assert(cell_at(before, word_addr(start, i)) is Some);
    }
    let words = range_words(before, start, n);
    let input = finalize_input_bytes(words);
    let digest = keccak256_digest(input);
    lemma_digest_written_into_empty(r, before, after, high, low, digest);
    lemma_finalize_input_blocks(words);
    assert forall|i: nat| i < n implies cell_at(before, word_addr(start, i)) == Some(
        CellValue::Int(be_value(#[trigger] input.subrange(16 * (i as int), 16 * (i as int) + 16)) as int),
    ) by {
        assert(cell_at(before, word_addr(start, i)) is Some);
        let w = words[i as int];
        assert(cell_at(before, word_addr(start, i)) == Some(CellValue::Int(w)));
        assert(input.subrange(16 * (i as int), 16 * (i as int) + 16) == be_encode(w as nat, 16));
        lemma_be_value_be_encode(w as nat, 16);
    }
}

/// `unsafe_keccak` hashes exactly its `length` bytes: when the innermost scope
/// sets no limit below `length`, `length` is a `u64`, each word `i` is an
/// integer written by its bytes (16, or what is left for the last; zero
/// included), and `ids.high` and `ids.low` are two empty cells, it succeeds;
/// it writes into them the two halves of the Keccak-256 digest of an input of
/// `length` bytes whose `i`-th block is the value of word `i`; no other cell
/// changes.
pub proof fn lemma_unsafe_keccak_hashes_its_input(
    before: Seq<Map<nat, CellValue>>,
    ids: Map<Seq<char>, HintReference>,
    fp: Relocatable,
    scopes: Seq<Map<Seq<char>, int>>,
    length: nat,
    data: Relocatable,
    high: Relocatable,
    low: Relocatable,
    r: Result<(), VirtualMachineError>,
    after: Seq<Map<nat, CellValue>>,
)
    requires
        read_int_var(before, ids, fp, "length"@) == Ok::<int, Option<Relocatable>>(length as int),
        length <= u64::MAX,
        scopes.len() >= 1 && scopes.last().contains_key("__keccak_max_size"@) ==> length
            <= scopes.last()["__keccak_max_size"@],
        read_ptr_var(before, ids, fp, "data"@) == Ok::<Relocatable, Option<Relocatable>>(data),
        forall|i: nat|
            16 * i < length ==> (#[trigger] cell_at(before, word_addr(data, i)) matches Some(
                CellValue::Int(w),
            ) && 0 <= w < pow(256, if length >= 16 * i + 16 {
                16
            } else {
                (length - 16 * i) as nat
            })),
        var_address(ids, "high"@, fp) == Some(high),
        var_address(ids, "low"@, fp) == Some(low),
        high != low,
        high.segment_index < before.len(),
        low.segment_index < before.len(),
        cell_at(before, high) is None,
        cell_at(before, low) is None,
        unsafe_keccak_outcome(r, before, after, ids, fp, scopes),
    ensures
        r is Ok,
        exists|input: Seq<u8>|
            #![trigger keccak256_digest(input)]
            input.len() == length && (forall|i: nat|
                16 * i < length ==> #[trigger] cell_at(before, word_addr(data, i)) == Some(
                    CellValue::Int(
                        be_value(
                            input.subrange(
                                16 * (i as int),
                                if length >= 16 * i + 16 {
                                    16 * (i as int) + 16
                                } else {
                                    length as int
                                },
                            ),
                        ) as int,
                    ),
                )) && cell_at(after, high) == Some(
                CellValue::Int(be_value(keccak256_digest(input).subrange(0, 16)) as int),
            ) && cell_at(after, low) == Some(
                CellValue::Int(be_value(keccak256_digest(input).subrange(16, 32)) as int),
            ),
        forall|b: Relocatable| b != high && b != low ==> #[trigger] cell_at(after, b) == cell_at(before, b),
{
    let n = word_count(length);
    assert(!exceeds_max_size(scopes, length as int));
    assert forall|i: nat| i < n implies #[trigger] word_fits(before, data, length, i) by {
        assert(16 * i < length);
        assert(cell_at(before, word_addr(data, i)) is Some);
    }
    let words = input_words(before, data, n);
    let input = keccak_input_bytes(words, length);
    let digest = keccak256_digest(input);
    lemma_digest_written_into_empty(r, before, after, high, low, digest);
    lemma_keccak_input_len(words, length);
    lemma_keccak_input_blocks(words, length);
    assert forall|i: nat| 16 * i < length implies #[trigger] cell_at(before, word_addr(data, i)) == Some(
        CellValue::Int(
            be_value(
                input.subrange(
                    16 * (i as int),
                    if length >= 16 * i + 16 {
                        16 * (i as int) + 16
                    } else {
                        length as int
                    },
                ),
            ) as int,
        ),
    ) by {
        assert(i < n);
        assert(cell_at(before, word_addr(data, i)) is Some);
        let w = words[i as int];
        assert(cell_at(before, word_addr(data, i)) == Some(CellValue::Int(w)));
        let wl = word_len(length, i);
        assert(16 * (i as int) + wl == if length >= 16 * i + 16 {
            16 * (i as int) + 16
        } else {
            length as int
        });
        assert(input.subrange(16 * (i as int), 16 * (i as int) + wl) == be_encode(w as nat, wl));
        lemma_be_value_be_encode(w as nat, wl);
    }
}

/// The `__keccak_max_size` of the innermost scope is the one that applies,
/// whatever the outer scopes hold: `unsafe_keccak` refuses with
/// `KeccakMaxSize(length, limit)` and leaves memory unchanged exactly when the
/// innermost scope sets a limit below the length it reads.
pub proof fn lemma_innermost_limit_applies(
    before: Seq<Map<nat, CellValue>>,
    ids: Map<Seq<char>, HintReference>,
    fp: Relocatable,
    outer: Seq<Map<Seq<char>, int>>,
    inner: Map<Seq<char>, int>,
    length: int,
    r: Result<(), VirtualMachineError>,
    after: Seq<Map<nat, CellValue>>,
)
    requires
        read_int_var(before, ids, fp, "length"@) == Ok::<int, Option<Relocatable>>(length),
        unsafe_keccak_outcome(r, before, after, ids, fp, outer.push(inner)),
    ensures
        (r matches Err(VirtualMachineError::KeccakMaxSize(_, _))) <==> (inner.contains_key(
            "__keccak_max_size"@,
        ) && length > inner["__keccak_max_size"@]),
        inner.contains_key("__keccak_max_size"@) && length > inner["__keccak_max_size"@] ==> (r matches Err(
            VirtualMachineError::KeccakMaxSize(a, b),
        ) && a@ == length && b@ == inner["__keccak_max_size"@] && after == before),
{
    assert(outer.push(inner).last() == inner);
}

} // verus!
