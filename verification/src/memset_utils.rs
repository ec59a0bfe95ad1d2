//! The hints of Cairo's `memset`: they keep the count of cells left to write in a
//! scope variable `n`.
use vstd::prelude::*;
use crate::errors::VirtualMachineError;
use crate::exec_scope::{local_variables, scopes_after_assign, scopes_after_enter, ExecScopeError, ExecutionScopes, NameMap};
use crate::hint_utils::{get_integer_from_var_name, insert_value_from_var_name, var_address, HintReference, VMProxy};
use crate::integer::Integer;
use crate::memory::{cell_at, insert_error_matches, memory_after_insert};
use crate::relocatable::{CellValue, MaybeRelocatable, Relocatable};

verus! {

/// The scopes after one step of the countdown: the innermost `n` decreases by one.
pub open spec fn scopes_after_countdown(scopes: Seq<Map<Seq<char>, int>>) -> Seq<
    Map<Seq<char>, int>,
> {
    scopes_after_assign(scopes, "n"@, local_variables(scopes).unwrap()["n"@] - 1)
}

/// What one step of the countdown writes into `continue_loop`: 1 when the
/// decreased `n` is positive, else 0.
pub open spec fn countdown_flag(scopes: Seq<Map<Seq<char>, int>>) -> int {
    if local_variables(scopes).unwrap()["n"@] - 1 > 0 {
        1
    } else {
        0
    }
}

/// The scopes after `steps` steps of the countdown.
pub open spec fn countdown_steps(scopes: Seq<Map<Seq<char>, int>>, steps: nat) -> Seq<
    Map<Seq<char>, int>,
>
    decreases steps,
{
    if steps == 0 {
        scopes
    } else {
        scopes_after_countdown(countdown_steps(scopes, (steps - 1) as nat))
    }
}

/// Countdown steps keep the number of scopes and the outer scopes, and change
/// only `n` in the innermost scope: from `n = k`, `j` steps leave `n = k - j`,
/// and the next step writes 1 into `continue_loop` when `j + 1 < k`, else 0.
pub proof fn lemma_countdown_steps(scopes: Seq<Map<Seq<char>, int>>, k: int, j: nat)
    requires
        scopes.len() >= 1,
        scopes.last().contains_key("n"@),
        scopes.last()["n"@] == k,
    ensures
        countdown_steps(scopes, j).len() == scopes.len(),
        countdown_steps(scopes, j).last() == scopes.last().insert("n"@, k - j),
        forall|i: int| 0 <= i < scopes.len() - 1 ==> #[trigger] countdown_steps(scopes, j)[i] == scopes[i],
        countdown_flag(countdown_steps(scopes, j)) == (if j + 1 < k {
            1int
        } else {
            0int
        }),
    decreases j,
{
    if j > 0 {
        lemma_countdown_steps(scopes, k, (j - 1) as nat);
        let prev = countdown_steps(scopes, (j - 1) as nat);
        assert(scopes.last().insert("n"@, k - (j - 1)).insert("n"@, k - (j - 1) - 1) =~= scopes.last().insert("n"@, k - j));
        assert(countdown_steps(scopes, j) =~= prev.update(prev.len() - 1, prev.last().insert("n"@, k - j)));
    } else {
        assert(scopes.last().insert("n"@, k) =~= scopes.last());
    }
}

/// The memset loop runs `n` times: after entering a scope with `n = k` and `j`
/// countdown steps, the scope holds `n = k - j` only, and the next step writes 1
/// into `continue_loop` when `j + 1 < k`, else 0 (for `k >= 1`: 1 at the first
/// `k - 1` steps, 0 at step `k`).
pub proof fn lemma_memset_countdown(scopes: Seq<Map<Seq<char>, int>>, k: int, j: nat)
    ensures
        local_variables(countdown_steps(scopes_after_enter(scopes, map!["n"@ => k]), j)) == Some(
            map!["n"@ => k - j],
        ),
        countdown_flag(countdown_steps(scopes_after_enter(scopes, map!["n"@ => k]), j)) == (if j
            + 1 < k {
            1int
        } else {
            0int
        }),
{
    let s0 = scopes_after_enter(scopes, map!["n"@ => k]);
    lemma_countdown_steps(s0, k, j);
    assert(map!["n"@ => k].insert("n"@, k - j) =~= map!["n"@ => k - j]);
}

/// What `memset_continue_loop` does: read `n` from the innermost scope, write
/// `countdown_flag` into `ids.continue_loop`, and only when that write succeeds,
/// decrease `n`. Every failure leaves memory and scopes unchanged.
pub open spec fn memset_continue_loop_outcome(
    r: Result<(), VirtualMachineError>,
    before: Seq<Map<nat, CellValue>>,
    after: Seq<Map<nat, CellValue>>,
    scopes_before: Seq<Map<Seq<char>, int>>,
    scopes_after: Seq<Map<Seq<char>, int>>,
    ids: Map<Seq<char>, HintReference>,
    fp: Relocatable,
) -> bool {
    match local_variables(scopes_before) {
        None => r matches Err(VirtualMachineError::MainScopeError(ExecScopeError::NoScopesError))
            && after == before && scopes_after == scopes_before,
        Some(locals) => if !locals.contains_key("n"@) {
            r matches Err(VirtualMachineError::VariableNotInScopeError(s)) && s@ == "n"@ && after
                == before && scopes_after == scopes_before
        } else {
            let continue_loop = CellValue::Int(countdown_flag(scopes_before));
            match var_address(ids, "continue_loop"@, fp) {
                None => r matches Err(VirtualMachineError::FailedToGetIds) && after == before
                    && scopes_after == scopes_before,
                Some(a) => match memory_after_insert(before, a, continue_loop) {
                    Ok(m) => r is Ok && after == m && scopes_after == scopes_after_countdown(
                        scopes_before,
                    ),
                    Err(refusal) => r matches Err(VirtualMachineError::MemoryError(e))
                        && insert_error_matches(e, refusal, before, a, continue_loop) && after
                        == before && scopes_after == scopes_before,
                },
            }
        },
    }
}

/// Running the countdown to its end: from an innermost scope holding `n = k`
/// (`k >= 1`), `k` calls of `memset_continue_loop` in a row, each writing
/// `continue_loop` into an empty cell of an existing segment, all succeed; the
/// cells written hold 1 for the first `k - 1` calls and 0 for the last, and `n`
/// ends at 0. `mems`, `scopes` are the states between the calls, `cells` the
/// addresses of `continue_loop` at each call.
pub proof fn lemma_memset_loop_runs_n_times(
    k: nat,
    results: Seq<Result<(), VirtualMachineError>>,
    mems: Seq<Seq<Map<nat, CellValue>>>,
    scopes: Seq<Seq<Map<Seq<char>, int>>>,
    ids: Seq<Map<Seq<char>, HintReference>>,
    fps: Seq<Relocatable>,
    cells: Seq<Relocatable>,
)
    requires
        k >= 1,
        results.len() == k && ids.len() == k && fps.len() == k && cells.len() == k,
        mems.len() == k + 1 && scopes.len() == k + 1,
        scopes[0].len() >= 1,
        scopes[0].last().contains_key("n"@),
        scopes[0].last()["n"@] == k,
        forall|j: int| 0 <= j < k ==> #[trigger] var_address(ids[j], "continue_loop"@, fps[j]) == Some(cells[j]),
        forall|j: int| 0 <= j < k ==> (#[trigger] cells[j]).segment_index < mems[j].len()
            && cell_at(mems[j], cells[j]) is None,
        forall|j: int|
            0 <= j < k ==> #[trigger] memset_continue_loop_outcome(
                results[j],
                mems[j],
                mems[j + 1],
                scopes[j],
                scopes[j + 1],
                ids[j],
                fps[j],
            ),
    ensures
        forall|j: int| 0 <= j < k ==> #[trigger] results[j] is Ok,
        forall|j: int|
            0 <= j < k ==> cell_at(#[trigger] mems[j + 1], cells[j]) == Some(
                CellValue::Int(if j + 1 < k {
                    1int
                } else {
                    0int
                }),
            ),
        local_variables(scopes[k as int]) == Some(scopes[0].last().insert("n"@, 0)),
{
    lemma_memset_loop_prefix(k, k, results, mems, scopes, ids, fps, cells);
}

proof fn lemma_memset_loop_prefix(
    k: nat,
    steps: nat,
    results: Seq<Result<(), VirtualMachineError>>,
    mems: Seq<Seq<Map<nat, CellValue>>>,
    scopes: Seq<Seq<Map<Seq<char>, int>>>,
    ids: Seq<Map<Seq<char>, HintReference>>,
    fps: Seq<Relocatable>,
    cells: Seq<Relocatable>,
)
    requires
        k >= 1,
        steps <= k,
        results.len() == k && ids.len() == k && fps.len() == k && cells.len() == k,
        mems.len() == k + 1 && scopes.len() == k + 1,
        scopes[0].len() >= 1,
        scopes[0].last().contains_key("n"@),
        scopes[0].last()["n"@] == k,
        forall|j: int| 0 <= j < k ==> #[trigger] var_address(ids[j], "continue_loop"@, fps[j]) == Some(cells[j]),
        forall|j: int| 0 <= j < k ==> (#[trigger] cells[j]).segment_index < mems[j].len()
            && cell_at(mems[j], cells[j]) is None,
        forall|j: int|
            0 <= j < k ==> #[trigger] memset_continue_loop_outcome(
                results[j],
                mems[j],
                mems[j + 1],
                scopes[j],
                scopes[j + 1],
                ids[j],
                fps[j],
            ),
    ensures
        scopes[steps as int] == countdown_steps(scopes[0], steps),
        forall|j: int| 0 <= j < steps ==> #[trigger] results[j] is Ok,
        forall|j: int|
            0 <= j < steps ==> cell_at(#[trigger] mems[j + 1], cells[j]) == Some(
                CellValue::Int(if j + 1 < k {
                    1int
                } else {
                    0int
                }),
            ),
        local_variables(scopes[steps as int]) == Some(scopes[0].last().insert("n"@, k - steps)),
    decreases steps,
{
    lemma_countdown_steps(scopes[0], k as int, steps);
    if steps > 0 {
        let j = steps - 1;
        lemma_memset_loop_prefix(k, j as nat, results, mems, scopes, ids, fps, cells);
        lemma_countdown_steps(scopes[0], k as int, j as nat);
        assert(memset_continue_loop_outcome(results[j as int], mems[j as int], mems[j + 1], scopes[j as int], scopes[j + 1], ids[j as int], fps[j as int]));
        assert(var_address(ids[j as int], "continue_loop"@, fps[j as int]) == Some(cells[j as int]));
        assert(cells[j as int].segment_index < mems[j as int].len() && cell_at(mems[j as int], cells[j as int]) is None);
        let flag = CellValue::Int(countdown_flag(scopes[j as int]));
        crate::memory::lemma_insert_into_empty_cell(mems[j as int], cells[j as int], flag);
        assert(scopes[0].last().insert("n"@, k - j).contains_key("n"@));
    }
}

/// Implements the hint `vm_enter_scope({'n': ids.n})`: enters a new scope whose
/// only variable `n` is the value of `ids.n`.
pub fn memset_enter_scope(
    vm_proxy: &mut VMProxy,
    exec_scopes_proxy: &mut ExecutionScopes<Integer>,
    ids_data: &NameMap<HintReference>,
) -> (r: Result<(), VirtualMachineError>)
    ensures
        final(vm_proxy).fp == old(vm_proxy).fp,
        final(vm_proxy).memory@ == old(vm_proxy).memory@,
        match var_address(ids_data@, "n"@, old(vm_proxy).fp) {
            Some(a) => match cell_at(old(vm_proxy).memory@, a) {
                Some(CellValue::Int(n)) => r is Ok && final(exec_scopes_proxy)@ == scopes_after_enter(
                    old(exec_scopes_proxy)@,
                    map!["n"@ => n],
                ),
                _ => r matches Err(VirtualMachineError::ExpectedInteger(e)) && e@
                    == CellValue::Relocatable(a) && final(exec_scopes_proxy)@ == old(exec_scopes_proxy)@,
            },
            None => r matches Err(VirtualMachineError::FailedToGetIds) && final(exec_scopes_proxy)@
                == old(exec_scopes_proxy)@,
        },
{
    let n = get_integer_from_var_name("n", vm_proxy, ids_data)?.clone();
    let mut scope: NameMap<Integer> = NameMap::new();
    scope.insert("n".to_owned(), n);
    exec_scopes_proxy.enter_scope(scope);
    Ok(())
}

/// Implements the hint
/// `n -= 1; ids.continue_loop = 1 if n > 0 else 0`:
/// decrements the scope variable `n` and writes into `ids.continue_loop` whether
/// the new `n` is positive. Nothing changes when the write is refused.
pub fn memset_continue_loop(
    vm_proxy: &mut VMProxy,
    exec_scopes_proxy: &mut ExecutionScopes<Integer>,
    ids_data: &NameMap<HintReference>,
) -> (r: Result<(), VirtualMachineError>)
    ensures
        final(vm_proxy).fp == old(vm_proxy).fp,
        memset_continue_loop_outcome(
            r,
            old(vm_proxy).memory@,
            final(vm_proxy).memory@,
            old(exec_scopes_proxy)@,
            final(exec_scopes_proxy)@,
            ids_data@,
            old(vm_proxy).fp,
        ),
{
    let n = exec_scopes_proxy.get_int_ref("n")?;
    let new_n = n.sub_one();
    let should_continue = Integer::from_i64(
        if new_n.is_positive() {
            1
        } else {
            0
        },
    );
    insert_value_from_var_name(
        "continue_loop",
        MaybeRelocatable::Int(should_continue),
        vm_proxy,
        ids_data,
    )?;
    exec_scopes_proxy.assign_or_update_variable("n", new_n);
    Ok(())
}

} // verus!
