//! The stack of variable scopes that hints read and write.
use vstd::prelude::*;
use crate::errors::VirtualMachineError;
use crate::integer::Integer;

verus! {

/// The map that a sequence of (name, value) entries stands for; a later entry
/// overrides an earlier one with the same name.
pub open spec fn entries_map<V: View>(entries: Seq<(String, V)>) -> Map<Seq<char>, V::V>
    decreases entries.len(),
{
    if entries.len() == 0 {
        Map::empty()
    } else {
        entries_map(entries.drop_last()).insert(entries.last().0@, entries.last().1@)
    }
}

/// No two entries share a name.
pub open spec fn distinct_names<V>(entries: Seq<(String, V)>) -> bool {
    forall|i: int, j: int|
        0 <= i < entries.len() && 0 <= j < entries.len() && i != j ==> #[trigger] entries[i].0@
            != #[trigger] entries[j].0@
}

proof fn lemma_entries_map_dom<V: View>(entries: Seq<(String, V)>, k: Seq<char>)
    ensures
        entries_map(entries).dom().finite(),
        entries_map(entries).contains_key(k) <==> exists|i: int|
            0 <= i < entries.len() && #[trigger] entries[i].0@ == k,
    decreases entries.len(),
{
    if entries.len() > 0 {
        let d = entries.drop_last();
        lemma_entries_map_dom(d, k);
        if entries_map(entries).contains_key(k) && k != entries.last().0@ {
            let i = choose|i: int| 0 <= i < d.len() && #[trigger] d[i].0@ == k;
            assert(entries[i].0@ == k);
        }
        if exists|i: int| 0 <= i < entries.len() && #[trigger] entries[i].0@ == k {
            let i = choose|i: int| 0 <= i < entries.len() && #[trigger] entries[i].0@ == k;
            if i < d.len() {
                assert(d[i].0@ == k);
            }
        }
    }
}

proof fn lemma_entries_map_value<V: View>(entries: Seq<(String, V)>, i: int)
    requires
        distinct_names(entries),
        0 <= i < entries.len(),
    ensures
        entries_map(entries).contains_key(entries[i].0@),
        entries_map(entries)[entries[i].0@] == entries[i].1@,
    decreases entries.len(),
{
    let d = entries.drop_last();
    if i < entries.len() - 1 {
        assert(d[i] == entries[i]);
        assert(distinct_names(d)) by {
            assert forall|a: int, b: int|
                0 <= a < d.len() && 0 <= b < d.len() && a != b implies #[trigger] d[a].0@
                != #[trigger] d[b].0@ by {
                assert(d[a] == entries[a] && d[b] == entries[b]);
            }
        }
        lemma_entries_map_value(d, i);
        assert(entries[i].0@ != entries[entries.len() - 1].0@);
    }
}

proof fn lemma_distinct_drop_last<V>(entries: Seq<(String, V)>)
    requires
        distinct_names(entries),
        entries.len() > 0,
    ensures
        distinct_names(entries.drop_last()),
{
    let d = entries.drop_last();
    assert forall|a: int, b: int|
        0 <= a < d.len() && 0 <= b < d.len() && a != b implies #[trigger] d[a].0@
        != #[trigger] d[b].0@ by {
        assert(d[a] == entries[a] && d[b] == entries[b]);
    }
}

proof fn lemma_entries_map_len<V: View>(entries: Seq<(String, V)>)
    requires
        distinct_names(entries),
    ensures
        entries_map(entries).dom().finite(),
        entries_map(entries).len() == entries.len(),
    decreases entries.len(),
{
    lemma_entries_map_dom(entries, Seq::empty());
    if entries.len() > 0 {
        let d = entries.drop_last();
        lemma_distinct_drop_last(entries);
        lemma_entries_map_len(d);
        lemma_entries_map_dom(d, entries.last().0@);
        if entries_map(d).contains_key(entries.last().0@) {
            let i = choose|i: int| 0 <= i < d.len() && #[trigger] d[i].0@ == entries.last().0@;
            assert(entries[i].0@ == entries[entries.len() - 1].0@);
        }
    }
}

proof fn lemma_entries_map_update<V: View>(entries: Seq<(String, V)>, i: int, k: String, v: V)
    requires
        0 <= i < entries.len(),
        distinct_names(entries),
        k@ == entries[i].0@,
    ensures
        distinct_names(entries.update(i, (k, v))),
        entries_map(entries.update(i, (k, v))) == entries_map(entries).insert(k@, v@),
    decreases entries.len(),
{
    let u = entries.update(i, (k, v));
    assert forall|a: int, b: int|
        0 <= a < u.len() && 0 <= b < u.len() && a != b implies #[trigger] u[a].0@
        != #[trigger] u[b].0@ by {
        assert(u[a].0@ == entries[a].0@ && u[b].0@ == entries[b].0@);
    }
    let d = entries.drop_last();
    if i == entries.len() - 1 {
        assert(u.drop_last() =~= d);
        lemma_entries_map_dom(d, k@);
        if entries_map(d).contains_key(k@) {
            let j = choose|j: int| 0 <= j < d.len() && #[trigger] d[j].0@ == k@;
            assert(entries[j].0@ == entries[i].0@);
        }
        assert(entries_map(u) =~= entries_map(entries).insert(k@, v@));
    } else {
        lemma_distinct_drop_last(entries);
        assert(u.drop_last() =~= d.update(i, (k, v)));
        lemma_entries_map_update(d, i, k, v);
        assert(entries[i].0@ != entries[entries.len() - 1].0@);
        assert(entries_map(u) =~= entries_map(entries).insert(k@, v@));
    }
}

proof fn lemma_entries_map_remove<V: View>(entries: Seq<(String, V)>, i: int)
    requires
        0 <= i < entries.len(),
        distinct_names(entries),
    ensures
        distinct_names(entries.remove(i)),
        entries_map(entries.remove(i)) == entries_map(entries).remove(entries[i].0@),
    decreases entries.len(),
{
    let r = entries.remove(i);
    assert forall|a: int, b: int|
        0 <= a < r.len() && 0 <= b < r.len() && a != b implies #[trigger] r[a].0@
        != #[trigger] r[b].0@ by {
        let a2 = if a < i { a } else { a + 1 };
        let b2 = if b < i { b } else { b + 1 };
        assert(r[a] == entries[a2] && r[b] == entries[b2]);
    }
    let d = entries.drop_last();
    lemma_distinct_drop_last(entries);
    if i == entries.len() - 1 {
        assert(r =~= d);
        lemma_entries_map_dom(d, entries[i].0@);
        if entries_map(d).contains_key(entries[i].0@) {
            let j = choose|j: int| 0 <= j < d.len() && #[trigger] d[j].0@ == entries[i].0@;
            assert(entries[j].0@ == entries[i].0@);
        }
        assert(entries_map(r) =~= entries_map(entries).remove(entries[i].0@));
    } else {
        assert(r.drop_last() =~= d.remove(i));
        assert(r.last() == entries.last());
        lemma_entries_map_remove(d, i);
        assert(entries[i].0@ != entries[entries.len() - 1].0@);
        assert(entries_map(r) =~= entries_map(entries).remove(entries[i].0@));
    }
}

/// A map from variable names to values (names are unique).
pub struct NameMap<V> {
    entries: Vec<(String, V)>,
}

impl<V> NameMap<V> {
    #[verifier::type_invariant]
    spec fn well_formed(self) -> bool {
        distinct_names(self.entries@)
    }
}

impl<V: View> View for NameMap<V> {
    type V = Map<Seq<char>, V::V>;

    closed spec fn view(&self) -> Map<Seq<char>, V::V> {
        entries_map(self.entries@)
    }
}

impl<V: View> NameMap<V> {
    /// The empty map.
    pub fn new() -> (r: Self)
        ensures
            r@ == Map::<Seq<char>, V::V>::empty(),
    {
        NameMap { entries: Vec::new() }
    }

    /// The index of the entry named `name`, if there is one.
    fn find(&self, name: &str) -> (r: Option<usize>)
        ensures
            match r {
                Some(i) => i < self.entries@.len() && self.entries@[i as int].0@ == name@,
                None => forall|i: int|
                    0 <= i < self.entries@.len() ==> #[trigger] self.entries@[i].0@ != name@,
            },
    {
        let key = name.to_owned();
        let n = self.entries.len();
        let mut i: usize = 0;
        while i < n
            invariant
                n == self.entries@.len(),
                i <= n,
                key@ == name@,
                forall|j: int| 0 <= j < i ==> #[trigger] self.entries@[j].0@ != name@,
            decreases n - i,
        {
            if self.entries[i].0 == key {
                return Some(i);
            }
            i += 1;
        }
        None
    }

    /// The number of variables.
    pub fn len(&self) -> (r: usize)
        ensures
            r == self@.len(),
    {
        proof {
            use_type_invariant(self);
            lemma_entries_map_len(self.entries@);
        }
        self.entries.len()
    }

    /// Whether the map holds no variable.
    pub fn is_empty(&self) -> (r: bool)
        ensures
            r == (self@.len() == 0),
    {
        proof {
            use_type_invariant(self);
            lemma_entries_map_len(self.entries@);
        }
        self.entries.len() == 0
    }

    /// The value of the variable `name`, if it is defined.
    pub fn get(&self, name: &str) -> (r: Option<&V>)
        ensures
            r is Some <==> self@.contains_key(name@),
            r matches Some(v) ==> v@ == self@[name@],
    {
        proof {
            use_type_invariant(self);
            lemma_entries_map_dom(self.entries@, name@);
        }
        match self.find(name) {
            Some(i) => {
                proof {
                    lemma_entries_map_value(self.entries@, i as int);
                }
                Some(&self.entries[i].1)
            },
            None => None,
        }
    }

    /// Whether the variable `name` is defined.
    pub fn contains_key(&self, name: &str) -> (r: bool)
        ensures
            r == self@.contains_key(name@),
    {
        proof {
            use_type_invariant(self);
            lemma_entries_map_dom(self.entries@, name@);
        }
        self.find(name).is_some()
    }

    /// Defines `name` as `value`, giving back the value it replaced.
    pub fn insert(&mut self, name: String, value: V) -> (r: Option<V>)
        ensures
            final(self)@ == old(self)@.insert(name@, value@),
            r is Some <==> old(self)@.contains_key(name@),
            r matches Some(v) ==> v@ == old(self)@[name@],
    {
        proof {
            use_type_invariant(&*self);
            lemma_entries_map_dom(self.entries@, name@);
        }
        match self.find(name.as_str()) {
            Some(i) => {
                proof {
                    lemma_entries_map_value(self.entries@, i as int);
                    lemma_entries_map_update(self.entries@, i as int, name, value);
                }
                let mut entries: Vec<(String, V)> = Vec::new();
                std::mem::swap(&mut entries, &mut self.entries);
                let mut entry = (name, value);
                entries.set_and_swap(i, &mut entry);
                self.entries = entries;
                Some(entry.1)
            },
            None => {
                proof {
                    let e = self.entries@.push((name, value));
                    assert(e.drop_last() =~= self.entries@);
                    assert forall|a: int, b: int|
                        0 <= a < e.len() && 0 <= b < e.len() && a != b implies #[trigger] e[a].0@
                        != #[trigger] e[b].0@ by {
                        if a < self.entries@.len() {
                            assert(e[a] == self.entries@[a]);
                        }
                        if b < self.entries@.len() {
                            assert(e[b] == self.entries@[b]);
                        }
                    }
                }
                let mut entries: Vec<(String, V)> = Vec::new();
                std::mem::swap(&mut entries, &mut self.entries);
                entries.push((name, value));
                self.entries = entries;
                None
            },
        }
    }

    /// Undefines `name`, giving back its value if it was defined.
    pub fn remove(&mut self, name: &str) -> (r: Option<V>)
        ensures
            final(self)@ == old(self)@.remove(name@),
            r is Some <==> old(self)@.contains_key(name@),
            r matches Some(v) ==> v@ == old(self)@[name@],
    {
        proof {
            use_type_invariant(&*self);
            lemma_entries_map_dom(self.entries@, name@);
        }
        match self.find(name) {
            Some(i) => {
                proof {
                    lemma_entries_map_value(self.entries@, i as int);
                    lemma_entries_map_remove(self.entries@, i as int);
                }
                let mut entries: Vec<(String, V)> = Vec::new();
                std::mem::swap(&mut entries, &mut self.entries);
                let entry = entries.remove(i);
                self.entries = entries;
                Some(entry.1)
            },
            None => {
                proof {
                    assert(old(self)@.remove(name@) =~= old(self)@);
                }
                None
            },
        }
    }
}


/// Why a scope operation was refused.
#[derive(Debug, PartialEq, Eq, Clone, Copy)]
pub enum ExecScopeError {
    /// The main (outermost) scope cannot be exited.
    ExitMainScopeError,
    /// There is no scope at all.
    NoScopesError,
}

/// The scopes after entering `new_scope`: it becomes the innermost one.
pub open spec fn scopes_after_enter<M>(scopes: Seq<M>, new_scope: M) -> Seq<M> {
    scopes.push(new_scope)
}

/// The scopes after exiting the innermost one: refused when it is the only one.
pub open spec fn scopes_after_exit<M>(scopes: Seq<M>) -> Result<Seq<M>, ExecScopeError> {
    if scopes.len() == 1 {
        Err(ExecScopeError::ExitMainScopeError)
    } else if scopes.len() == 0 {
        Ok(scopes)
    } else {
        Ok(scopes.drop_last())
    }
}

/// The variables of the innermost scope, if there is one.
pub open spec fn local_variables<K, W>(scopes: Seq<Map<K, W>>) -> Option<Map<K, W>> {
    if scopes.len() == 0 {
        None
    } else {
        Some(scopes.last())
    }
}

/// The scopes after defining `name` as `value` in the innermost scope (no change
/// when there is no scope).
pub open spec fn scopes_after_assign<K, W>(scopes: Seq<Map<K, W>>, name: K, value: W) -> Seq<
    Map<K, W>,
> {
    if scopes.len() == 0 {
        scopes
    } else {
        scopes.update(scopes.len() - 1, scopes.last().insert(name, value))
    }
}

/// The scopes after undefining `name` in the innermost scope (no change when
/// there is no scope).
pub open spec fn scopes_after_delete<K, W>(scopes: Seq<Map<K, W>>, name: K) -> Seq<Map<K, W>> {
    if scopes.len() == 0 {
        scopes
    } else {
        scopes.update(scopes.len() - 1, scopes.last().remove(name))
    }
}

/// Exiting a scope just entered gives back the scopes as they were, provided
/// there was at least one scope before.
pub proof fn lemma_exit_undoes_enter<M>(scopes: Seq<M>, new_scope: M)
    requires
        scopes.len() >= 1,
    ensures
        scopes_after_exit(scopes_after_enter(scopes, new_scope)) == Ok::<Seq<M>, ExecScopeError>(
            scopes,
        ),
{
    assert(scopes_after_enter(scopes, new_scope).drop_last() =~= scopes);
}

/// The main scope is never exited: exiting the only scope is refused, and a
/// successful exit from a non-empty stack leaves at least one scope.
pub proof fn lemma_main_scope_is_kept<M>(scopes: Seq<M>)
    requires
        scopes.len() >= 1,
    ensures
        scopes.len() == 1 ==> scopes_after_exit(scopes) == Err::<Seq<M>, ExecScopeError>(
            ExecScopeError::ExitMainScopeError,
        ),
        scopes_after_exit(scopes) matches Ok(s) ==> s.len() >= 1,
{
}

/// After entering a scope, the variables seen are exactly those of the new
/// scope: the variables of the outer scopes are hidden.
pub proof fn lemma_enter_hides_outer_variables<K, W>(scopes: Seq<Map<K, W>>, new_scope: Map<K, W>)
    ensures
        local_variables(scopes_after_enter(scopes, new_scope)) == Some(new_scope),
{
}

/// A variable assigned in the innermost scope reads back as the assigned value,
/// the other variables of that scope keep their values, and the outer scopes are
/// untouched.
pub proof fn lemma_assign_then_read<K, W>(scopes: Seq<Map<K, W>>, name: K, value: W)
    requires
        scopes.len() >= 1,
    ensures
        local_variables(scopes_after_assign(scopes, name, value)) == Some(
            scopes.last().insert(name, value),
        ),
        local_variables(scopes_after_assign(scopes, name, value)).unwrap()[name] == value,
        scopes_after_assign(scopes, name, value).len() == scopes.len(),
        forall|i: int|
            0 <= i < scopes.len() - 1 ==> #[trigger] scopes_after_assign(scopes, name, value)[i]
                == scopes[i],
{
}

/// Assignments made in an inner scope do not survive its exit.
pub proof fn lemma_inner_assignments_do_not_leak<K, W>(
    scopes: Seq<Map<K, W>>,
    new_scope: Map<K, W>,
    name: K,
    value: W,
)
    requires
        scopes.len() >= 1,
    ensures
        scopes_after_exit(scopes_after_assign(scopes_after_enter(scopes, new_scope), name, value))
            == Ok::<Seq<Map<K, W>>, ExecScopeError>(scopes),
{
    let t = scopes_after_assign(scopes_after_enter(scopes, new_scope), name, value);
    assert(t.drop_last() =~= scopes);
}

/// Deleting a variable makes it undefined in the innermost scope, and deleting
/// a variable just assigned (that was not defined before) restores the scopes.
pub proof fn lemma_delete_undoes_assign<K, W>(scopes: Seq<Map<K, W>>, name: K, value: W)
    requires
        scopes.len() >= 1,
    ensures
        !local_variables(scopes_after_delete(scopes, name)).unwrap().contains_key(name),
        !scopes.last().contains_key(name) ==> scopes_after_delete(
            scopes_after_assign(scopes, name, value),
            name,
        ) == scopes,
{
    if !scopes.last().contains_key(name) {
        assert(scopes.last().insert(name, value).remove(name) =~= scopes.last());
        assert(scopes_after_delete(scopes_after_assign(scopes, name, value), name) =~= scopes);
    }
}

/// Deleting a name removes that name only: the other variables of the
/// innermost scope keep their values, the outer scopes are untouched, and
/// deleting a name the innermost scope lacks changes nothing.
pub proof fn lemma_delete_removes_only_that_name<K, W>(scopes: Seq<Map<K, W>>, name: K)
    requires
        scopes.len() >= 1,
    ensures
        scopes_after_delete(scopes, name).len() == scopes.len(),
        forall|i: int|
            0 <= i < scopes.len() - 1 ==> #[trigger] scopes_after_delete(scopes, name)[i] == scopes[i],
        !scopes_after_delete(scopes, name).last().contains_key(name),
        forall|k: K|
            k != name ==> (#[trigger] scopes_after_delete(scopes, name).last().contains_key(k)
                <==> scopes.last().contains_key(k)),
        forall|k: K|
            k != name && scopes.last().contains_key(k) ==> #[trigger] scopes_after_delete(
                scopes,
                name,
            ).last()[k] == scopes.last()[k],
        !scopes.last().contains_key(name) ==> scopes_after_delete(scopes, name) == scopes,
{
    if !scopes.last().contains_key(name) {
        assert(scopes.last().remove(name) =~= scopes.last());
        assert(scopes_after_delete(scopes, name) =~= scopes);
    }
}

/// A call on the scopes: enter a scope, exit one, assign or delete a variable.
#[verifier::reject_recursive_types(K)]
pub enum ScopeCall<K, W> {
    Enter(Map<K, W>),
    Exit,
    Assign(K, W),
    Delete(K),
}

/// The scopes after one call (a refused exit leaves them as they were).
pub open spec fn scopes_after_call<K, W>(scopes: Seq<Map<K, W>>, call: ScopeCall<K, W>) -> Seq<
    Map<K, W>,
> {
    match call {
        ScopeCall::Enter(m) => scopes_after_enter(scopes, m),
        ScopeCall::Exit => match scopes_after_exit(scopes) {
            Ok(s) => s,
            Err(_) => scopes,
        },
        ScopeCall::Assign(k, w) => scopes_after_assign(scopes, k, w),
        ScopeCall::Delete(k) => scopes_after_delete(scopes, k),
    }
}

/// The scopes after a sequence of calls, the first call first.
pub open spec fn scopes_after_calls<K, W>(scopes: Seq<Map<K, W>>, calls: Seq<ScopeCall<K, W>>) -> Seq<
    Map<K, W>,
>
    decreases calls.len(),
{
    if calls.len() == 0 {
        scopes
    } else {
        scopes_after_call(scopes_after_calls(scopes, calls.drop_last()), calls.last())
    }
}

/// The main scope survives any sequence of calls: from at least one scope
/// (as `new` and `default` give), every sequence of entering, exiting,
/// assigning and deleting leaves at least one scope, so that the innermost
/// scope's variables always exist.
pub proof fn lemma_main_scope_survives<K, W>(scopes: Seq<Map<K, W>>, calls: Seq<ScopeCall<K, W>>)
    requires
        scopes.len() >= 1,
    ensures
        scopes_after_calls(scopes, calls).len() >= 1,
        local_variables(scopes_after_calls(scopes, calls)) is Some,
    decreases calls.len(),
{
    if calls.len() > 0 {
        lemma_main_scope_survives(scopes, calls.drop_last());
    }
}

/// A stack of scopes, the innermost last; hints see the variables of the
/// innermost scope only.
pub struct ExecutionScopes<V> {
    pub data: Vec<NameMap<V>>,
}

impl<V: View> View for ExecutionScopes<V> {
    type V = Seq<Map<Seq<char>, V::V>>;

    open spec fn view(&self) -> Seq<Map<Seq<char>, V::V>> {
        self.data@.map_values(|m: NameMap<V>| m@)
    }
}

impl<V: View> ExecutionScopes<V> {
    /// A single, empty, main scope.
    pub fn new() -> (r: Self)
        ensures
            r@ == seq![Map::<Seq<char>, V::V>::empty()],
    {
        let mut data: Vec<NameMap<V>> = Vec::new();
        data.push(NameMap::new());
        let r = ExecutionScopes { data };
        proof {
            assert(r@ =~= seq![Map::<Seq<char>, V::V>::empty()]);
        }
        r
    }

    /// Enters `new_scope_locals` as the innermost scope.
    pub fn enter_scope(&mut self, new_scope_locals: NameMap<V>)
        ensures
            final(self)@ == scopes_after_enter(old(self)@, new_scope_locals@),
    {
        self.data.push(new_scope_locals);
        proof {
            assert(self@ =~= scopes_after_enter(old(self)@, new_scope_locals@));
        }
    }

    /// Exits the innermost scope; the main scope cannot be exited.
    pub fn exit_scope(&mut self) -> (r: Result<(), ExecScopeError>)
        ensures
            match scopes_after_exit(old(self)@) {
                Ok(s) => r is Ok && final(self)@ == s,
                Err(e) => r == Err::<(), ExecScopeError>(e) && final(self)@ == old(self)@,
            },
    {
        if self.data.len() == 1 {
            return Err(ExecScopeError::ExitMainScopeError);
        }
        self.data.pop();
        proof {
            assert(self@ =~= scopes_after_exit(old(self)@).unwrap());
        }
        Ok(())
    }

    /// The variables of the innermost scope, to change them.
    pub fn get_local_variables_mut(&mut self) -> (r: Option<&mut NameMap<V>>)
        ensures
            old(self).data@.len() == 0 ==> r is None && *final(self) == *old(self),
            old(self).data@.len() > 0 ==> (r matches Some(m) && *m == old(self).data@.last()
                && final(self).data@ == old(self).data@.update(
                old(self).data@.len() - 1,
                *final(m),
            )),
    {
        let n = self.data.len();
        if n == 0 {
            None
        } else {
            Some(&mut self.data[n - 1])
        }
    }

    /// The variables of the innermost scope.
    pub fn get_local_variables(&self) -> (r: Option<&NameMap<V>>)
        ensures
            r is Some <==> self.data@.len() > 0,
            r matches Some(m) ==> m@ == local_variables(self@).unwrap(),
    {
        let n = self.data.len();
        if n == 0 {
            None
        } else {
            Some(&self.data[n - 1])
        }
    }

    /// Defines `var_name` as `var_value` in the innermost scope.
    pub fn assign_or_update_variable(&mut self, var_name: &str, var_value: V)
        ensures
            final(self)@ == scopes_after_assign(old(self)@, var_name@, var_value@),
    {
        if let Some(local_variables) = self.get_local_variables_mut() {
            local_variables.insert(var_name.to_owned(), var_value);
        }
        proof {
            assert(self@ =~= scopes_after_assign(old(self)@, var_name@, var_value@));
        }
    }

    /// Undefines `var_name` in the innermost scope.
    pub fn delete_variable(&mut self, var_name: &str)
        ensures
            final(self)@ == scopes_after_delete(old(self)@, var_name@),
    {
        if let Some(local_variables) = self.get_local_variables_mut() {
            local_variables.remove(var_name);
        }
        proof {
            assert(self@ =~= scopes_after_delete(old(self)@, var_name@));
        }
    }
}

impl ExecutionScopes<Integer> {
    /// The integer variable `name` of the innermost scope.
    pub fn get_int_ref(&self, name: &str) -> (r: Result<&Integer, VirtualMachineError>)
        ensures
            match local_variables(self@) {
                None => r matches Err(
                    VirtualMachineError::MainScopeError(ExecScopeError::NoScopesError),
                ),
                Some(locals) => if locals.contains_key(name@) {
                    r matches Ok(i) && i@ == locals[name@]
                } else {
                    r matches Err(VirtualMachineError::VariableNotInScopeError(s)) && s@ == name@
                },
            },
    {
        match self.get_local_variables() {
            None => Err(VirtualMachineError::MainScopeError(ExecScopeError::NoScopesError)),
            Some(locals) => match locals.get(name) {
                Some(i) => Ok(i),
                None => Err(VirtualMachineError::VariableNotInScopeError(name.to_owned())),
            },
        }
    }
}

impl<V: View> Default for ExecutionScopes<V> {
    fn default() -> (r: Self)
        ensures
            r@ == seq![Map::<Seq<char>, V::V>::empty()],
    {
        Self::new()
    }
}

} // verus!
