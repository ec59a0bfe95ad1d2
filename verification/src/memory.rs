//! The memory of the virtual machine: segments of write-once cells.
use vstd::prelude::*;
use crate::errors::{MemoryError, VirtualMachineError};
use crate::integer::Integer;
use crate::relocatable::{CellValue, MaybeRelocatable, Relocatable};

verus! {

/// The cells of one segment that hold a value, by offset.
pub open spec fn segment_cells(segment: Seq<Option<MaybeRelocatable>>) -> Map<nat, CellValue> {
    Map::new(
        |i: nat| i < segment.len() && segment[i as int] is Some,
        |i: nat| segment[i as int].unwrap()@,
    )
}

/// What the cell at `addr` holds, if the cell holds anything.
pub open spec fn cell_at(memory: Seq<Map<nat, CellValue>>, addr: Relocatable) -> Option<CellValue> {
    if addr.segment_index < memory.len() && memory[addr.segment_index as int].contains_key(
        addr.offset as nat,
    ) {
        Some(memory[addr.segment_index as int][addr.offset as nat])
    } else {
        None
    }
}

/// Why writing a value into memory is refused.
pub enum InsertRefusal {
    /// The segment does not exist.
    UnallocatedSegment,
    /// The cell holds this other value.
    Inconsistent(CellValue),
}

/// The memory after writing `value` at `addr`: refused when the segment does not
/// exist or the cell already holds a different value; a cell that already holds
/// `value` is left as it is.
pub open spec fn memory_after_insert(
    memory: Seq<Map<nat, CellValue>>,
    addr: Relocatable,
    value: CellValue,
) -> Result<Seq<Map<nat, CellValue>>, InsertRefusal> {
    if addr.segment_index >= memory.len() {
        Err(InsertRefusal::UnallocatedSegment)
    } else {
        match cell_at(memory, addr) {
            Some(current) => if current == value {
                Ok(memory)
            } else {
                Err(InsertRefusal::Inconsistent(current))
            },
            None => Ok(
                memory.update(
                    addr.segment_index as int,
                    memory[addr.segment_index as int].insert(addr.offset as nat, value),
                ),
            ),
        }
    }
}

/// The error that a refused write gives.
pub open spec fn insert_error_matches(
    e: MemoryError,
    refusal: InsertRefusal,
    memory: Seq<Map<nat, CellValue>>,
    addr: Relocatable,
    value: CellValue,
) -> bool {
    match refusal {
        InsertRefusal::UnallocatedSegment => e == MemoryError::UnallocatedSegment(
            addr.segment_index,
            memory.len() as usize,
        ),
        InsertRefusal::Inconsistent(current) => e matches MemoryError::InconsistentMemory(a, b, c)
            && a@ == CellValue::Relocatable(addr) && b@ == current && c@ == value,
    }
}

/// Memory is write-once: a successful write leaves every cell that held a value
/// as it was, and afterwards the written cell holds the written value.
pub proof fn lemma_insert_write_once(
    memory: Seq<Map<nat, CellValue>>,
    addr: Relocatable,
    value: CellValue,
    other: Relocatable,
)
    requires
        memory_after_insert(memory, addr, value) is Ok,
    ensures
        cell_at(memory_after_insert(memory, addr, value)->Ok_0, addr) == Some(value),
        cell_at(memory, other) is Some ==> cell_at(memory_after_insert(memory, addr, value)->Ok_0, other)
            == cell_at(memory, other),
        other != addr ==> cell_at(memory_after_insert(memory, addr, value)->Ok_0, other)
            == cell_at(memory, other),
{
}

/// A successful write keeps the number of segments and changes only the
/// written cell.
pub proof fn lemma_insert_cells(
    memory: Seq<Map<nat, CellValue>>,
    addr: Relocatable,
    value: CellValue,
    other: Relocatable,
)
    requires
        memory_after_insert(memory, addr, value) is Ok,
    ensures
        memory_after_insert(memory, addr, value)->Ok_0.len() == memory.len(),
        cell_at(memory_after_insert(memory, addr, value)->Ok_0, other) == if other == addr {
            Some(value)
        } else {
            cell_at(memory, other)
        },
{
}

/// Writing into an empty cell of an existing segment succeeds.
pub proof fn lemma_insert_into_empty_cell(
    memory: Seq<Map<nat, CellValue>>,
    addr: Relocatable,
    value: CellValue,
)
    requires
        addr.segment_index < memory.len(),
        cell_at(memory, addr) is None,
    ensures
        memory_after_insert(memory, addr, value) is Ok,
        cell_at(memory_after_insert(memory, addr, value)->Ok_0, addr) == Some(value),
{
}

/// A write depends only on the number of segments and on the written cell:
/// on two memories that agree on these, it succeeds on both or on neither,
/// and afterwards they still agree on every cell on which they agreed.
pub proof fn lemma_insert_agree(
    m1: Seq<Map<nat, CellValue>>,
    m2: Seq<Map<nat, CellValue>>,
    addr: Relocatable,
    value: CellValue,
    other: Relocatable,
)
    requires
        m1.len() == m2.len(),
        cell_at(m1, addr) == cell_at(m2, addr),
    ensures
        memory_after_insert(m1, addr, value) is Ok <==> memory_after_insert(m2, addr, value) is Ok,
        memory_after_insert(m1, addr, value) is Ok && cell_at(m1, other) == cell_at(m2, other)
            ==> cell_at(memory_after_insert(m1, addr, value)->Ok_0, other) == cell_at(
            memory_after_insert(m2, addr, value)->Ok_0,
            other,
        ),
        memory_after_insert(m1, addr, value) is Ok ==> memory_after_insert(m1, addr, value)->Ok_0.len()
            == memory_after_insert(m2, addr, value)->Ok_0.len(),
        memory_after_insert(m1, addr, value) matches Err(r1) ==> memory_after_insert(
            m2,
            addr,
            value,
        ) == Err::<Seq<Map<nat, CellValue>>, InsertRefusal>(r1),
{
    if memory_after_insert(m1, addr, value) is Ok {
        lemma_insert_cells(m1, addr, value, other);
        lemma_insert_cells(m2, addr, value, other);
    }
}

/// Writing a value again where it was just written succeeds and changes nothing.
pub proof fn lemma_insert_idempotent(
    memory: Seq<Map<nat, CellValue>>,
    addr: Relocatable,
    value: CellValue,
)
    requires
        memory_after_insert(memory, addr, value) is Ok,
    ensures
        memory_after_insert(memory_after_insert(memory, addr, value)->Ok_0, addr, value) == Ok::<
            Seq<Map<nat, CellValue>>,
            InsertRefusal,
        >(memory_after_insert(memory, addr, value)->Ok_0),
{
}

/// A cell that holds a value lies within its segment, whose length is a `usize`.
pub proof fn lemma_cell_offset_bound(memory: &Memory, addr: Relocatable)
    requires
        cell_at(memory@, addr) is Some,
    ensures
        addr.offset < usize::MAX,
{
    let segment = memory.data@[addr.segment_index as int];
    assert(segment.len() == segment@.len());
}

/// Memory segments, each a sequence of cells that are written at most once.
pub struct Memory {
    pub data: Vec<Vec<Option<MaybeRelocatable>>>,
}

impl View for Memory {
    type V = Seq<Map<nat, CellValue>>;

    open spec fn view(&self) -> Seq<Map<nat, CellValue>> {
        self.data@.map_values(|s: Vec<Option<MaybeRelocatable>>| segment_cells(s@))
    }
}

impl Memory {
    /// Memory without any segment.
    pub fn new() -> (r: Memory)
        ensures
            r@ == Seq::<Map<nat, CellValue>>::empty(),
    {
        let r = Memory { data: Vec::new() };
        proof {
            assert(r@ =~= Seq::<Map<nat, CellValue>>::empty());
        }
        r
    }

    /// Adds an empty segment and returns its first address.
    pub fn add_segment(&mut self) -> (r: Relocatable)
        ensures
            r == (Relocatable { segment_index: old(self)@.len() as usize, offset: 0 }),
            final(self)@ == old(self)@.push(Map::<nat, CellValue>::empty()),
    {
        let r = Relocatable { segment_index: self.data.len(), offset: 0 };
        self.data.push(Vec::new());
        proof {
            assert(segment_cells(Seq::<Option<MaybeRelocatable>>::empty()) =~= Map::<
                nat,
                CellValue,
            >::empty());
            assert(self@ =~= old(self)@.push(Map::<nat, CellValue>::empty()));
        }
        r
    }

    /// The content of the cell at `key`, if it holds one.
    pub fn get(&self, key: &Relocatable) -> (r: Option<&MaybeRelocatable>)
        ensures
            match r {
                Some(v) => cell_at(self@, *key) == Some(v@),
                None => cell_at(self@, *key) is None,
            },
    {
        if key.segment_index >= self.data.len() {
            return None;
        }
        let segment = &self.data[key.segment_index];
        if key.offset >= segment.len() {
            return None;
        }
        match &segment[key.offset] {
            Some(v) => Some(v),
            None => None,
        }
    }

    /// Writes `val` at `key` (see `memory_after_insert`).
    pub fn insert(&mut self, key: &Relocatable, val: &MaybeRelocatable) -> (r: Result<
        (),
        MemoryError,
    >)
        requires
            key.offset < usize::MAX,
        ensures
            match memory_after_insert(old(self)@, *key, val@) {
                Ok(m) => r is Ok && final(self)@ == m,
                Err(refusal) => r matches Err(e) && insert_error_matches(
                    e,
                    refusal,
                    old(self)@,
                    *key,
                    val@,
                ) && final(self)@ == old(self)@,
            },
    {
        let seg = key.segment_index;
        let off = key.offset;
        if seg >= self.data.len() {
            return Err(MemoryError::UnallocatedSegment(seg, self.data.len()));
        }
        match self.get(key) {
            Some(current) => {
                if current.equals(val) {
                    return Ok(());
                } else {
                    return Err(
                        MemoryError::InconsistentMemory(
                            MaybeRelocatable::RelocatableValue(*key),
                            current.clone(),
                            val.clone(),
                        ),
                    );
                }
            },
            None => {},
        }
        let mut segment: Vec<Option<MaybeRelocatable>> = Vec::new();
        self.data.set_and_swap(seg, &mut segment);
        let ghost old_segment = segment@;
        while segment.len() <= off
            invariant
                off < usize::MAX,
                old_segment.len() <= segment@.len(),
                segment@.len() <= off + 1 || segment@.len() == old_segment.len(),
                forall|i: int| 0 <= i < old_segment.len() ==> segment@[i] == old_segment[i],
                forall|i: int| old_segment.len() <= i < segment@.len() ==> segment@[i] is None,
            decreases off + 1 - segment.len(),
        {
            segment.push(None);
        }
        segment.set(off, Some(val.clone()));
        self.data.set(seg, segment);
        proof {
            assert(segment_cells(segment@) =~= segment_cells(old_segment).insert(off as nat, val@));
            if let Ok(m) = memory_after_insert(old(self)@, *key, val@) {
                assert(self@ =~= m);
            }
        }
        Ok(())
    }

    /// The integer in the cell at `key`.
    pub fn get_integer(&self, key: &Relocatable) -> (r: Result<&Integer, VirtualMachineError>)
        ensures
            match cell_at(self@, *key) {
                Some(CellValue::Int(v)) => r matches Ok(i) && i@ == v,
                _ => r matches Err(VirtualMachineError::ExpectedInteger(a)) && a@
                    == CellValue::Relocatable(*key),
            },
    {
        match self.get(key) {
            Some(MaybeRelocatable::Int(i)) => Ok(i),
            _ => Err(VirtualMachineError::ExpectedInteger(MaybeRelocatable::RelocatableValue(*key))),
        }
    }

    /// The address in the cell at `key`.
    pub fn get_relocatable(&self, key: &Relocatable) -> (r: Result<Relocatable, VirtualMachineError>)
        ensures
            match cell_at(self@, *key) {
                Some(CellValue::Relocatable(a)) => r == Ok::<Relocatable, VirtualMachineError>(a),
                _ => r matches Err(VirtualMachineError::ExpectedRelocatable(a)) && a@
                    == CellValue::Relocatable(*key),
            },
    {
        match self.get(key) {
            Some(MaybeRelocatable::RelocatableValue(a)) => Ok(*a),
            _ => Err(
                VirtualMachineError::ExpectedRelocatable(MaybeRelocatable::RelocatableValue(*key)),
            ),
        }
    }

    /// Writes `val` at `key` (see `memory_after_insert`).
    pub fn insert_value(&mut self, key: &Relocatable, val: MaybeRelocatable) -> (r: Result<
        (),
        VirtualMachineError,
    >)
        requires
            key.offset < usize::MAX,
        ensures
            match memory_after_insert(old(self)@, *key, val@) {
                Ok(m) => r is Ok && final(self)@ == m,
                Err(refusal) => r matches Err(VirtualMachineError::MemoryError(e))
                    && insert_error_matches(e, refusal, old(self)@, *key, val@) && final(self)@
                    == old(self)@,
            },
    {
        match self.insert(key, &val) {
            Ok(()) => Ok(()),
            Err(e) => Err(VirtualMachineError::MemoryError(e)),
        }
    }

    /// The contents of the `size` cells from `start` on (`None` for an empty cell).
    pub fn get_range(&self, start: &Relocatable, size: usize) -> (r: Vec<Option<MaybeRelocatable>>)
        requires
            start.offset + size <= usize::MAX,
        ensures
            r@.len() == size,
            forall|i: int|
                0 <= i < size ==> match #[trigger] r@[i] {
                    Some(v) => cell_at(
                        self@,
                        Relocatable { segment_index: start.segment_index, offset: (start.offset + i) as usize },
                    ) == Some(v@),
                    None => cell_at(
                        self@,
                        Relocatable { segment_index: start.segment_index, offset: (start.offset + i) as usize },
                    ) is None,
                },
    {
        let mut values: Vec<Option<MaybeRelocatable>> = Vec::new();
        let mut i: usize = 0;
        while i < size
            invariant
                start.offset + size <= usize::MAX,
                i <= size,
                values@.len() == i,
                forall|j: int|
                    0 <= j < i ==> match #[trigger] values@[j] {
                        Some(v) => cell_at(
                            self@,
                            Relocatable { segment_index: start.segment_index, offset: (start.offset + j) as usize },
                        ) == Some(v@),
                        None => cell_at(
                            self@,
                            Relocatable { segment_index: start.segment_index, offset: (start.offset + j) as usize },
                        ) is None,
                    },
            decreases size - i,
        {
            let addr = Relocatable { segment_index: start.segment_index, offset: start.offset + i };
            let cell = match self.get(&addr) {
                Some(v) => Some(v.clone()),
                None => None,
            };
            values.push(cell);
            i += 1;
        }
        values
    }
}

} // verus!
