use vstd::prelude::*;

verus! {

/// Identifies one physical page: which block, and which offset within it.
/// A pure value with no ownership of the page it names.
#[derive(PartialEq, Eq, Clone, Copy, Debug, Structural)]
pub struct PhysicalAddress {
    pub block_id: u32,
    pub page_offset: usize,
}

/// Logical-to-physical table, indexed by LBA. A slot holds the current
/// physical address of that LBA, or None while the LBA is unmapped. The
/// table is a pure lookup structure: whenever a slot is overwritten, the
/// previous occupant is returned and the caller must invalidate it.
pub struct MappingTable {
    entries: Vec<Option<PhysicalAddress>>,
}

impl View for MappingTable {
    type V = Seq<Option<PhysicalAddress>>;

    closed spec fn view(&self) -> Seq<Option<PhysicalAddress>> {
        self.entries@
    }
}

impl MappingTable {
    /// An empty table with one slot per LBA.
    pub fn new(total_lbas: usize) -> (t: MappingTable)
        ensures
            t@.len() == total_lbas,
            forall|l: int| 0 <= l < total_lbas ==> t@[l] is None,
    {
        let mut entries: Vec<Option<PhysicalAddress>> = Vec::new();
        let mut i: usize = 0;
        while i < total_lbas
            invariant
                i <= total_lbas,
                entries@.len() == i,
                forall|l: int| 0 <= l < i ==> entries@[l] is None,
            decreases total_lbas - i,
        {
            entries.push(None);
            i += 1;
        }
        MappingTable { entries }
    }

    /// Current physical address of an LBA; an out-of-range LBA is a caller
    /// error.
    pub fn get(&self, lba: usize) -> (r: Option<PhysicalAddress>)
        requires
            lba < self@.len(),
        ensures
            r == self@[lba as int],
    {
        self.entries[lba]
    }

    /// Install a new physical address for an LBA and hand back the previous
    /// one, if any, so that the caller can invalidate the page it names.
    pub fn update(&mut self, lba: usize, new_pba: PhysicalAddress) -> (old_pba: Option<
        PhysicalAddress,
    >)
        requires
            lba < old(self)@.len(),
        ensures
            final(self)@ == old(self)@.update(lba as int, Some(new_pba)),
            old_pba == old(self)@[lba as int],
    {
        let old_pba = self.entries[lba];
        self.entries.set(lba, Some(new_pba));
        old_pba
    }

    /// Clear the slot of an LBA (trim) and hand back the previous address,
    /// with the same invalidation responsibility as `update`.
    pub fn unmap(&mut self, lba: usize) -> (old_pba: Option<PhysicalAddress>)
        requires
            lba < old(self)@.len(),
        ensures
            final(self)@ == old(self)@.update(lba as int, None),
            old_pba == old(self)@[lba as int],
    {
        let old_pba = self.entries[lba];
        self.entries.set(lba, None);
        old_pba
    }

    /// Read-only view of all slots, LBA by LBA.
    pub fn entries(&self) -> (r: &Vec<Option<PhysicalAddress>>)
        ensures
            r@ == self@,
    {
        &self.entries
    }
}

} // verus!
