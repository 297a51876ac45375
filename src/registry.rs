use vstd::prelude::*;

use crate::error::VirtioError;
use crate::staging::{is_staging_addr, slot_of, MAX_STAGING_SLOTS, STAGING_UNIT};

verus! {

/// Where a device-writable staging buffer's contents must be copied back:
/// a region of private memory.
#[derive(Debug, Clone, Copy, PartialEq, Eq, Structural)]
pub struct DmaTlbItem {
    pub dma_addr: usize,
    pub phy_addr: usize,
    pub phy_size: usize,
}

impl DmaTlbItem {
    pub fn new(dma_addr: usize, phy_addr: usize, phy_size: usize) -> (r: Self)
        ensures
            r == (DmaTlbItem { dma_addr, phy_addr, phy_size }),
    {
        DmaTlbItem { dma_addr, phy_addr, phy_size }
    }
}

/// The bounce-buffer registry: for each staging address of a posted
/// device-writable buffer, the private region it stands in for. Keys are
/// staging addresses of one pool, so each is held at most once.
pub struct DmaTlb {
    items: Vec<Option<DmaTlbItem>>,
}

impl DmaTlb {
    /// The entry of each pool slot.
    pub closed spec fn view(&self) -> Seq<Option<DmaTlbItem>> {
        self.items@
    }

    /// The entry under staging address `addr`, if any.
    pub open spec fn entry(&self, addr: int) -> Option<DmaTlbItem> {
        if is_staging_addr(addr, self@.len() as int) {
            self@[slot_of(addr)]
        } else {
            None
        }
    }

    /// An empty registry over a pool of `slots` staging buffers.
    pub fn new(slots: usize) -> (r: Self)
        requires
            slots <= MAX_STAGING_SLOTS,
        ensures
            r@.len() == slots,
            forall|i: int| 0 <= i < slots ==> r@[i] is None,
    {
        let mut items: Vec<Option<DmaTlbItem>> = Vec::new();
        let mut i: usize = 0;
        while i < slots
            invariant
                i <= slots,
                items@.len() == i,
                forall|j: int| 0 <= j < i ==> items@[j] is None,
            decreases slots - i,
        {
            items.push(None);
            i = i + 1;
        }
        DmaTlb { items }
    }

    fn slot_index(&self, addr: usize) -> (r: Option<usize>)
        requires
            self@.len() <= MAX_STAGING_SLOTS,
        ensures
            r is Some <==> is_staging_addr(addr as int, self@.len() as int),
            r matches Some(i) ==> i == slot_of(addr as int),
    {
        let unit = STAGING_UNIT as usize;
        if addr % unit != 0 || addr / unit == 0 {
            return None;
        }
        let q = addr / unit - 1;
        if q < self.items.len() {
            Some(q)
        } else {
            None
        }
    }

    /// The entry held under `addr`, if any.
    pub fn get(&self, addr: usize) -> (r: Option<DmaTlbItem>)
        requires
            self@.len() <= MAX_STAGING_SLOTS,
        ensures
            r == self.entry(addr as int),
    {
        match self.slot_index(addr) {
            Some(i) => self.items[i],
            None => None,
        }
    }

    /// Whether an entry is held under `addr`.
    pub fn contains_key(&self, addr: usize) -> (r: bool)
        requires
            self@.len() <= MAX_STAGING_SLOTS,
        ensures
            r == self.entry(addr as int) is Some,
    {
        match self.slot_index(addr) {
            Some(i) => self.items[i].is_some(),
            None => false,
        }
    }

    /// Records `item` under its staging address; refused where that address
    /// is not one of the pool's or already holds an entry.
    pub fn register(&mut self, item: DmaTlbItem) -> (r: Result<(), VirtioError>)
        requires
            old(self)@.len() <= MAX_STAGING_SLOTS,
        ensures
            r is Ok <==> is_staging_addr(item.dma_addr as int, old(self)@.len() as int)
                && old(self).entry(item.dma_addr as int) is None,
            r is Ok ==> final(self)@ == old(self)@.update(slot_of(item.dma_addr as int), Some(item)),
            r matches Err(e) ==> e == VirtioError::DmaError && final(self)@ == old(self)@,
    {
        match self.slot_index(item.dma_addr) {
            Some(i) => {
                if self.items[i].is_some() {
                    Err(VirtioError::DmaError)
                } else {
                    self.items.set(i, Some(item));
                    Ok(())
                }
            },
            None => Err(VirtioError::DmaError),
        }
    }

    /// Removes and returns the entry under `addr`, if one is held.
    pub fn take(&mut self, addr: usize) -> (r: Option<DmaTlbItem>)
        requires
            old(self)@.len() <= MAX_STAGING_SLOTS,
        ensures
            r == old(self).entry(addr as int),
            is_staging_addr(addr as int, old(self)@.len() as int) ==> final(self)@ == old(
                self,
            )@.update(slot_of(addr as int), None),
            !is_staging_addr(addr as int, old(self)@.len() as int) ==> final(self)@ == old(self)@,
    {
        match self.slot_index(addr) {
            Some(i) => {
                let r = self.items[i];
                self.items.set(i, None);
                r
            },
            None => None,
        }
    }
}

} // verus!
