use vstd::prelude::*;


verus! {

/// Address stride between two staging buffers: every buffer is placed on
/// its own 64-page unit, whatever its length.
pub const STAGING_UNIT: u64 = 262144;

/// Largest number of staging buffers a pool can hold.
pub const MAX_STAGING_SLOTS: usize = 4096;

/// Shared address of the staging buffer held in `slot`.
pub open spec fn staging_addr(slot: int) -> int {
    (slot + 1) * STAGING_UNIT
}

/// The slot whose staging buffer lives at `addr`, if `addr` names one.
pub open spec fn slot_of(addr: int) -> int {
    addr / STAGING_UNIT as int - 1
}

pub open spec fn is_staging_addr(addr: int, slots: int) -> bool {
    addr % STAGING_UNIT as int == 0 && 0 <= slot_of(addr) < slots
}

pub proof fn lemma_staging_addr(slot: int)
    requires
        0 <= slot,
    ensures
        staging_addr(slot) % STAGING_UNIT as int == 0,
        slot_of(staging_addr(slot)) == slot,
{
    assert(((slot + 1) * 262144) % 262144 == 0) by (nonlinear_arith)
        requires
            slot >= 0,
    ;
    assert(((slot + 1) * 262144) / 262144 == slot + 1) by (nonlinear_arith)
        requires
            slot >= 0,
    ;
}

/// A staging address pins its slot down.
pub proof fn lemma_staging_addr_inj(addr: int, slots: int)
    requires
        is_staging_addr(addr, slots),
    ensures
        staging_addr(slot_of(addr)) == addr,
{
    let q = addr / 262144;
    assert(q * 262144 == addr) by (nonlinear_arith)
        requires
            addr % 262144 == 0,
            q == addr / 262144,
    ;
}

/// Every staging address lies below 2^30 + one unit.
pub proof fn lemma_staging_addr_bound(addr: int, slots: int)
    requires
        is_staging_addr(addr, slots),
        slots <= MAX_STAGING_SLOTS,
    ensures
        0 < addr <= 0x4000_0000,
{
    let q = addr / 262144;
    assert(q * 262144 == addr) by (nonlinear_arith)
        requires
            addr % 262144 == 0,
            q == addr / 262144,
    ;
    assert(0 < q * 262144 <= 0x4000_0000) by (nonlinear_arith)
        requires
            1 <= q <= 4096,
    ;
}

/// Number of empty slots.
pub open spec fn count_free(s: Seq<Option<Seq<u8>>>) -> nat
    decreases s.len(),
{
    if s.len() == 0 {
        0
    } else {
        count_free(s.drop_last()) + if s.last() is None {
            1nat
        } else {
            0nat
        }
    }
}

pub proof fn lemma_count_free_update(s: Seq<Option<Seq<u8>>>, i: int, v: Option<Seq<u8>>)
    requires
        0 <= i < s.len(),
    ensures
        count_free(s.update(i, v)) == count_free(s) - (if s[i] is None {
            1int
        } else {
            0int
        }) + (if v is None {
            1int
        } else {
            0int
        }),
    decreases s.len(),
{
    let t = s.update(i, v);
    if i == s.len() - 1 {
        assert(t.drop_last() =~= s.drop_last());
    } else {
        lemma_count_free_update(s.drop_last(), i, v);
        assert(t.drop_last() =~= s.drop_last().update(i, v));
    }
}

pub proof fn lemma_count_free_full(s: Seq<Option<Seq<u8>>>)
    requires
        forall|i: int| 0 <= i < s.len() ==> s[i] is Some,
    ensures
        count_free(s) == 0,
    decreases s.len(),
{
    if s.len() > 0 {
        lemma_count_free_full(s.drop_last());
    }
}

pub proof fn lemma_count_free_bound(s: Seq<Option<Seq<u8>>>)
    ensures
        count_free(s) <= s.len(),
    decreases s.len(),
{
    if s.len() > 0 {
        lemma_count_free_bound(s.drop_last());
    }
}

/// Shared memory that the device can reach: a fixed number of staging
/// buffers, each on its own unit-aligned address.
pub struct DmaPool {
    bufs: Vec<Option<Vec<u8>>>,
    free: usize,
}

impl DmaPool {
    /// What each slot holds: the bytes of a live staging buffer, or nothing.
    pub closed spec fn view(&self) -> Seq<Option<Seq<u8>>> {
        Seq::new(
            self.bufs@.len(),
            |i: int|
                match self.bufs@[i] {
                    Some(b) => Some(b@),
                    None => None,
                },
        )
    }

    pub closed spec fn wf(&self) -> bool {
        self.bufs@.len() <= MAX_STAGING_SLOTS && self.free == count_free(self@)
    }

    /// Number of slots.
    pub open spec fn slots(&self) -> int {
        self@.len() as int
    }

    /// Number of slots that hold no buffer.
    pub open spec fn free_slots(&self) -> nat {
        count_free(self@)
    }

    /// The live staging buffer at `addr`, if any.
    pub open spec fn buffer_at(&self, addr: int) -> Option<Seq<u8>> {
        if is_staging_addr(addr, self.slots()) {
            self@[slot_of(addr)]
        } else {
            None
        }
    }

    /// A pool of `slots` empty staging buffers.
    pub fn new(slots: usize) -> (r: Self)
        requires
            slots <= MAX_STAGING_SLOTS,
        ensures
            r.wf(),
            r@.len() == slots,
            forall|i: int| 0 <= i < slots ==> r@[i] is None,
            r.free_slots() == slots,
    {
        let mut bufs: Vec<Option<Vec<u8>>> = Vec::new();
        let mut i: usize = 0;
        while i < slots
            invariant
                i <= slots,
                bufs@.len() == i,
                forall|j: int| 0 <= j < i ==> bufs@[j] is None,
                count_free(Seq::new(bufs@.len(), |j: int| None::<Seq<u8>>)) == i,
            decreases slots - i,
        {
            proof {
                let s = Seq::new((i + 1) as nat, |j: int| None::<Seq<u8>>);
                assert(s.drop_last() =~= Seq::new(i as nat, |j: int| None::<Seq<u8>>));
            }
            bufs.push(None);
            i = i + 1;
        }
        let r = DmaPool { bufs, free: slots };
        assert(r@ =~= Seq::new(slots as nat, |j: int| None::<Seq<u8>>));
        r
    }

    /// Number of empty slots.
    pub fn free_count(&self) -> (r: usize)
        requires
            self.wf(),
        ensures
            r == self.free_slots(),
    {
        self.free
    }

    /// Takes an empty slot, gives it a zeroed buffer of `len` bytes and
    /// returns its address; `None` when every slot is taken.
    pub fn allocate(&mut self, len: usize) -> (r: Option<u64>)
        requires
            old(self).wf(),
        ensures
            final(self).wf(),
            final(self)@.len() == old(self)@.len(),
            r is None <==> old(self).free_slots() == 0,
            r is None ==> final(self)@ == old(self)@,
            r matches Some(a) ==> {
                &&& is_staging_addr(a as int, old(self).slots())
                &&& 0 < a <= 0x4000_0000
                &&& old(self).buffer_at(a as int) is None
                &&& final(self)@ == old(self)@.update(
                    slot_of(a as int),
                    Some(Seq::new(len as nat, |j: int| 0u8)),
                )
                &&& final(self).free_slots() == old(self).free_slots() - 1
            },
    {
        let mut i: usize = 0;
        while i < self.bufs.len()
            invariant
                i <= self.bufs@.len(),
                *self == *old(self),
                old(self).wf(),
                forall|j: int| 0 <= j < i ==> self@[j] is Some,
            decreases self.bufs@.len() - i,
        {
            if self.bufs[i].is_none() {
                let mut buf: Vec<u8> = Vec::new();
                let mut k: usize = 0;
                while k < len
                    invariant
                        k <= len,
                        buf@ == Seq::new(k as nat, |j: int| 0u8),
                    decreases len - k,
                {
                    buf.push(0u8);
                    k = k + 1;
                    assert(buf@ =~= Seq::new(k as nat, |j: int| 0u8));
                }
                proof {
                    assert(buf@ =~= Seq::new(len as nat, |j: int| 0u8));
                    lemma_count_free_update(self@, i as int, Some(buf@));
                    lemma_staging_addr(i as int);
                    lemma_staging_addr_bound(staging_addr(i as int), self@.len() as int);
                }
                let ghost before = self@;
                self.bufs.set(i, Some(buf));
                assert(self@ =~= before.update(i as int, Some(buf@)));
                self.free = self.free - 1;
                return Some((i as u64 + 1) * STAGING_UNIT);
            }
            i = i + 1;
        }
        proof {
            lemma_count_free_full(self@);
        }
        None
    }

    /// Releases the buffer at `addr`; nothing happens where none is live.
    pub fn deallocate(&mut self, addr: u64)
        requires
            old(self).wf(),
        ensures
            final(self).wf(),
            final(self)@.len() == old(self)@.len(),
            is_staging_addr(addr as int, old(self).slots()) ==> final(self)@ == old(self)@.update(
                slot_of(addr as int),
                None,
            ),
            !is_staging_addr(addr as int, old(self).slots()) ==> final(self)@ == old(self)@,
    {
        if let Some(i) = self.slot_index(addr) {
            if self.bufs[i].is_some() {
                proof {
                    lemma_count_free_update(self@, i as int, None);
                    lemma_count_free_bound(self@);
                }
                let ghost before = self@;
                self.bufs.set(i, None);
                assert(self@ =~= before.update(i as int, None));
                self.free = self.free + 1;
            } else {
                assert(self@ =~= self@.update(i as int, None));
            }
        }
    }

    /// The slot that `addr` names, if it names one.
    fn slot_index(&self, addr: u64) -> (r: Option<usize>)
        requires
            self.wf(),
        ensures
            r is Some <==> is_staging_addr(addr as int, self.slots()),
            r matches Some(i) ==> i == slot_of(addr as int),
    {
        if addr % STAGING_UNIT != 0 || addr / STAGING_UNIT == 0 {
            return None;
        }
        let q = addr / STAGING_UNIT - 1;
        if q < self.bufs.len() as u64 {
            Some(q as usize)
        } else {
            None
        }
    }

    /// A copy of the live buffer at `addr`, as the device reads it.
    pub fn read(&self, addr: u64) -> (r: Option<Vec<u8>>)
        requires
            self.wf(),
        ensures
            r is Some <==> self.buffer_at(addr as int) is Some,
            r matches Some(v) ==> v@ == self.buffer_at(addr as int)->Some_0,
    {
        match self.slot_index(addr) {
            Some(i) => match &self.bufs[i] {
                Some(b) => Some(b.clone()),
                None => None,
            },
            None => None,
        }
    }

    /// Writes `data` at the start of the live buffer at `addr`, as the device
    /// does; refused (false) where no buffer lives there or `data` is longer.
    pub fn write(&mut self, addr: u64, data: &[u8]) -> (ok: bool)
        requires
            old(self).wf(),
        ensures
            final(self).wf(),
            final(self)@.len() == old(self)@.len(),
            ok <==> (old(self).buffer_at(addr as int) matches Some(b) && data@.len() <= b.len()),
            ok ==> final(self)@ == old(self)@.update(
                slot_of(addr as int),
                Some(data@ + old(self).buffer_at(addr as int)->Some_0.skip(data@.len() as int)),
            ),
            !ok ==> final(self)@ == old(self)@,
            final(self).free_slots() == old(self).free_slots(),
    {
        let i = match self.slot_index(addr) {
            Some(i) => i,
            None => return false,
        };
        let mut buf = match self.bufs[i].clone() {
            Some(b) => b,
            None => return false,
        };
        if data.len() > buf.len() {
            return false;
        }
        let ghost orig = buf@;
        let mut k: usize = 0;
        while k < data.len()
            invariant
                k <= data@.len() <= orig.len(),
                buf@.len() == orig.len(),
                forall|j: int| 0 <= j < k ==> buf@[j] == data@[j],
                forall|j: int| k <= j < orig.len() ==> buf@[j] == orig[j],
            decreases data@.len() - k,
        {
            buf.set(k, data[k]);
            k = k + 1;
        }
        assert(buf@ =~= data@ + orig.skip(data@.len() as int));
        proof {
            lemma_count_free_update(self@, i as int, Some(buf@));
        }
        let ghost before = self@;
        self.bufs.set(i, Some(buf));
        assert(self@ =~= before.update(i as int, Some(buf@)));
        true
    }
}

} // verus!
