use vstd::prelude::*;

use crate::error::VirtioError;
use crate::layout::{is_pow2, is_power_of_two, VirtQueueLayout};
use crate::registry::{DmaTlb, DmaTlbItem};
use crate::staging::{is_staging_addr, slot_of, staging_addr, DmaPool, MAX_STAGING_SLOTS};

verus! {

/// Largest queue this driver accepts, whatever the transport advertises.
pub const MAX_QUEUE_SIZE: u16 = 32;

/// Descriptor flag: the chain continues at `next`.
pub const NEXT: u16 = 1;

/// Descriptor flag: the device writes this buffer.
pub const WRITE: u16 = 2;

/// Descriptor flag: the buffer holds a table of descriptors (not used here).
pub const INDIRECT: u16 = 4;

/// The ring index that follows `i`, wrapping at 2^16.
pub open spec fn next_idx(i: u16) -> u16 {
    if i == u16::MAX {
        0
    } else {
        (i + 1) as u16
    }
}

/// Relies on core::sync::atomic::fence: orders the memory accesses before it
/// against those after it, so the device sees a ring update only after the
/// data it refers to.
#[verifier::external_body]
fn memory_barrier() {
    core::sync::atomic::fence(core::sync::atomic::Ordering::SeqCst)
}

pub open spec fn has_next(flags: u16) -> bool {
    flags % 2 == 1
}

pub open spec fn is_writable(flags: u16) -> bool {
    (flags / 2) % 2 == 1
}

/// One slot of the descriptor table, as laid out on the wire.
#[derive(Debug, Clone, Copy, PartialEq, Eq, Structural)]
pub struct Descriptor {
    pub addr: u64,
    pub len: u32,
    pub flags: u16,
    pub next: u16,
}

/// One element of the used ring: the head of a completed chain and the
/// number of bytes the device wrote.
#[derive(Debug, Clone, Copy, PartialEq, Eq, Structural)]
pub struct UsedElem {
    pub id: u32,
    pub len: u32,
}

/// A region of private memory that a device-writable buffer stands for.
#[derive(Debug, Clone, Copy, PartialEq, Eq, Structural)]
pub struct PrivateBuf {
    pub addr: usize,
    pub len: usize,
}

/// `mem` with the region of `e` overwritten by the first bytes of `data`,
/// where the region lies inside `mem` and `data` covers it.
pub open spec fn copy_back(mem: Seq<u8>, e: DmaTlbItem, data: Seq<u8>) -> Seq<u8> {
    if e.phy_addr + e.phy_size <= mem.len() && e.phy_size <= data.len() {
        mem.take(e.phy_addr as int) + data.take(e.phy_size as int) + mem.skip(
            e.phy_addr + e.phy_size,
        )
    } else {
        mem
    }
}

/// `mem` after the copy-back of a descriptor whose staging address holds
/// `entry` in the registry and `buf` in staging memory.
pub open spec fn recycle_step(mem: Seq<u8>, entry: Option<DmaTlbItem>, buf: Option<Seq<u8>>) -> Seq<
    u8,
> {
    match (entry, buf) {
        (Some(e), Some(b)) => copy_back(mem, e, b),
        _ => mem,
    }
}

/// Copies the region of `e` back from `data` into private memory.
fn copy_region(private: &mut Vec<u8>, e: DmaTlbItem, data: &Vec<u8>)
    ensures
        final(private)@ == copy_back(old(private)@, e, data@),
{
    if e.phy_size > data.len() || e.phy_addr > private.len() || e.phy_size > private.len()
        - e.phy_addr {
        return;
    }
    let ghost mem = private@;
    let mut k: usize = 0;
    while k < e.phy_size
        invariant
            k <= e.phy_size <= data@.len(),
            e.phy_addr + e.phy_size <= mem.len() <= usize::MAX,
            private@.len() == mem.len(),
            forall|x: int| 0 <= x < e.phy_addr ==> private@[x] == mem[x],
            forall|x: int| e.phy_addr + k <= x < mem.len() ==> private@[x] == mem[x],
            forall|x: int| 0 <= x < k ==> private@[e.phy_addr + x] == data@[x],
        decreases e.phy_size - k,
    {
        private.set(e.phy_addr + k, data[k]);
        k = k + 1;
    }
    assert(private@ =~= mem.take(e.phy_addr as int) + data@.take(e.phy_size as int) + mem.skip(
        e.phy_addr + e.phy_size,
    ));
}

/// A sequence of distinct indices below `n` has at most `n` elements.
proof fn lemma_distinct_bound(s: Seq<u16>, n: int)
    requires
        s.no_duplicates(),
        forall|k: int| 0 <= k < s.len() ==> s[k] < n,
        0 <= n,
    ensures
        s.len() <= n,
{
    let t = s.map_values(|x: u16| x as int);
    assert(t.no_duplicates()) by {
        assert forall|a: int, b: int| 0 <= a < t.len() && 0 <= b < t.len() && a != b implies t[a]
            != t[b] by {
            assert(s[a] != s[b]);
        }
    }
    t.unique_seq_to_set();
    vstd::set_lib::lemma_int_range(0, n);
    assert(t.to_set().subset_of(vstd::set_lib::set_int_range(0, n))) by {
        assert forall|x: int| t.to_set().contains(x) implies 0 <= x < n by {
            let w = choose|w: int| 0 <= w < t.len() && t[w] == x;
        }
    }
    vstd::set_lib::lemma_len_subset(t.to_set(), vstd::set_lib::set_int_range(0, n));
}

/// The mechanism for bulk data transport on virtio devices.
pub struct VirtQueue {
    layout: VirtQueueLayout,
    desc: Vec<Descriptor>,
    avail_ring: Vec<u16>,
    avail_ring_idx: u16,
    used_ring: Vec<UsedElem>,
    used_ring_idx: u16,
    /// For each descriptor: the length of the in-flight chain it heads, or 0.
    chain_len: Vec<u16>,
    pool: DmaPool,
    tlb: DmaTlb,
    queue_idx: usize,
    queue_size: u16,
    num_used: u16,
    free_head: u16,
    avail_idx: u16,
    last_used_idx: u16,
    /// The free list, from `free_head` on.
    free: Ghost<Seq<u16>>,
    /// In-flight chains, by head.
    chains: Ghost<Map<u16, Seq<u16>>>,
    /// For each in-flight descriptor, the head of its chain.
    owner: Ghost<Map<u16, u16>>,
    /// For each registered staging slot, the descriptor that posted it.
    writer: Ghost<Map<int, u16>>,
}

impl VirtQueue {
    pub closed spec fn spec_queue_size(&self) -> int {
        self.queue_size as int
    }

    pub closed spec fn spec_queue_idx(&self) -> usize {
        self.queue_idx
    }

    pub closed spec fn spec_num_used(&self) -> int {
        self.num_used as int
    }

    pub closed spec fn spec_free_head(&self) -> u16 {
        self.free_head
    }

    pub closed spec fn spec_avail_idx(&self) -> u16 {
        self.avail_idx
    }

    pub closed spec fn spec_last_used_idx(&self) -> u16 {
        self.last_used_idx
    }

    pub closed spec fn spec_used_idx(&self) -> u16 {
        self.used_ring_idx
    }

    pub closed spec fn spec_layout(&self) -> VirtQueueLayout {
        self.layout
    }

    /// The descriptor table.
    pub closed spec fn descs(&self) -> Seq<Descriptor> {
        self.desc@
    }

    /// The available ring's slots, and the index the driver published.
    pub closed spec fn avail(&self) -> (Seq<u16>, u16) {
        (self.avail_ring@, self.avail_ring_idx)
    }

    /// The used ring's elements.
    pub closed spec fn used(&self) -> Seq<UsedElem> {
        self.used_ring@
    }

    /// The free list, in the order it is walked from the free head.
    pub closed spec fn free_list(&self) -> Seq<u16> {
        self.free@
    }

    /// The in-flight chains, each keyed by its head.
    pub closed spec fn chains(&self) -> Map<u16, Seq<u16>> {
        self.chains@
    }

    /// The staging memory.
    pub closed spec fn staging(&self) -> DmaPool {
        self.pool
    }

    /// The bounce-buffer registry.
    pub closed spec fn registry(&self) -> DmaTlb {
        self.tlb
    }

    /// Whether descriptor `i` belongs to an in-flight chain.
    pub closed spec fn in_flight(&self, i: u16) -> bool {
        self.owner@.contains_key(i)
    }

    /// Staging addresses of the device-writable buffers now in flight.
    pub open spec fn inflight_writable_addrs(&self) -> Set<int> {
        Set::new(
            |a: int|
                exists|i: u16|
                    #![trigger self.in_flight(i)]
                    self.in_flight(i) && is_writable(self.descs()[i as int].flags)
                        && self.descs()[i as int].addr == a,
        )
    }

    /// Staging addresses that the registry holds an entry for.
    pub open spec fn registry_keys(&self) -> Set<int> {
        Set::new(|a: int| self.registry().entry(a) is Some)
    }

    closed spec fn wf_shape(&self) -> bool {
        &&& 1 <= self.queue_size <= MAX_QUEUE_SIZE
        &&& is_pow2(self.queue_size as int)
        &&& self.desc@.len() == self.queue_size
        &&& self.avail_ring@.len() == self.queue_size
        &&& self.used_ring@.len() == self.queue_size
        &&& self.chain_len@.len() == self.queue_size
        &&& self.num_used + self.free@.len() == self.queue_size
        &&& self.pool.wf()
        &&& self.pool@.len() <= MAX_STAGING_SLOTS
        &&& self.tlb@.len() == self.pool@.len()
        &&& self.layout == VirtQueueLayout::spec_for(self.queue_size as int)
    }

    closed spec fn wf_free(&self) -> bool {
        &&& self.free@.no_duplicates()
        &&& forall|k: int| 0 <= k < self.free@.len() ==> self.free@[k] < self.queue_size
        &&& forall|k: int|
            0 <= k < self.free@.len() - 1 ==> #[trigger] self.desc@[self.free@[k] as int].next
                == self.free@[k + 1]
        &&& self.free@.len() > 0 ==> self.free@[0] == self.free_head
        &&& forall|i: u16| i < self.queue_size ==> (self.free@.contains(i) <==> !self.owner@.contains_key(i))
    }

    closed spec fn wf_chains(&self) -> bool {
        &&& forall|h: u16| #[trigger]
            self.chains@.contains_key(h) ==> {
                let c = self.chains@[h];
                &&& c.len() > 0
                &&& c[0] == h
                &&& c.no_duplicates()
                &&& forall|k: int|
                    0 <= k < c.len() ==> c[k] < self.queue_size && self.owner@.contains_key(c[k])
                        && self.owner@[c[k]] == h
                &&& forall|k: int|
                    0 <= k < c.len() - 1 ==> has_next(#[trigger] self.desc@[c[k] as int].flags)
                        && self.desc@[c[k] as int].next == c[k + 1]
                &&& !has_next(self.desc@[c.last() as int].flags)
            }
        &&& forall|i: u16| #[trigger]
            self.owner@.contains_key(i) ==> i < self.queue_size && self.chains@.contains_key(
                self.owner@[i],
            ) && self.chains@[self.owner@[i]].contains(i)
        &&& forall|i: int|
            0 <= i < self.queue_size ==> #[trigger] self.chain_len@[i] == if self.chains@.contains_key(
                i as u16,
            ) {
                self.chains@[i as u16].len() as int
            } else {
                0
            }
    }

    closed spec fn wf_staging(&self) -> bool {
        &&& forall|i: u16| #[trigger]
            self.owner@.contains_key(i) ==> self.pool.buffer_at(self.desc@[i as int].addr as int) is Some
        &&& forall|i: u16, j: u16|
            #![trigger self.owner@.contains_key(i), self.owner@.contains_key(j)]
            self.owner@.contains_key(i) && self.owner@.contains_key(j) && i != j ==> self.desc@[i as int].addr
                != self.desc@[j as int].addr
        &&& forall|i: u16| #[trigger]
            self.owner@.contains_key(i) ==> match self.tlb.entry(self.desc@[i as int].addr as int) {
                Some(e) => is_writable(self.desc@[i as int].flags) && e.dma_addr
                    == self.desc@[i as int].addr && e.phy_size <= self.pool.buffer_at(
                    self.desc@[i as int].addr as int,
                )->Some_0.len(),
                None => !is_writable(self.desc@[i as int].flags),
            }
        &&& forall|s: int|
            0 <= s < self.tlb@.len() && #[trigger] self.tlb@[s] is Some ==> self.pool@[s] is Some
        &&& forall|s: int|
            0 <= s < self.tlb@.len() && #[trigger] self.tlb@[s] is Some ==> self.writer@.contains_key(s)
                && self.owner@.contains_key(self.writer@[s]) && is_writable(
                self.desc@[self.writer@[s] as int].flags,
            ) && self.desc@[self.writer@[s] as int].addr == staging_addr(s)
    }

    /// The queue's invariant.
    pub closed spec fn wf(&self) -> bool {
        &&& self.wf_shape()
        &&& self.wf_free()
        &&& self.wf_chains()
        &&& self.wf_staging()
    }

    /// Creates a queue of `size` descriptors on a transport whose largest
    /// queue is `max_size`, with `staging_slots` shared staging buffers.
    ///
    /// Besides a bad queue size, a request for more staging buffers than a
    /// pool can address (`MAX_STAGING_SLOTS`) is refused as `InvalidParam`.
    pub fn new(max_size: u16, idx: usize, size: u16, staging_slots: usize) -> (r: Result<
        Self,
        VirtioError,
    >)
        ensures
            r is Err <==> !is_pow2(size as int) || max_size < size || size > MAX_QUEUE_SIZE
                || staging_slots > MAX_STAGING_SLOTS,
            r matches Err(e) ==> e == VirtioError::InvalidParam,
            r matches Ok(q) ==> {
                &&& q.wf()
                &&& q.spec_queue_size() == size
                &&& q.spec_queue_idx() == idx
                &&& q.spec_num_used() == 0
                &&& q.free_list() == Seq::new(size as nat, |i: int| i as u16)
                &&& q.chains() == Map::<u16, Seq<u16>>::empty()
                &&& q.spec_avail_idx() == 0
                &&& q.spec_last_used_idx() == 0
                &&& q.spec_used_idx() == 0
                &&& q.staging()@.len() == staging_slots
                &&& q.staging().free_slots() == staging_slots
                &&& forall|i: int| 0 <= i < staging_slots ==> q.staging()@[i] is None
                &&& q.registry()@.len() == staging_slots
                &&& forall|i: int| 0 <= i < staging_slots ==> q.registry()@[i] is None
                &&& q.spec_layout() == VirtQueueLayout::spec_for(size as int)
            },
    {
        if !is_power_of_two(size) || max_size < size || size > MAX_QUEUE_SIZE {
            return Err(VirtioError::InvalidParam);
        }
        if staging_slots > MAX_STAGING_SLOTS {
            return Err(VirtioError::InvalidParam);
        }
        let layout = VirtQueueLayout::new(size);
        let mut desc: Vec<Descriptor> = Vec::new();
        let mut avail_ring: Vec<u16> = Vec::new();
        let mut used_ring: Vec<UsedElem> = Vec::new();
        let mut chain_len: Vec<u16> = Vec::new();
        // link descriptors together
        let mut i: u16 = 0;
        while i < size
            invariant
                i <= size <= MAX_QUEUE_SIZE,
                desc@.len() == i,
                avail_ring@.len() == i,
                used_ring@.len() == i,
                chain_len@.len() == i,
                forall|j: int| 0 <= j < i ==> (#[trigger] desc@[j]).next == j + 1,
                forall|j: int| 0 <= j < i ==> #[trigger] chain_len@[j] == 0,
            decreases size - i,
        {
            desc.push(Descriptor { addr: 0, len: 0, flags: 0, next: i + 1 });
            avail_ring.push(0);
            used_ring.push(UsedElem { id: 0, len: 0 });
            chain_len.push(0);
            i = i + 1;
        }
        let ghost free = Seq::new(size as nat, |j: int| j as u16);
        let pool = DmaPool::new(staging_slots);
        let tlb = DmaTlb::new(staging_slots);
        let q = VirtQueue {
            layout,
            desc,
            avail_ring,
            avail_ring_idx: 0,
            used_ring,
            used_ring_idx: 0,
            chain_len,
            pool,
            tlb,
            queue_idx: idx,
            queue_size: size,
            num_used: 0,
            free_head: 0,
            avail_idx: 0,
            last_used_idx: 0,
            free: Ghost(free),
            chains: Ghost(Map::empty()),
            owner: Ghost(Map::empty()),
            writer: Ghost(Map::empty()),
        };
        assert forall|i: u16| i < size implies q.free@.contains(i) by {
            assert(q.free@[i as int] == i);
        }
        assert(forall|s: int| 0 <= s < q.tlb@.len() ==> q.tlb@[s] is None);
        Ok(q)
    }

    /// Whether there is a used element that can pop.
    pub fn can_pop(&self) -> (r: bool)
        ensures
            r == (self.spec_last_used_idx() != self.spec_used_idx()),
    {
        self.last_used_idx != self.used_ring_idx
    }

    /// The number of free descriptors.
    pub fn available_desc(&self) -> (r: usize)
        requires
            self.wf(),
        ensures
            r == self.spec_queue_size() - self.spec_num_used(),
            r == self.free_list().len(),
    {
        (self.queue_size - self.num_used) as usize
    }

    /// The number of descriptor slots.
    pub fn queue_size(&self) -> (r: u16)
        ensures
            r == self.spec_queue_size(),
    {
        self.queue_size
    }

    /// The index of this queue on its transport.
    pub fn queue_idx(&self) -> (r: usize)
        ensures
            r == self.spec_queue_idx(),
    {
        self.queue_idx
    }

    /// Where the three wire structures sit in the queue's region.
    pub fn layout(&self) -> (r: VirtQueueLayout)
        ensures
            r == self.spec_layout(),
    {
        self.layout
    }

    /// Descriptor `i` of the table.
    pub fn descriptor(&self, i: u16) -> (r: Descriptor)
        requires
            self.wf(),
            i < self.spec_queue_size(),
        ensures
            r == self.descs()[i as int],
    {
        self.desc[i as usize]
    }

    /// Descriptor `j` of a chain being posted from `inputs` then `outputs`,
    /// staged at a fresh buffer: input bytes copied in, output regions
    /// registered for copy-back.
    pub open spec fn posted(
        d: Descriptor,
        d_old: Descriptor,
        pool: DmaPool,
        tlb: DmaTlb,
        inputs: Seq<Seq<u8>>,
        outputs: Seq<PrivateBuf>,
        j: int,
        last: bool,
    ) -> bool {
        &&& d.next == d_old.next
        &&& is_staging_addr(d.addr as int, pool.slots())
        &&& 0 < d.addr <= 0x4000_0000
        &&& if j < inputs.len() {
            &&& d.len == inputs[j].len() as u32
            &&& d.flags == if last {
                0
            } else {
                NEXT
            }
            &&& pool.buffer_at(d.addr as int) == Some(inputs[j])
            &&& tlb.entry(d.addr as int) is None
        } else {
            let o = outputs[j - inputs.len()];
            &&& d.len == o.len as u32
            &&& d.flags == if last {
                WRITE
            } else {
                3u16
            }
            &&& pool.buffer_at(d.addr as int) == Some(Seq::new(o.len as nat, |x: int| 0u8))
            &&& tlb.entry(d.addr as int) == Some(
                DmaTlbItem { dma_addr: d.addr as usize, phy_addr: o.addr, phy_size: o.len },
            )
        }
    }

    /// Add buffers to the virtqueue, return a token: the chain's head.
    ///
    /// Device-readable `inputs` are copied into fresh staging buffers;
    /// device-writable `outputs` get zeroed staging buffers registered for
    /// copy-back into their private regions.
    pub fn add(&mut self, inputs: &[&[u8]], outputs: &[PrivateBuf]) -> (r: Result<u16, VirtioError>)
        requires
            old(self).wf(),
        ensures
            final(self).wf(),
            r == Err::<u16, VirtioError>(VirtioError::InvalidParam) <==> inputs@.len() == 0
                && outputs@.len() == 0,
            r == Err::<u16, VirtioError>(VirtioError::BufferTooSmall) <==> (inputs@.len() > 0
                || outputs@.len() > 0) && inputs@.len() + outputs@.len() + old(self).spec_num_used()
                > old(self).spec_queue_size(),
            r == Err::<u16, VirtioError>(VirtioError::DmaError) <==> (inputs@.len() > 0
                || outputs@.len() > 0) && inputs@.len() + outputs@.len() + old(self).spec_num_used()
                <= old(self).spec_queue_size() && old(self).staging().free_slots() < inputs@.len()
                + outputs@.len(),
            r is Ok <==> inputs@.len() + outputs@.len() > 0 && inputs@.len() + outputs@.len()
                + old(self).spec_num_used() <= old(self).spec_queue_size()
                && old(self).staging().free_slots() >= inputs@.len() + outputs@.len(),
            r is Err ==> *final(self) == *old(self),
            r matches Ok(head) ==> {
                let n = inputs@.len() + outputs@.len();
                let chain = old(self).free_list().take(n as int);
                let ins = inputs@.map_values(|b: &[u8]| b@);
                &&& head == old(self).spec_free_head()
                &&& final(self).spec_num_used() == old(self).spec_num_used() + n
                &&& final(self).free_list() == old(self).free_list().skip(n as int)
                &&& final(self).chains() == old(self).chains().insert(head, chain)
                &&& forall|j: int|
                    0 <= j < n ==> {
                        Self::posted(
                            #[trigger] final(self).descs()[chain[j] as int],
                            old(self).descs()[chain[j] as int],
                            final(self).staging(),
                            final(self).registry(),
                            ins,
                            outputs@,
                            j,
                            j == n - 1,
                        )
                    }
                &&& final(self).avail().0 == old(self).avail().0.update(
                    old(self).spec_avail_idx() as int % old(self).spec_queue_size(),
                    head,
                )
                &&& final(self).spec_avail_idx() == next_idx(old(self).spec_avail_idx())
                &&& final(self).avail().1 == final(self).spec_avail_idx()
                &&& final(self).spec_last_used_idx() == old(self).spec_last_used_idx()
                &&& final(self).spec_used_idx() == old(self).spec_used_idx()
                &&& final(self).used() == old(self).used()
                &&& final(self).spec_queue_size() == old(self).spec_queue_size()
                &&& final(self).staging().free_slots() == old(self).staging().free_slots() - n
                &&& forall|j: int|
                    0 <= j < n ==> old(self).staging().buffer_at(
                        #[trigger] final(self).descs()[chain[j] as int].addr as int,
                    ) is None
                &&& forall|i: int|
                    0 <= i < old(self).spec_queue_size() && !chain.contains(i as u16)
                        ==> #[trigger] final(self).descs()[i] == old(self).descs()[i]
                &&& forall|a: int|
                    #[trigger] old(self).staging().buffer_at(a) is Some ==> final(self).staging().buffer_at(a)
                        == old(self).staging().buffer_at(a) && final(self).registry().entry(a)
                        == old(self).registry().entry(a)
            },
    {
        if inputs.len() == 0 && outputs.len() == 0 {
            return Err(VirtioError::InvalidParam);
        }
        let qs = self.queue_size as usize;
        if inputs.len() > qs || outputs.len() > qs || inputs.len() + outputs.len()
            + self.num_used as usize > qs {
            return Err(VirtioError::BufferTooSmall);
        }
        let ni = inputs.len();
        let n = inputs.len() + outputs.len();
        if self.pool.free_count() < n {
            return Err(VirtioError::DmaError);
        }
        let ghost f0 = self.free@;
        let ghost d0 = self.desc@;
        let ghost p0 = self.pool;
        let ghost t0 = self.tlb;
        let ghost ins = inputs@.map_values(|b: &[u8]| b@);
        let head = self.free_head;
        let mut last: u16 = head;
        let mut k: usize = 0;
        while k < n
            invariant
                old(self).wf(),
                ni == inputs@.len(),
                n == ni + outputs@.len(),
                1 <= n <= f0.len(),
                ins == inputs@.map_values(|b: &[u8]| b@),
                f0 == old(self).free@,
                d0 == old(self).desc@,
                p0 == old(self).pool,
                t0 == old(self).tlb,
                head == old(self).free_head,
                k <= n,
                k > 0 ==> last == f0[k - 1],
                self.queue_size == old(self).queue_size,
                self.free == old(self).free,
                self.chains == old(self).chains,
                self.owner == old(self).owner,
                self.num_used == old(self).num_used,
                self.chain_len == old(self).chain_len,
                self.avail_ring == old(self).avail_ring,
                self.avail_ring_idx == old(self).avail_ring_idx,
                self.used_ring == old(self).used_ring,
                self.used_ring_idx == old(self).used_ring_idx,
                self.avail_idx == old(self).avail_idx,
                self.last_used_idx == old(self).last_used_idx,
                self.layout == old(self).layout,
                self.queue_idx == old(self).queue_idx,
                self.desc@.len() == d0.len(),
                self.pool.wf(),
                self.pool@.len() == p0@.len(),
                self.tlb@.len() == t0@.len(),
                self.pool.free_slots() + k == p0.free_slots(),
                p0.free_slots() >= n,
                k < f0.len() ==> self.free_head == f0[k as int],
                forall|i: int|
                    0 <= i < d0.len() && !f0.take(k as int).contains(i as u16) ==> self.desc@[i]
                        == d0[i],
                forall|j: int|
                    0 <= j < k ==> Self::posted(
                        #[trigger] self.desc@[f0[j] as int],
                        d0[f0[j] as int],
                        self.pool,
                        self.tlb,
                        ins,
                        outputs@,
                        j,
                        false,
                    ),
                forall|j1: int, j2: int|
                    0 <= j1 < j2 < k ==> #[trigger] self.desc@[f0[j1] as int].addr
                        != #[trigger] self.desc@[f0[j2] as int].addr,
                forall|j: int| 0 <= j < k ==> p0.buffer_at(#[trigger] self.desc@[f0[j] as int].addr as int) is None,
                forall|a: int|
                    #[trigger] p0.buffer_at(a) is Some ==> self.pool.buffer_at(a) == p0.buffer_at(a)
                        && self.tlb.entry(a) == t0.entry(a),
                forall|s: int|
                    0 <= s < self.tlb@.len() && #[trigger] self.tlb@[s] is Some ==> self.pool@[s] is Some,
                forall|s: int|
                    0 <= s < self.tlb@.len() && #[trigger] self.tlb@[s] is Some ==> self.writer@.contains_key(s)
                        && (old(self).owner@.contains_key(self.writer@[s]) || f0.take(k as int).contains(
                        self.writer@[s],
                    )) && is_writable(self.desc@[self.writer@[s] as int].flags)
                        && self.desc@[self.writer@[s] as int].addr == staging_addr(s),
            decreases n - k,
        {
            let i = self.free_head;
            let old_d = self.desc[i as usize];
            let ghost p1 = self.pool;
            let ghost t1 = self.tlb;
            let ghost w1 = self.writer@;
            let d;
            if k < ni {
                let input: &[u8] = inputs[k];
                let addr = match self.pool.allocate(input.len()) {
                    Some(a) => a,
                    None => return Err(VirtioError::DmaError),
                };
                let _ = self.pool.write(addr, input);
                d = Descriptor { addr, len: input.len() as u32, flags: NEXT, next: old_d.next };
                assert(Seq::new(input@.len(), |x: int| 0u8).skip(input@.len() as int) =~= Seq::<u8>::empty());
                assert(input@ + Seq::<u8>::empty() =~= input@);
            } else {
                let out = outputs[k - ni];
                let addr = match self.pool.allocate(out.len) {
                    Some(a) => a,
                    None => return Err(VirtioError::DmaError),
                };
                let item = DmaTlbItem::new(addr as usize, out.addr, out.len);
                match self.tlb.register(item) {
                    Ok(()) => {},
                    Err(e) => return Err(e),
                }
                proof {
                    self.writer@ = self.writer@.insert(slot_of(addr as int), i);
                }
                d = Descriptor { addr, len: out.len as u32, flags: 3, next: old_d.next };
            }
            self.desc.set(i as usize, d);
            self.free_head = d.next;
            last = i;
            proof {
                assert(f0.take(k + 1) =~= f0.take(k as int).push(f0[k as int]));
                if k + 1 < f0.len() {
                    assert(d0[f0[k as int] as int].next == f0[k + 1]);
                }
                assert forall|j: int| 0 <= j < k + 1 implies Self::posted(
                        #[trigger] self.desc@[f0[j] as int],
                        d0[f0[j] as int],
                        self.pool,
                        self.tlb,
                        ins,
                        outputs@,
                        j,
                        false,
                    ) by {
                    if j < k {
                        assert(f0[j] != f0[k as int]);
                    }
                }
                assert forall|x: int|
                    0 <= x < d0.len() && !f0.take(k + 1).contains(x as u16) implies self.desc@[x]
                        == d0[x] by {
                    assert(f0.take(k + 1)[k as int] == f0[k as int]);
                    if f0.take(k as int).contains(x as u16) {
                        let w = choose|w: int| 0 <= w < k && f0.take(k as int)[w] == x as u16;
                        assert(f0.take(k + 1)[w] == x as u16);
                    }
                }
                assert forall|s: int|
                    0 <= s < self.tlb@.len() && #[trigger] self.tlb@[s] is Some implies self.writer@.contains_key(
                        s,
                    ) && (old(self).owner@.contains_key(self.writer@[s]) || f0.take(k + 1).contains(
                        self.writer@[s],
                    )) && is_writable(self.desc@[self.writer@[s] as int].flags)
                        && self.desc@[self.writer@[s] as int].addr == staging_addr(s) by {
                    if k >= ni && s == slot_of(d.addr as int) {
                        crate::staging::lemma_staging_addr_inj(d.addr as int, p0.slots());
                        assert(f0.take(k + 1)[k as int] == i);
                    } else {
                        assert(t1@[s] is Some);
                        let wi = w1[s];
                        assert(self.writer@[s] == wi);
                        if old(self).owner@.contains_key(wi) {
                            assert(!old(self).free@.contains(wi));
                            assert(wi != f0[k as int]);
                        } else {
                            let x = choose|x: int| 0 <= x < k && f0.take(k as int)[x] == wi;
                            assert(f0[x] != f0[k as int]);
                            assert(f0.take(k + 1)[x] == wi);
                        }
                    }
                }
                assert forall|j1: int, j2: int|
                    0 <= j1 < j2 < k + 1 implies #[trigger] self.desc@[f0[j1] as int].addr
                        != #[trigger] self.desc@[f0[j2] as int].addr by {
                    if j2 == k {
                        assert(p1.buffer_at(self.desc@[f0[j1] as int].addr as int) is Some);
                    }
                }
            }
            k = k + 1;
        }
        // set last_elem.next = NULL
        let ghost d1 = self.desc@;
        let ghost chain = f0.take(n as int);
        let mut ld = self.desc[last as usize];
        ld.flags = ld.flags - NEXT;
        self.desc.set(last as usize, ld);
        self.num_used = self.num_used + n as u16;
        self.chain_len.set(head as usize, n as u16);
        proof {
            assert(chain.last() == last);
            self.free@ = f0.skip(n as int);
            self.chains@ = self.chains@.insert(head, chain);
            self.owner@ = self.owner@.union_prefer_right(
                Map::new(|i: u16| chain.contains(i), |i: u16| head),
            );
        }
        let slot = self.avail_idx % self.queue_size;
        self.avail_ring.set(slot as usize, head);
        // write barrier
        memory_barrier();
        self.avail_idx = if self.avail_idx == u16::MAX {
            0
        } else {
            self.avail_idx + 1
        };
        self.avail_ring_idx = self.avail_idx;
        proof {
            assert(f0.take(n as int) == chain);
            self.lemma_add_wf(old(self), chain, head, n as int, d1, f0);
        }
        Ok(head)
    }

    #[verifier::spinoff_prover]
    #[verifier::rlimit(60)]
    proof fn lemma_add_wf(
        &self,
        prev: &Self,
        chain: Seq<u16>,
        head: u16,
        n: int,
        d1: Seq<Descriptor>,
        f0: Seq<u16>,
    )
        requires
            prev.wf(),
            f0 == prev.free@,
            1 <= n <= f0.len(),
            chain == f0.take(n),
            head == f0[0],
            self.queue_size == prev.queue_size,
            self.layout == prev.layout,
            self.num_used == prev.num_used + n,
            self.free@ == f0.skip(n),
            self.chains@ == prev.chains@.insert(head, chain),
            self.owner@ == prev.owner@.union_prefer_right(
                Map::new(|i: u16| chain.contains(i), |i: u16| head),
            ),
            self.chain_len@ == prev.chain_len@.update(head as int, n as u16),
            self.avail_ring@.len() == prev.avail_ring@.len(),
            self.used_ring@ == prev.used_ring@,
            n < f0.len() ==> self.free_head == f0[n],
            d1.len() == prev.desc@.len(),
            self.desc@ == d1.update(
                f0[n - 1] as int,
                Descriptor { flags: (d1[f0[n - 1] as int].flags - NEXT) as u16, ..d1[f0[n - 1] as int] },
            ),
            has_next(d1[f0[n - 1] as int].flags),
            forall|i: int|
                0 <= i < d1.len() && !chain.contains(i as u16) ==> d1[i] == prev.desc@[i],
            forall|j: int|
                0 <= j < n ==> (#[trigger] d1[f0[j] as int]).next == prev.desc@[f0[j] as int].next
                    && has_next(d1[f0[j] as int].flags) && self.pool.buffer_at(
                    d1[f0[j] as int].addr as int,
                ) is Some && prev.pool.buffer_at(d1[f0[j] as int].addr as int) is None
                    && match self.tlb.entry(d1[f0[j] as int].addr as int) {
                    Some(e) => is_writable(d1[f0[j] as int].flags) && e.dma_addr
                        == d1[f0[j] as int].addr && e.phy_size <= self.pool.buffer_at(
                        d1[f0[j] as int].addr as int,
                    )->Some_0.len(),
                    None => !is_writable(d1[f0[j] as int].flags),
                },
            forall|j1: int, j2: int|
                0 <= j1 < j2 < n ==> #[trigger] d1[f0[j1] as int].addr != #[trigger] d1[f0[j2] as int].addr,
            forall|a: int|
                #[trigger] prev.pool.buffer_at(a) is Some ==> self.pool.buffer_at(a)
                    == prev.pool.buffer_at(a) && self.tlb.entry(a) == prev.tlb.entry(a),
            forall|s: int|
                0 <= s < self.tlb@.len() && #[trigger] self.tlb@[s] is Some ==> self.pool@[s] is Some,
            forall|s: int|
                0 <= s < self.tlb@.len() && #[trigger] self.tlb@[s] is Some ==> self.writer@.contains_key(s)
                    && (prev.owner@.contains_key(self.writer@[s]) || chain.contains(self.writer@[s]))
                    && is_writable(d1[self.writer@[s] as int].flags) && d1[self.writer@[s] as int].addr
                    == staging_addr(s),
            self.pool.wf(),
            self.pool@.len() == prev.pool@.len(),
            self.tlb@.len() == prev.tlb@.len(),
        ensures
            self.wf(),
    {
        let qs = self.queue_size;
        let free = self.free@;
        assert forall|s: int|
            0 <= s < self.tlb@.len() && #[trigger] self.tlb@[s] is Some implies self.writer@.contains_key(s)
                && self.owner@.contains_key(self.writer@[s]) && is_writable(
                self.desc@[self.writer@[s] as int].flags,
            ) && self.desc@[self.writer@[s] as int].addr == staging_addr(s) by {
            let wi = self.writer@[s];
            let dd = d1[f0[n - 1] as int];
            assert(dd.flags % 2 == 1);
            assert(is_writable(dd.flags) == is_writable((dd.flags - 1) as u16));
        }
        assert forall|k: int| 0 <= k < chain.len() implies chain[k] == f0[k] && !free.contains(
            #[trigger] chain[k],
        ) by {
            if free.contains(chain[k]) {
                let w = choose|w: int| 0 <= w < free.len() && free[w] == chain[k];
                assert(f0[n + w] == f0[k]);
            }
        }
        assert forall|k: int| 0 <= k < free.len() implies !chain.contains(#[trigger] free[k]) by {
            if chain.contains(free[k]) {
                let w = choose|w: int| 0 <= w < chain.len() && chain[w] == free[k];
                assert(f0[w] == f0[n + k]);
            }
        }
        // the free list
        assert forall|k: int| 0 <= k < free.len() - 1 implies #[trigger] self.desc@[free[k] as int].next
            == free[k + 1] by {
            assert(prev.desc@[f0[n + k] as int].next == f0[n + k + 1]);
            assert(!chain.contains(free[k]));
        }
        assert forall|i: u16| i < qs implies (free.contains(i) <==> !self.owner@.contains_key(i)) by {
            if free.contains(i) {
                let w = choose|w: int| 0 <= w < free.len() && free[w] == i;
                assert(f0[n + w] == i);
                assert(f0.contains(i));
                assert(!prev.owner@.contains_key(i));
                assert(!chain.contains(i));
                assert(!Map::new(|x: u16| chain.contains(x), |x: u16| head).contains_key(i));
            }
            if !self.owner@.contains_key(i) {
                assert(!prev.owner@.contains_key(i));
                assert(f0.contains(i));
                let w = choose|w: int| 0 <= w < f0.len() && f0[w] == i;
                if w < n {
                    assert(chain[w] == i);
                } else {
                    assert(free[w - n] == i);
                }
            }
        }
        // heads of old chains were not free
        assert(!prev.owner@.contains_key(head)) by {
            assert(f0.contains(head));
        }
        assert forall|k: int| 0 <= k < chain.len() implies !prev.owner@.contains_key(#[trigger] chain[k]) by {
            assert(f0[k] == chain[k]);
            assert(f0.contains(chain[k]));
        }
        // the chains
        assert forall|h: u16| #[trigger] self.chains@.contains_key(h) implies {
            let c = self.chains@[h];
            &&& c.len() > 0
            &&& c[0] == h
            &&& c.no_duplicates()
            &&& forall|k: int|
                0 <= k < c.len() ==> c[k] < self.queue_size && self.owner@.contains_key(c[k])
                    && self.owner@[c[k]] == h
            &&& forall|k: int|
                0 <= k < c.len() - 1 ==> has_next(#[trigger] self.desc@[c[k] as int].flags)
                    && self.desc@[c[k] as int].next == c[k + 1]
            &&& !has_next(self.desc@[c.last() as int].flags)
        } by {
            let c = self.chains@[h];
            if h == head {
                assert forall|k: int| 0 <= k < c.len() - 1 implies has_next(
                    #[trigger] self.desc@[c[k] as int].flags,
                ) && self.desc@[c[k] as int].next == c[k + 1] by {
                    assert(f0[k] != f0[n - 1]);
                    assert(prev.desc@[f0[k] as int].next == f0[k + 1]);
                }
                assert(prev.desc@[f0[n - 1] as int].next == prev.desc@[f0[n - 1] as int].next);
            } else {
                let pc = prev.chains@[h];
                assert forall|k: int| 0 <= k < c.len() implies !chain.contains(#[trigger] c[k]) && c[k]
                    != f0[n - 1] by {
                    assert(prev.owner@.contains_key(c[k]));
                    if chain.contains(c[k]) {
                        let w = choose|w: int| 0 <= w < chain.len() && chain[w] == c[k];
                    }
                    assert(chain[n - 1] == f0[n - 1]);
                }
                assert forall|k: int| 0 <= k < c.len() - 1 implies has_next(
                    #[trigger] self.desc@[c[k] as int].flags,
                ) && self.desc@[c[k] as int].next == c[k + 1] by {
                    assert(has_next(prev.desc@[pc[k] as int].flags));
                }
                assert(!chain.contains(c.last()));
            }
        }
        assert forall|i: u16| #[trigger] self.owner@.contains_key(i) implies i < self.queue_size
            && self.chains@.contains_key(self.owner@[i]) && self.chains@[self.owner@[i]].contains(i) by {
            if chain.contains(i) {
                let w = choose|w: int| 0 <= w < chain.len() && chain[w] == i;
                assert(f0[w] == i);
            } else {
                assert(prev.owner@.contains_key(i));
                assert(self.owner@[i] != head);
            }
        }
        assert forall|i: int| 0 <= i < self.queue_size implies #[trigger] self.chain_len@[i]
            == if self.chains@.contains_key(i as u16) {
            self.chains@[i as u16].len() as int
        } else {
            0
        } by {
            assert(prev.chain_len@[i] == if prev.chains@.contains_key(i as u16) {
                prev.chains@[i as u16].len() as int
            } else {
                0
            });
        }
        // staging
        assert forall|i: u16| #[trigger] self.owner@.contains_key(i) implies self.pool.buffer_at(
            self.desc@[i as int].addr as int,
        ) is Some && match self.tlb.entry(self.desc@[i as int].addr as int) {
            Some(e) => is_writable(self.desc@[i as int].flags) && e.dma_addr == self.desc@[i as int].addr
                && e.phy_size <= self.pool.buffer_at(self.desc@[i as int].addr as int)->Some_0.len(),
            None => !is_writable(self.desc@[i as int].flags),
        } by {
            if chain.contains(i) {
                let w = choose|w: int| 0 <= w < chain.len() && chain[w] == i;
                assert(f0[w] == i);
                let dd = d1[f0[w] as int];
                assert(dd.flags % 2 == 1);
                assert(is_writable(dd.flags) == is_writable((dd.flags - 1) as u16));
            } else {
                assert(prev.owner@.contains_key(i));
                assert(self.desc@[i as int] == prev.desc@[i as int]);
                assert(prev.pool.buffer_at(prev.desc@[i as int].addr as int) is Some);
            }
        }
        assert forall|i: u16, j: u16|
            #![trigger self.owner@.contains_key(i), self.owner@.contains_key(j)]
            self.owner@.contains_key(i) && self.owner@.contains_key(j) && i != j implies self.desc@[i as int].addr
                != self.desc@[j as int].addr by {
            if chain.contains(i) {
                let wi = choose|w: int| 0 <= w < chain.len() && chain[w] == i;
                assert(f0[wi] == i);
                if chain.contains(j) {
                    let wj = choose|w: int| 0 <= w < chain.len() && chain[w] == j;
                    assert(f0[wj] == j);
                    if wi < wj {
                        assert(d1[f0[wi] as int].addr != d1[f0[wj] as int].addr);
                    } else {
                        assert(d1[f0[wj] as int].addr != d1[f0[wi] as int].addr);
                    }
                } else {
                    assert(prev.owner@.contains_key(j));
                    assert(prev.pool.buffer_at(prev.desc@[j as int].addr as int) is Some);
                }
            } else if chain.contains(j) {
                let wj = choose|w: int| 0 <= w < chain.len() && chain[w] == j;
                assert(f0[wj] == j);
                assert(prev.owner@.contains_key(i));
                assert(prev.pool.buffer_at(prev.desc@[i as int].addr as int) is Some);
            } else {
                assert(prev.owner@.contains_key(i));
                assert(prev.owner@.contains_key(j));
            }
        }
    }

    /// Private memory `mem` after the copy-back of the descriptors `c`, in
    /// order, as this queue's registry and staging memory stand.
    pub open spec fn copied_back(&self, mem: Seq<u8>, c: Seq<u16>) -> Seq<u8>
        decreases c.len(),
    {
        if c.len() == 0 {
            mem
        } else {
            let a = self.descs()[c.last() as int].addr as int;
            recycle_step(
                self.copied_back(mem, c.drop_last()),
                self.registry().entry(a),
                self.staging().buffer_at(a),
            )
        }
    }

    /// Recycle descriptors in the list specified by head.
    ///
    /// Copies each registered staging buffer back into `private`, releases
    /// every staging buffer of the chain, and pushes the whole chain at the
    /// front of the free list.
    fn recycle_descriptors(&mut self, head: u16, private: &mut Vec<u8>)
        requires
            old(self).wf(),
            old(self).chains@.contains_key(head),
        ensures
            final(self).wf(),
            final(self).chains@ == old(self).chains@.remove(head),
            final(self).free@ == old(self).chains@[head] + old(self).free@,
            final(self).num_used == old(self).num_used - old(self).chains@[head].len(),
            final(private)@ == old(self).copied_back(old(private)@, old(self).chains@[head]),
            final(self).avail_ring == old(self).avail_ring,
            final(self).avail_ring_idx == old(self).avail_ring_idx,
            final(self).avail_idx == old(self).avail_idx,
            final(self).used_ring == old(self).used_ring,
            final(self).used_ring_idx == old(self).used_ring_idx,
            final(self).last_used_idx == old(self).last_used_idx,
            final(self).queue_idx == old(self).queue_idx,
            forall|k: int|
                0 <= k < old(self).chains@[head].len() ==> {
                    let a = old(self).desc@[#[trigger] old(self).chains@[head][k] as int].addr as int;
                    final(self).tlb.entry(a) is None && final(self).pool.buffer_at(a) is None
                },
            final(self).desc@ == old(self).desc@.update(
                old(self).chains@[head].last() as int,
                Descriptor {
                    next: old(self).free_head,
                    ..old(self).desc@[old(self).chains@[head].last() as int]
                },
            ),
            final(self).free_head == head,
            final(self).queue_size == old(self).queue_size,
            final(self).owner@ == old(self).owner@.remove_keys(old(self).chains@[head].to_set()),
            forall|i: u16|
                #[trigger] old(self).owner@.contains_key(i) && !old(self).chains@[head].contains(i) ==> {
                    let a = old(self).desc@[i as int].addr as int;
                    final(self).tlb.entry(a) == old(self).tlb.entry(a) && final(self).pool.buffer_at(a)
                        == old(self).pool.buffer_at(a)
                },
    {
        let ghost c = self.chains@[head];
        let ghost q0 = *self;
        let ghost mem0 = private@;
        let cl = self.chain_len[head as usize];
        proof {
            assert(self.chain_len@[head as int] == c.len());
            assert forall|k: int| 0 <= k < (c + self.free@).len() implies (c + self.free@)[k]
                < self.queue_size by {
                if k >= c.len() {
                    assert(self.free@[k - c.len()] < self.queue_size);
                }
            }
            assert((c + self.free@).no_duplicates()) by {
                assert forall|a: int, b: int|
                    0 <= a < c.len() && 0 <= b < self.free@.len() implies c[a] != self.free@[b] by {
                    assert(self.owner@.contains_key(c[a]));
                    assert(self.free@.contains(self.free@[b]));
                }
            }
            lemma_distinct_bound(c + self.free@, self.queue_size as int);
        }
        let mut cur = head;
        let mut k: u16 = 0;
        while k < cl
            invariant
                q0.wf(),
                q0.chains@.contains_key(head),
                c == q0.chains@[head],
                cl == c.len(),
                k <= cl,
                k < cl ==> cur == c[k as int],
                k == cl ==> cur == c[cl - 1],
                self.desc == q0.desc,
                self.queue_size == q0.queue_size,
                self.free == q0.free,
                self.chains == q0.chains,
                self.owner == q0.owner,
                self.num_used == q0.num_used,
                self.chain_len == q0.chain_len,
                self.avail_ring == q0.avail_ring,
                self.avail_ring_idx == q0.avail_ring_idx,
                self.used_ring == q0.used_ring,
                self.used_ring_idx == q0.used_ring_idx,
                self.avail_idx == q0.avail_idx,
                self.last_used_idx == q0.last_used_idx,
                self.layout == q0.layout,
                self.queue_idx == q0.queue_idx,
                self.free_head == q0.free_head,
                self.pool.wf(),
                self.pool@.len() == q0.pool@.len(),
                self.tlb@.len() == q0.tlb@.len(),
                private@ == q0.copied_back(mem0, c.take(k as int)),
                forall|j: int|
                    0 <= j < k ==> {
                        let a = q0.desc@[#[trigger] c[j] as int].addr as int;
                        self.tlb.entry(a) is None && self.pool.buffer_at(a) is None
                    },
                forall|i: u16|
                    #[trigger] q0.owner@.contains_key(i) && !c.take(k as int).contains(i) ==> {
                        let a = q0.desc@[i as int].addr as int;
                        self.tlb.entry(a) == q0.tlb.entry(a) && self.pool.buffer_at(a)
                            == q0.pool.buffer_at(a)
                    },
                forall|s: int|
                    0 <= s < self.tlb@.len() && #[trigger] self.tlb@[s] is Some ==> self.pool@[s] is Some
                        && q0.tlb@[s] is Some,
                self.writer == q0.writer,
            decreases cl - k,
        {
            let d = self.desc[cur as usize];
            let ghost p1 = self.pool;
            let ghost t1 = self.tlb;
            proof {
                assert(q0.owner@.contains_key(c[k as int]));
                assert(!c.take(k as int).contains(c[k as int]));
            }
            // Copy result from shared memory to private memory.
            match self.tlb.take(d.addr as usize) {
                Some(e) => {
                    match self.pool.read(d.addr) {
                        Some(data) => copy_region(private, e, &data),
                        None => {},
                    }
                },
                None => {},
            }
            // Free all DMA
            self.pool.deallocate(d.addr);
            proof {
                assert(c.take(k + 1).drop_last() =~= c.take(k as int));
                assert(c.take(k + 1).last() == c[k as int]);
                assert forall|i: u16|
                    #[trigger] q0.owner@.contains_key(i) && !c.take(k + 1).contains(i) implies {
                        let a = q0.desc@[i as int].addr as int;
                        self.tlb.entry(a) == q0.tlb.entry(a) && self.pool.buffer_at(a)
                            == q0.pool.buffer_at(a)
                    } by {
                    assert(c.take(k + 1)[k as int] == c[k as int]);
                    assert(i != c[k as int]);
                    if c.take(k as int).contains(i) {
                        let w = choose|w: int| 0 <= w < k && c.take(k as int)[w] == i;
                        assert(c.take(k + 1)[w] == i);
                    }
                    assert(q0.owner@.contains_key(c[k as int]));
                    let a = q0.desc@[i as int].addr as int;
                    let b = d.addr as int;
                    assert(a != b);
                    assert(q0.pool.buffer_at(a) is Some);
                    assert(q0.pool.buffer_at(b) is Some);
                    crate::staging::lemma_staging_addr_inj(a, q0.pool.slots());
                    crate::staging::lemma_staging_addr_inj(b, q0.pool.slots());
                }
                assert forall|j: int| 0 <= j < k + 1 implies {
                    let a = q0.desc@[#[trigger] c[j] as int].addr as int;
                    self.tlb.entry(a) is None && self.pool.buffer_at(a) is None
                } by {
                    if j < k {
                        let a = q0.desc@[c[j] as int].addr as int;
                        let b = d.addr as int;
                        if is_staging_addr(a, q0.pool.slots()) && is_staging_addr(b, q0.pool.slots()) {
                            crate::staging::lemma_staging_addr_inj(a, q0.pool.slots());
                            crate::staging::lemma_staging_addr_inj(b, q0.pool.slots());
                        }
                    }
                }
            }
            if k + 1 < cl {
                cur = d.next;
            }
            k = k + 1;
        }
        let ghost d1 = self.desc@;
        let ghost f1 = self.free@;
        assert(c.take(cl as int) =~= c);
        let mut ld = self.desc[cur as usize];
        ld.next = self.free_head;
        self.desc.set(cur as usize, ld);
        self.free_head = head;
        self.num_used = self.num_used - cl;
        self.chain_len.set(head as usize, 0);
        proof {
            self.free@ = c + f1;
            self.chains@ = self.chains@.remove(head);
            self.owner@ = self.owner@.remove_keys(c.to_set());
            self.lemma_recycle_wf(&q0, c, head, d1);
            assert(self.desc@ =~= q0.desc@.update(
                c.last() as int,
                Descriptor { next: q0.free_head, ..q0.desc@[c.last() as int] },
            ));
        }
    }

    #[verifier::spinoff_prover]
    #[verifier::rlimit(60)]
    proof fn lemma_recycle_wf(&self, prev: &Self, c: Seq<u16>, head: u16, d1: Seq<Descriptor>)
        requires
            prev.wf(),
            prev.chains@.contains_key(head),
            c == prev.chains@[head],
            d1 == prev.desc@,
            (c + prev.free@).len() <= prev.queue_size,
            (c + prev.free@).no_duplicates(),
            self.queue_size == prev.queue_size,
            self.layout == prev.layout,
            self.num_used == prev.num_used - c.len(),
            self.free@ == c + prev.free@,
            self.free_head == head,
            self.chains@ == prev.chains@.remove(head),
            self.owner@ == prev.owner@.remove_keys(c.to_set()),
            self.chain_len@ == prev.chain_len@.update(head as int, 0u16),
            self.avail_ring@.len() == prev.avail_ring@.len(),
            self.used_ring@ == prev.used_ring@,
            self.desc@ == d1.update(c.last() as int, Descriptor { next: prev.free_head, ..d1[c.last() as int] }),
            forall|i: u16|
                #[trigger] prev.owner@.contains_key(i) && !c.contains(i) ==> {
                    let a = prev.desc@[i as int].addr as int;
                    self.tlb.entry(a) == prev.tlb.entry(a) && self.pool.buffer_at(a)
                        == prev.pool.buffer_at(a)
                },
            forall|s: int|
                0 <= s < self.tlb@.len() && #[trigger] self.tlb@[s] is Some ==> self.pool@[s] is Some
                    && prev.tlb@[s] is Some,
            forall|j: int|
                0 <= j < c.len() ==> (#[trigger] self.tlb.entry(prev.desc@[c[j] as int].addr as int)) is None,
            self.writer == prev.writer,
            self.pool.wf(),
            self.pool@.len() == prev.pool@.len(),
            self.tlb@.len() == prev.tlb@.len(),
        ensures
            self.wf(),
    {
        let qs = self.queue_size;
        let free = self.free@;
        let pf = prev.free@;
        assert forall|s: int|
            0 <= s < self.tlb@.len() && #[trigger] self.tlb@[s] is Some implies self.writer@.contains_key(s)
                && self.owner@.contains_key(self.writer@[s]) && is_writable(
                self.desc@[self.writer@[s] as int].flags,
            ) && self.desc@[self.writer@[s] as int].addr == staging_addr(s) by {
            let wi = self.writer@[s];
            crate::staging::lemma_staging_addr(s);
            assert(self.tlb.entry(staging_addr(s)) is Some);
            if c.contains(wi) {
                let x = choose|x: int| 0 <= x < c.len() && c[x] == wi;
                assert(self.tlb.entry(prev.desc@[c[x] as int].addr as int) is None);
            }
            if c.to_set().contains(wi) {
                assert(c.contains(wi));
            }
            assert(prev.owner@[c.last()] == head);
            if wi == c.last() {
                assert(c.contains(wi));
            }
        }
        let cl = c.len() as int;
        assert(prev.owner@.contains_key(c.last()));
        assert(!pf.contains(c.last()));
        assert forall|i: u16| #[trigger] self.owner@.contains_key(i) implies prev.owner@.contains_key(i)
            && !c.contains(i) && i != c.last() && prev.owner@[i] != head by {
            if prev.owner@[i] == head {
                assert(prev.chains@[head].contains(i));
                assert(c.to_set().contains(i));
            }
            if c.contains(i) {
                assert(c.to_set().contains(i));
            }
        }
        // the free list
        assert forall|k: int| 0 <= k < free.len() implies free[k] < qs by {
            if k < cl {
                assert(prev.owner@[c[k]] == head);
            } else {
                assert(pf[k - cl] < qs);
            }
        }
        assert forall|k: int| 0 <= k < free.len() - 1 implies #[trigger] self.desc@[free[k] as int].next
            == free[k + 1] by {
            if k < cl - 1 {
                assert(c[k] != c.last());
                assert(d1[c[k] as int].next == c[k + 1]);
            } else if k == cl - 1 {
                assert(pf[0] == prev.free_head);
            } else {
                assert(free[k] == pf[k - cl]);
                assert(pf.contains(pf[k - cl]));
                assert(pf[k - cl] != c.last());
                assert(d1[pf[k - cl] as int].next == pf[k - cl + 1]);
            }
        }
        assert forall|i: u16| i < qs implies (free.contains(i) <==> !self.owner@.contains_key(i)) by {
            if free.contains(i) {
                let w = choose|w: int| 0 <= w < free.len() && free[w] == i;
                if w < cl {
                    assert(c.contains(i));
                } else {
                    assert(pf[w - cl] == i);
                    assert(pf.contains(i));
                }
            }
            if !self.owner@.contains_key(i) {
                if prev.owner@.contains_key(i) {
                    assert(c.to_set().contains(i));
                    let w = choose|w: int| 0 <= w < c.len() && c[w] == i;
                    assert(free[w] == i);
                } else {
                    assert(pf.contains(i));
                    let w = choose|w: int| 0 <= w < pf.len() && pf[w] == i;
                    assert(free[cl + w] == i);
                }
            }
        }
        // the chains
        assert forall|h: u16| #[trigger] self.chains@.contains_key(h) implies {
            let cc = self.chains@[h];
            &&& cc.len() > 0
            &&& cc[0] == h
            &&& cc.no_duplicates()
            &&& forall|k: int|
                0 <= k < cc.len() ==> cc[k] < self.queue_size && self.owner@.contains_key(cc[k])
                    && self.owner@[cc[k]] == h
            &&& forall|k: int|
                0 <= k < cc.len() - 1 ==> has_next(#[trigger] self.desc@[cc[k] as int].flags)
                    && self.desc@[cc[k] as int].next == cc[k + 1]
            &&& !has_next(self.desc@[cc.last() as int].flags)
        } by {
            let cc = self.chains@[h];
            assert(h != head);
            assert forall|k: int| 0 <= k < cc.len() implies cc[k] != c.last() && self.owner@.contains_key(
                #[trigger] cc[k],
            ) by {
                assert(prev.owner@[cc[k]] == h);
                assert(prev.owner@[c.last()] == head);
                if c.to_set().contains(cc[k]) {
                    let w = choose|w: int| 0 <= w < c.len() && c[w] == cc[k];
                    assert(prev.owner@[c[w]] == head);
                }
            }
            assert forall|k: int| 0 <= k < cc.len() - 1 implies has_next(
                #[trigger] self.desc@[cc[k] as int].flags,
            ) && self.desc@[cc[k] as int].next == cc[k + 1] by {
                assert(cc[k] != c.last());
                assert(has_next(d1[cc[k] as int].flags));
            }
            assert(cc.last() == cc[cc.len() - 1]);
        }
        assert forall|i: int| 0 <= i < self.queue_size implies #[trigger] self.chain_len@[i]
            == if self.chains@.contains_key(i as u16) {
            self.chains@[i as u16].len() as int
        } else {
            0
        } by {
            assert(prev.chain_len@[i] == if prev.chains@.contains_key(i as u16) {
                prev.chains@[i as u16].len() as int
            } else {
                0
            });
        }
        // staging
        assert forall|i: u16| #[trigger] self.owner@.contains_key(i) implies self.pool.buffer_at(
            self.desc@[i as int].addr as int,
        ) is Some && match self.tlb.entry(self.desc@[i as int].addr as int) {
            Some(e) => is_writable(self.desc@[i as int].flags) && e.dma_addr == self.desc@[i as int].addr
                && e.phy_size <= self.pool.buffer_at(self.desc@[i as int].addr as int)->Some_0.len(),
            None => !is_writable(self.desc@[i as int].flags),
        } by {
            assert(self.desc@[i as int] == prev.desc@[i as int]);
        }
        assert forall|i: u16, j: u16|
            #![trigger self.owner@.contains_key(i), self.owner@.contains_key(j)]
            self.owner@.contains_key(i) && self.owner@.contains_key(j) && i != j implies self.desc@[i as int].addr
                != self.desc@[j as int].addr by {
            assert(prev.owner@.contains_key(i));
            assert(prev.owner@.contains_key(j));
        }
    }

    /// Whether every registered region of the descriptors `c` lies inside
    /// private memory of `len` bytes.
    pub open spec fn regions_fit(&self, c: Seq<u16>, len: int) -> bool {
        forall|k: int|
            0 <= k < c.len() ==> match self.registry().entry(
                self.descs()[#[trigger] c[k] as int].addr as int,
            ) {
                Some(e) => e.phy_addr + e.phy_size <= len,
                None => true,
            }
    }

    /// Decides `regions_fit` for the in-flight chain headed by `head`.
    fn chain_fits(&self, head: u16, len: usize) -> (r: bool)
        requires
            self.wf(),
            self.chains@.contains_key(head),
        ensures
            r == self.regions_fit(self.chains@[head], len as int),
    {
        let ghost c = self.chains@[head];
        let cl = self.chain_len[head as usize];
        proof {
            assert(self.chain_len@[head as int] == c.len());
        }
        let mut cur = head;
        let mut k: u16 = 0;
        while k < cl
            invariant
                self.wf(),
                self.chains@.contains_key(head),
                c == self.chains@[head],
                cl == c.len(),
                k <= cl,
                k < cl ==> cur == c[k as int],
                forall|j: int|
                    0 <= j < k ==> match self.registry().entry(
                        self.descs()[#[trigger] c[j] as int].addr as int,
                    ) {
                        Some(e) => e.phy_addr + e.phy_size <= len,
                        None => true,
                    },
            decreases cl - k,
        {
            assert(c[k as int] < self.queue_size);
            let d = self.desc[cur as usize];
            if d.addr <= usize::MAX as u64 {
                if let Some(e) = self.tlb.get(d.addr as usize) {
                    if e.phy_addr > len || e.phy_size > len - e.phy_addr {
                        return false;
                    }
                }
            } else {
                assert(self.tlb.entry(d.addr as int) is None) by {
                    if is_staging_addr(d.addr as int, self.tlb@.len() as int) {
                        crate::staging::lemma_staging_addr_bound(d.addr as int, self.tlb@.len() as int);
                    }
                }
            }
            if k + 1 < cl {
                cur = d.next;
            }
            k = k + 1;
        }
        true
    }

    /// The used element the driver reads next.
    pub open spec fn next_used(&self) -> UsedElem {
        self.used()[self.spec_last_used_idx() as int % self.spec_queue_size()]
    }

    /// Get a token from device used buffers, return (token, len).
    ///
    /// The chain's device-written staging buffers are copied back into
    /// their regions of `private`, all its staging buffers are released,
    /// and its descriptors return to the front of the free list. A used
    /// element that names no in-flight chain is refused as `DmaError`.
    pub fn pop_used(&mut self, private: &mut Vec<u8>) -> (r: Result<(u16, u32), VirtioError>)
        requires
            old(self).wf(),
        ensures
            final(self).wf(),
            r == Err::<(u16, u32), VirtioError>(VirtioError::NotReady) <==> old(self).spec_last_used_idx()
                == old(self).spec_used_idx(),
            r == Err::<(u16, u32), VirtioError>(VirtioError::DmaError) <==> old(self).spec_last_used_idx()
                != old(self).spec_used_idx() && !(old(self).next_used().id < old(self).spec_queue_size()
                && old(self).chains().contains_key(old(self).next_used().id as u16)
                && old(self).regions_fit(
                old(self).chains()[old(self).next_used().id as u16],
                old(private)@.len() as int,
            )),
            r is Ok <==> old(self).spec_last_used_idx() != old(self).spec_used_idx()
                && old(self).next_used().id < old(self).spec_queue_size() && old(self).chains().contains_key(
                old(self).next_used().id as u16,
            ) && old(self).regions_fit(
                old(self).chains()[old(self).next_used().id as u16],
                old(private)@.len() as int,
            ),
            r is Err ==> *final(self) == *old(self) && final(private)@ == old(private)@,
            r matches Ok(p) ==> {
                let h = p.0;
                let c = old(self).chains()[h];
                &&& h == old(self).next_used().id
                &&& p.1 == old(self).next_used().len
                &&& old(self).chains().contains_key(h)
                &&& final(self).chains() == old(self).chains().remove(h)
                &&& final(self).free_list() == c + old(self).free_list()
                &&& final(self).spec_free_head() == h
                &&& final(self).spec_num_used() == old(self).spec_num_used() - c.len()
                &&& final(private)@ == old(self).copied_back(old(private)@, c)
                &&& final(self).spec_last_used_idx() == next_idx(old(self).spec_last_used_idx())
                &&& final(self).spec_used_idx() == old(self).spec_used_idx()
                &&& final(self).avail() == old(self).avail()
                &&& final(self).spec_avail_idx() == old(self).spec_avail_idx()
                &&& final(self).used() == old(self).used()
                &&& final(self).spec_queue_size() == old(self).spec_queue_size()
                &&& final(private)@.len() == old(private)@.len()
                &&& final(self).descs() == old(self).descs().update(
                    c.last() as int,
                    Descriptor { next: old(self).spec_free_head(), ..old(self).descs()[c.last() as int] },
                )
                &&& forall|i: u16|
                    #[trigger] old(self).in_flight(i) && !c.contains(i) ==> {
                        let a = old(self).descs()[i as int].addr as int;
                        &&& final(self).in_flight(i)
                        &&& final(self).registry().entry(a) == old(self).registry().entry(a)
                        &&& final(self).staging().buffer_at(a) == old(self).staging().buffer_at(a)
                    }
                &&& forall|k: int|
                    0 <= k < c.len() ==> {
                        let a = old(self).descs()[#[trigger] c[k] as int].addr as int;
                        final(self).registry().entry(a) is None && final(self).staging().buffer_at(a) is None
                    }
            },
    {
        if !self.can_pop() {
            return Err(VirtioError::NotReady);
        }
        // read barrier
        memory_barrier();
        let last_used_slot = self.last_used_idx % self.queue_size;
        let elem = self.used_ring[last_used_slot as usize];
        if elem.id >= self.queue_size as u32 || self.chain_len[elem.id as usize] == 0 {
            return Err(VirtioError::DmaError);
        }
        let index = elem.id as u16;
        proof {
            assert(self.chain_len@[index as int] == if self.chains@.contains_key(index) {
                self.chains@[index].len() as int
            } else {
                0
            });
        }
        if !self.chain_fits(index, private.len()) {
            return Err(VirtioError::DmaError);
        }
        let ghost q0 = *self;
        let ghost m0 = private@;
        self.recycle_descriptors(index, private);
        proof {
            let c = q0.chains@[index];
            lemma_copied_back_len(&q0, m0, c);
            assert forall|i: u16|
                #[trigger] q0.owner@.contains_key(i) && !c.contains(i) implies self.owner@.contains_key(i) by {
                if c.to_set().contains(i) {
                    assert(c.contains(i));
                }
            }
        }
        self.last_used_idx = if self.last_used_idx == u16::MAX {
            0
        } else {
            self.last_used_idx + 1
        };
        Ok((index, elem.len))
    }

    /// A copy of the staging buffer at `addr`, as the device reads it.
    pub fn device_read(&self, addr: u64) -> (r: Option<Vec<u8>>)
        requires
            self.wf(),
        ensures
            r is Some <==> self.staging().buffer_at(addr as int) is Some,
            r matches Some(v) ==> v@ == self.staging().buffer_at(addr as int)->Some_0,
    {
        self.pool.read(addr)
    }

    /// Writes `data` at the start of the staging buffer at `addr`, as the
    /// device does; false where no buffer lives there or `data` is longer.
    pub fn device_write(&mut self, addr: u64, data: &[u8]) -> (ok: bool)
        requires
            old(self).wf(),
        ensures
            final(self).wf(),
            ok <==> (old(self).staging().buffer_at(addr as int) matches Some(b) && data@.len()
                <= b.len()),
            ok ==> final(self).staging()@ == old(self).staging()@.update(
                slot_of(addr as int),
                Some(data@ + old(self).staging().buffer_at(addr as int)->Some_0.skip(
                    data@.len() as int,
                )),
            ),
            !ok ==> final(self).staging()@ == old(self).staging()@,
            final(self).descs() == old(self).descs(),
            final(self).chains() == old(self).chains(),
            final(self).free_list() == old(self).free_list(),
            final(self).registry() == old(self).registry(),
            final(self).spec_num_used() == old(self).spec_num_used(),
            final(self).spec_used_idx() == old(self).spec_used_idx(),
            final(self).spec_last_used_idx() == old(self).spec_last_used_idx(),
            final(self).used() == old(self).used(),
    {
        let ghost p0 = self.pool;
        let ok = self.pool.write(addr, data);
        proof {
            if ok {
                let s = slot_of(addr as int);
                assert forall|a: int| #[trigger] self.pool.buffer_at(a) is Some <==> p0.buffer_at(a) is Some by {
                    if is_staging_addr(a, p0.slots()) && is_staging_addr(addr as int, p0.slots()) {
                        crate::staging::lemma_staging_addr_inj(a, p0.slots());
                        crate::staging::lemma_staging_addr_inj(addr as int, p0.slots());
                    }
                }
                assert forall|a: int| #[trigger] p0.buffer_at(a) is Some implies self.pool.buffer_at(a)->Some_0.len()
                    == p0.buffer_at(a)->Some_0.len() by {
                    if is_staging_addr(a, p0.slots()) && is_staging_addr(addr as int, p0.slots()) {
                        crate::staging::lemma_staging_addr_inj(a, p0.slots());
                        crate::staging::lemma_staging_addr_inj(addr as int, p0.slots());
                    }
                }
            }
        }
        ok
    }

    /// Publishes a used element for the chain headed by `id` with `len`
    /// bytes written, as the device does.
    pub fn device_complete(&mut self, id: u32, len: u32)
        requires
            old(self).wf(),
        ensures
            final(self).wf(),
            final(self).used() == old(self).used().update(
                old(self).spec_used_idx() as int % old(self).spec_queue_size(),
                UsedElem { id, len },
            ),
            final(self).spec_used_idx() == next_idx(old(self).spec_used_idx()),
            final(self).descs() == old(self).descs(),
            final(self).chains() == old(self).chains(),
            final(self).free_list() == old(self).free_list(),
            final(self).registry() == old(self).registry(),
            final(self).staging() == old(self).staging(),
            final(self).spec_num_used() == old(self).spec_num_used(),
            final(self).spec_last_used_idx() == old(self).spec_last_used_idx(),
    {
        let slot = self.used_ring_idx % self.queue_size;
        self.used_ring.set(slot as usize, UsedElem { id, len });
        self.used_ring_idx = if self.used_ring_idx == u16::MAX {
            0
        } else {
            self.used_ring_idx + 1
        };
    }

    /// The chain head the driver published in avail slot `i`.
    pub fn device_avail_entry(&self, i: u16) -> (r: u16)
        requires
            self.wf(),
        ensures
            r == self.avail().0[i as int % self.spec_queue_size()],
    {
        self.avail_ring[(i % self.queue_size) as usize]
    }

    /// The avail index the driver last published.
    pub fn device_avail_idx(&self) -> (r: u16)
        ensures
            r == self.avail().1,
    {
        self.avail_ring_idx
    }

    /// Whether the registry holds an entry under staging address `addr`.
    pub fn is_registered(&self, addr: u64) -> (r: bool)
        requires
            self.wf(),
        ensures
            r == self.registry().entry(addr as int) is Some,
    {
        if addr > usize::MAX as u64 {
            return false;
        }
        self.tlb.contains_key(addr as usize)
    }
}

/// The descriptor reached from `start` after following `next` `k` times.
pub open spec fn walk(descs: Seq<Descriptor>, start: u16, k: nat) -> u16
    decreases k,
{
    if k == 0 {
        start
    } else {
        let prev = walk(descs, start, (k - 1) as nat);
        descs[prev as int].next
    }
}

/// The queue never holds more descriptors in flight than it has slots.
pub proof fn lemma_capacity(q: &VirtQueue)
    requires
        q.wf(),
    ensures
        0 <= q.spec_num_used() <= q.spec_queue_size(),
        q.spec_num_used() + q.free_list().len() == q.spec_queue_size(),
{
}

/// Every free descriptor is reached from the free head by following
/// `next`, in free-list order; so a chain put back at the front of the free
/// list by `pop_used` is reachable again from the free head.
pub proof fn lemma_free_list_reachable(q: &VirtQueue)
    requires
        q.wf(),
    ensures
        forall|k: nat|
            k < q.free_list().len() ==> #[trigger] walk(q.descs(), q.spec_free_head(), k)
                == q.free_list()[k as int],
{
    assert forall|k: nat| k < q.free_list().len() implies #[trigger] walk(
        q.descs(),
        q.spec_free_head(),
        k,
    ) == q.free_list()[k as int] by {
        lemma_walk_free(q, k);
    }
}

proof fn lemma_walk_free(q: &VirtQueue, k: nat)
    requires
        q.wf(),
        k < q.free_list().len(),
    ensures
        walk(q.descs(), q.spec_free_head(), k) == q.free_list()[k as int],
    decreases k,
{
    if k > 0 {
        lemma_walk_free(q, (k - 1) as nat);
        let j = k - 1;
        assert(q.descs()[q.free_list()[j] as int].next == q.free_list()[j + 1]);
    }
}

/// Round trip: where exactly one descriptor `c[k]` of a chain is registered
/// for copy-back and its staging buffer starts with `data`, recycling the
/// chain leaves `data` in the registered private region and every other
/// byte of private memory as it was.
pub proof fn lemma_round_trip(q: &VirtQueue, mem: Seq<u8>, c: Seq<u16>, k: int, data: Seq<u8>)
    requires
        0 <= k < c.len(),
        forall|j: int|
            0 <= j < c.len() && j != k ==> q.registry().entry(
                q.descs()[#[trigger] c[j] as int].addr as int,
            ) is None,
        q.registry().entry(q.descs()[c[k] as int].addr as int) matches Some(e) && e.phy_addr
            + e.phy_size <= mem.len() && e.phy_size == data.len(),
        q.staging().buffer_at(q.descs()[c[k] as int].addr as int) matches Some(b) && data.len()
            <= b.len() && b.take(data.len() as int) == data,
    ensures
        ({
            let e = q.registry().entry(q.descs()[c[k] as int].addr as int)->Some_0;
            let r = q.copied_back(mem, c);
            &&& r.len() == mem.len()
            &&& r.subrange(e.phy_addr as int, e.phy_addr + e.phy_size) == data
            &&& forall|x: int|
                0 <= x < mem.len() && !(e.phy_addr <= x < e.phy_addr + e.phy_size) ==> r[x] == mem[x]
        }),
{
    let a = q.descs()[c[k] as int].addr as int;
    let e = q.registry().entry(a)->Some_0;
    let b = q.staging().buffer_at(a)->Some_0;
    lemma_copied_back_prefix(q, mem, c, k, c.len() as int);
    assert(c.take(c.len() as int) =~= c);
    let r = copy_back(mem, e, b);
    assert(r.subrange(e.phy_addr as int, e.phy_addr + e.phy_size) =~= data);
}

proof fn lemma_copied_back_prefix(q: &VirtQueue, mem: Seq<u8>, c: Seq<u16>, k: int, j: int)
    requires
        0 <= k < c.len(),
        0 <= j <= c.len(),
        forall|i: int|
            0 <= i < c.len() && i != k ==> q.registry().entry(
                q.descs()[#[trigger] c[i] as int].addr as int,
            ) is None,
        q.registry().entry(q.descs()[c[k] as int].addr as int) is Some,
        q.staging().buffer_at(q.descs()[c[k] as int].addr as int) is Some,
    ensures
        q.copied_back(mem, c.take(j)) == if j > k {
            let a = q.descs()[c[k] as int].addr as int;
            copy_back(mem, q.registry().entry(a)->Some_0, q.staging().buffer_at(a)->Some_0)
        } else {
            mem
        },
    decreases j,
{
    if j > 0 {
        lemma_copied_back_prefix(q, mem, c, k, j - 1);
        assert(c.take(j).drop_last() =~= c.take(j - 1));
        assert(c.take(j).last() == c[j - 1]);
    }
}

/// The registry holds an entry under exactly the staging addresses of the
/// device-writable buffers now in flight: never more, never less.
pub proof fn lemma_registry_exact(q: &VirtQueue)
    requires
        q.wf(),
    ensures
        q.registry_keys() == q.inflight_writable_addrs(),
{
    assert forall|a: int| q.registry_keys().contains(a) implies q.inflight_writable_addrs().contains(
        a,
    ) by {
        let s = slot_of(a);
        crate::staging::lemma_staging_addr_inj(a, q.tlb@.len() as int);
        assert(q.tlb@[s] is Some);
        let i = q.writer@[s];
        assert(q.desc@[i as int].addr == a);
        assert(q.in_flight(i));
    }
    assert forall|a: int| q.inflight_writable_addrs().contains(a) implies q.registry_keys().contains(
        a,
    ) by {
        let i = choose|i: u16|
            #![trigger q.in_flight(i)]
            q.in_flight(i) && is_writable(q.descs()[i as int].flags) && q.descs()[i as int].addr == a;
        assert(q.owner@.contains_key(i));
    }
    assert(q.registry_keys() =~= q.inflight_writable_addrs());
}

/// Copy-back keeps the length of private memory.
pub proof fn lemma_copied_back_len(q: &VirtQueue, mem: Seq<u8>, c: Seq<u16>)
    ensures
        q.copied_back(mem, c).len() == mem.len(),
    decreases c.len(),
{
    if c.len() > 0 {
        lemma_copied_back_len(q, mem, c.drop_last());
    }
}

} // verus!
