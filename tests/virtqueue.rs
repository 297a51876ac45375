use fw_virtio::error::VirtioError;
use fw_virtio::layout::{align_up, is_power_of_two, VirtQueueLayout, PAGE_SIZE};
use fw_virtio::registry::{DmaTlb, DmaTlbItem};
use fw_virtio::staging::{DmaPool, STAGING_UNIT};
use fw_virtio::virtqueue::{PrivateBuf, VirtQueue, MAX_QUEUE_SIZE, NEXT, WRITE};

fn queue(size: u16) -> VirtQueue {
    VirtQueue::new(32, 0, size, 64).unwrap()
}

#[test]
fn new_accepts_every_valid_size() {
    for size in [1u16, 2, 4, 8, 16, 32] {
        let q = queue(size);
        assert_eq!(q.available_desc(), size as usize);
        assert_eq!(q.queue_size(), size);
        assert!(!q.can_pop());
    }
}

#[test]
fn new_rejects_bad_sizes() {
    for size in [0u16, 3, 5, 6, 7, 12, 33, 48] {
        assert_eq!(VirtQueue::new(64, 0, size, 8).err(), Some(VirtioError::InvalidParam));
    }
    // over the implementation maximum
    assert_eq!(VirtQueue::new(1024, 0, 64, 8).err(), Some(VirtioError::InvalidParam));
    // over the transport's maximum
    assert_eq!(VirtQueue::new(8, 0, 16, 8).err(), Some(VirtioError::InvalidParam));
    assert!(VirtQueue::new(8, 0, 8, 8).is_ok());
    assert_eq!(MAX_QUEUE_SIZE, 32);
}

#[test]
fn ping_pong_scenario() {
    let mut q = queue(8);
    let mut private = vec![0u8; 16];
    let out = PrivateBuf { addr: 4, len: 4 };
    let head = q.add(&[b"PING"], &[out]).unwrap();
    assert_eq!(head, 0);
    assert_eq!(q.available_desc(), 6);
    assert_eq!(q.device_avail_idx(), 1);
    assert_eq!(q.device_avail_entry(0), head);

    let d_in = q.descriptor(0);
    assert_eq!(d_in.flags, NEXT);
    assert_eq!(d_in.next, 1);
    assert_eq!(d_in.len, 4);
    assert_eq!(q.device_read(d_in.addr).unwrap(), b"PING".to_vec());
    let d_out = q.descriptor(1);
    assert_eq!(d_out.flags, WRITE);
    assert_eq!(d_out.len, 4);
    assert!(q.is_registered(d_out.addr));
    assert!(!q.is_registered(d_in.addr));

    assert!(q.device_write(d_out.addr, b"PONG"));
    q.device_complete(head as u32, 4);
    assert!(q.can_pop());
    assert_eq!(q.pop_used(&mut private), Ok((head, 4)));
    assert_eq!(&private[4..8], b"PONG");
    assert_eq!(&private[..4], &[0, 0, 0, 0]);
    assert_eq!(q.available_desc(), 8);
    assert!(!q.is_registered(d_out.addr));
    assert_eq!(q.device_read(d_out.addr), None);
    assert_eq!(q.device_read(d_in.addr), None);
    assert!(!q.can_pop());
}

#[test]
fn round_trip_echo() {
    let data: Vec<u8> = (0u8..200).collect();
    let mut q = queue(4);
    let mut private = vec![0xaau8; 300];
    let head = q.add(&[&data], &[PrivateBuf { addr: 50, len: 200 }]).unwrap();
    let sent = q.device_read(q.descriptor(head).addr).unwrap();
    let out_addr = q.descriptor(q.descriptor(head).next).addr;
    assert!(q.device_write(out_addr, &sent));
    q.device_complete(head as u32, 200);
    assert_eq!(q.pop_used(&mut private), Ok((head, 200)));
    assert_eq!(&private[50..250], &data[..]);
    assert!(private[..50].iter().all(|b| *b == 0xaa));
    assert!(private[250..].iter().all(|b| *b == 0xaa));
}

#[test]
fn add_with_nothing_is_invalid() {
    let mut q = queue(4);
    assert_eq!(q.add(&[], &[]), Err(VirtioError::InvalidParam));
    assert_eq!(q.available_desc(), 4);
}

#[test]
fn add_over_capacity_leaves_queue_unchanged() {
    let mut q = queue(4);
    let h = q.add(&[b"a", b"b", b"c"], &[]).unwrap();
    assert_eq!(q.available_desc(), 1);
    assert_eq!(q.add(&[b"x", b"y"], &[]), Err(VirtioError::BufferTooSmall));
    assert_eq!(q.available_desc(), 1);
    // the single free descriptor is still usable
    let h2 = q.add(&[b"z"], &[]).unwrap();
    assert_eq!(h2, 3);
    assert_eq!(q.available_desc(), 0);
    assert_eq!(q.add(&[b"w"], &[]), Err(VirtioError::BufferTooSmall));
    let mut private = Vec::new();
    q.device_complete(h as u32, 0);
    assert_eq!(q.pop_used(&mut private), Ok((h, 0)));
    assert_eq!(q.available_desc(), 3);
}

#[test]
fn staging_exhaustion_posts_nothing() {
    let mut q = VirtQueue::new(8, 0, 8, 2).unwrap();
    assert_eq!(q.add(&[b"a", b"b", b"c"], &[]), Err(VirtioError::DmaError));
    assert_eq!(q.available_desc(), 8);
    assert_eq!(q.device_avail_idx(), 0);
    let h = q.add(&[b"a", b"b"], &[]).unwrap();
    assert_eq!(h, 0);
    assert_eq!(q.add(&[b"c"], &[]), Err(VirtioError::DmaError));
    assert_eq!(q.available_desc(), 6);
}

#[test]
fn pop_without_completion_is_not_ready() {
    let mut q = queue(4);
    let mut private = vec![0u8; 4];
    assert_eq!(q.pop_used(&mut private), Err(VirtioError::NotReady));
    q.add(&[b"abc"], &[]).unwrap();
    assert_eq!(q.pop_used(&mut private), Err(VirtioError::NotReady));
}

#[test]
fn pop_of_unknown_chain_is_refused() {
    let mut q = queue(4);
    let mut private = vec![0u8; 4];
    let h = q.add(&[b"abc"], &[]).unwrap();
    q.device_complete(3, 0);
    assert_eq!(q.pop_used(&mut private), Err(VirtioError::DmaError));
    assert_eq!(q.available_desc(), 3);
    let mut q = queue(4);
    q.add(&[b"abc"], &[]).unwrap();
    q.device_complete(h as u32 + 100, 0);
    assert_eq!(q.pop_used(&mut private), Err(VirtioError::DmaError));
}

#[test]
fn recycled_chain_returns_to_free_list_front() {
    let mut q = queue(8);
    let mut private = vec![0u8; 64];
    let a = q.add(&[b"1"], &[PrivateBuf { addr: 0, len: 8 }]).unwrap();
    let b = q.add(&[b"2", b"3"], &[]).unwrap();
    assert_eq!((a, b), (0, 2));
    assert_eq!(q.available_desc(), 4);
    q.device_complete(b as u32, 0);
    assert_eq!(q.pop_used(&mut private), Ok((b, 0)));
    assert_eq!(q.available_desc(), 6);
    // the recycled chain is handed out first
    let c = q.add(&[b"4", b"5", b"6"], &[]).unwrap();
    assert_eq!(c, 2);
    assert_eq!(q.descriptor(2).next, 3);
    assert_eq!(q.descriptor(3).next, 4);
    q.device_complete(a as u32, 8);
    assert_eq!(q.pop_used(&mut private), Ok((a, 8)));
    assert_eq!(q.available_desc(), 5);
}

#[test]
fn registry_follows_writable_buffers() {
    let mut q = queue(8);
    let mut private = vec![0u8; 32];
    let h1 = q.add(&[], &[PrivateBuf { addr: 0, len: 4 }, PrivateBuf { addr: 8, len: 4 }]).unwrap();
    let h2 = q.add(&[b"in"], &[PrivateBuf { addr: 16, len: 4 }]).unwrap();
    let w1 = q.descriptor(h1).addr;
    let w2 = q.descriptor(q.descriptor(h1).next).addr;
    let r3 = q.descriptor(h2).addr;
    let w3 = q.descriptor(q.descriptor(h2).next).addr;
    assert!(q.is_registered(w1) && q.is_registered(w2) && q.is_registered(w3));
    assert!(!q.is_registered(r3));
    q.device_complete(h1 as u32, 8);
    q.pop_used(&mut private).unwrap();
    assert!(!q.is_registered(w1) && !q.is_registered(w2));
    assert!(q.is_registered(w3));
    q.device_complete(h2 as u32, 4);
    q.pop_used(&mut private).unwrap();
    assert!(!q.is_registered(w3));
}

#[test]
fn ring_indices_wrap_around_the_queue() {
    let mut q = queue(2);
    let mut private = vec![0u8; 8];
    for round in 0..10u32 {
        let h = q.add(&[b"x"], &[PrivateBuf { addr: 0, len: 1 }]).unwrap();
        let out = q.descriptor(q.descriptor(h).next).addr;
        assert!(q.device_write(out, &[round as u8]));
        q.device_complete(h as u32, 1);
        assert_eq!(q.pop_used(&mut private), Ok((h, 1)));
        assert_eq!(private[0], round as u8);
        assert_eq!(q.device_avail_idx(), (round + 1) as u16);
    }
}

#[test]
fn device_write_longer_than_buffer_is_refused() {
    let mut q = queue(2);
    let h = q.add(&[], &[PrivateBuf { addr: 0, len: 2 }]).unwrap();
    let out = q.descriptor(h).addr;
    assert!(!q.device_write(out, b"abc"));
    assert!(q.device_write(out, b"ab"));
    assert!(!q.device_write(out + 1, b"a"));
}

#[test]
fn layout_of_sizes() {
    let l = VirtQueueLayout::new(8);
    assert_eq!(l.avail_offset, 128);
    assert_eq!(l.used_offset, 4096);
    assert_eq!(l.size, 8192);
    let l = VirtQueueLayout::new(32);
    assert_eq!(l.avail_offset, 512);
    assert_eq!(l.used_offset, 4096);
    assert_eq!(l.size, 8192);
    let l = VirtQueueLayout::new(512);
    assert_eq!(l.avail_offset, 8192);
    assert_eq!(l.used_offset, 12288);
    assert_eq!(l.size, 20480);
    assert_eq!(queue(16).layout(), VirtQueueLayout::new(16));
}

#[test]
fn align_up_and_power_of_two() {
    assert_eq!(align_up(0), 0);
    assert_eq!(align_up(1), PAGE_SIZE);
    assert_eq!(align_up(4096), 4096);
    assert_eq!(align_up(4097), 8192);
    assert!(is_power_of_two(1) && is_power_of_two(32) && is_power_of_two(32768));
    assert!(!is_power_of_two(0) && !is_power_of_two(6) && !is_power_of_two(65535));
}

#[test]
fn pool_and_registry() {
    let mut pool = DmaPool::new(2);
    assert_eq!(pool.free_count(), 2);
    let a = pool.allocate(3).unwrap();
    assert_eq!(a, STAGING_UNIT);
    assert_eq!(pool.read(a), Some(vec![0, 0, 0]));
    let b = pool.allocate(1).unwrap();
    assert_eq!(b, 2 * STAGING_UNIT);
    assert_eq!(pool.allocate(1), None);
    pool.deallocate(a);
    assert_eq!(pool.free_count(), 1);
    assert_eq!(pool.read(a), None);

    let mut tlb = DmaTlb::new(2);
    let item = DmaTlbItem::new(b as usize, 100, 1);
    assert_eq!(item.phy_addr, 100);
    assert_eq!(tlb.register(item), Ok(()));
    assert_eq!(tlb.register(item), Err(VirtioError::DmaError));
    assert_eq!(tlb.register(DmaTlbItem::new(12345, 0, 1)), Err(VirtioError::DmaError));
    assert!(tlb.contains_key(b as usize));
    assert_eq!(tlb.take(b as usize), Some(item));
    assert_eq!(tlb.take(b as usize), None);
}

#[test]
fn pop_with_region_outside_private_memory_is_refused() {
    let mut q = queue(4);
    let h = q.add(&[b"in"], &[PrivateBuf { addr: 6, len: 4 }]).unwrap();
    q.device_complete(h as u32, 4);
    let mut small = vec![0u8; 8];
    assert_eq!(q.pop_used(&mut small), Err(VirtioError::DmaError));
    assert_eq!(small, vec![0u8; 8]);
    assert_eq!(q.available_desc(), 2);
    assert!(q.can_pop());
    let mut large = vec![0u8; 10];
    assert_eq!(q.pop_used(&mut large), Ok((h, 4)));
    assert_eq!(q.available_desc(), 4);
}
