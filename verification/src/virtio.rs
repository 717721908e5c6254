//! VirtIO-over-MMIO block device setup: the checks, negotiations and
//! allocations of the initialization handshake.
//!
//! The handshake itself alternates register writes with reads of the
//! device's answers; the driver loop performs those accesses and feeds
//! every observed value through the decision functions here. The queue
//! memory comes from the page allocator, three zeroed pages, handed
//! back intact if the heap runs short partway.

use vstd::prelude::*;

verus! {

use crate::kmem::AllocError;
use crate::kmem::Kmem;
use crate::kmem::lemma_page_addr_props;
use crate::kmem::mem_unchanged;
use crate::kmem::same_geometry;

/// Magic value identifying a VirtIO MMIO window.
pub const VIRTIO_MAGIC: u32 = 0x74_72_69_76;

/// Device interface version this driver speaks.
pub const VIRTIO_VERSION: u32 = 2;

/// Queue length used for every device.
pub const VIRTIO_QUEUE_LEN: usize = 8;

// Device status bits.

pub const STATUS_ACKNOWLEDGE: u32 = 1;

pub const STATUS_DRIVER: u32 = 2;

pub const STATUS_DRIVER_OK: u32 = 4;

pub const STATUS_FEATURES_OK: u32 = 8;

pub const STATUS_DEVICE_NEEDS_RESET: u32 = 64;

pub const STATUS_FAILED: u32 = 128;

// Block device feature bits the driver refuses.

pub const VIRTIO_BLK_F_RO: u32 = 1u32 << 5;

pub const VIRTIO_BLK_F_CONFIG_WCE: u32 = 1u32 << 11;

pub const VIRTIO_BLK_F_MQ: u32 = 1u32 << 12;

/// Device classes a VirtIO window can announce.
#[derive(Clone, Copy, Debug, PartialEq, Eq, Structural)]
pub enum VirtIODeviceId {
    Network,
    Block,
    Console,
    Entropy,
    Balloon,
    SCSI,
    GPU,
    Input,
    Socket,
    Crypto,
    IOMMU,
    Memory,
    Sound,
    FS,
    PMEM,
    RPMB,
    SCMI,
    I2C,
    GPIO,
}

/// The wire value each device class is announced with.
pub open spec fn spec_device_id_code(d: VirtIODeviceId) -> u32 {
    match d {
        VirtIODeviceId::Network => 1,
        VirtIODeviceId::Block => 2,
        VirtIODeviceId::Console => 3,
        VirtIODeviceId::Entropy => 4,
        VirtIODeviceId::Balloon => 5,
        VirtIODeviceId::SCSI => 8,
        VirtIODeviceId::GPU => 16,
        VirtIODeviceId::Input => 18,
        VirtIODeviceId::Socket => 19,
        VirtIODeviceId::Crypto => 20,
        VirtIODeviceId::IOMMU => 23,
        VirtIODeviceId::Memory => 24,
        VirtIODeviceId::Sound => 25,
        VirtIODeviceId::FS => 26,
        VirtIODeviceId::PMEM => 27,
        VirtIODeviceId::RPMB => 28,
        VirtIODeviceId::SCMI => 32,
        VirtIODeviceId::I2C => 34,
        VirtIODeviceId::GPIO => 41,
    }
}

/// Decode an announced device class, `None` for one this driver does
/// not know.
pub fn device_id_from_code(code: u32) -> (r: Option<VirtIODeviceId>)
    ensures
        r matches Some(d) ==> spec_device_id_code(d) == code,
        r is None ==> code == 0 || !(code == 1 || code == 2 || code == 3 || code == 4 || code
            == 5 || code == 8 || code == 16 || code == 18 || code == 19 || code == 20 || code
            == 23 || code == 24 || code == 25 || code == 26 || code == 27 || code == 28 || code
            == 32 || code == 34 || code == 41),
{
    match code {
        1 => Some(VirtIODeviceId::Network),
        2 => Some(VirtIODeviceId::Block),
        3 => Some(VirtIODeviceId::Console),
        4 => Some(VirtIODeviceId::Entropy),
        5 => Some(VirtIODeviceId::Balloon),
        8 => Some(VirtIODeviceId::SCSI),
        16 => Some(VirtIODeviceId::GPU),
        18 => Some(VirtIODeviceId::Input),
        19 => Some(VirtIODeviceId::Socket),
        20 => Some(VirtIODeviceId::Crypto),
        23 => Some(VirtIODeviceId::IOMMU),
        24 => Some(VirtIODeviceId::Memory),
        25 => Some(VirtIODeviceId::Sound),
        26 => Some(VirtIODeviceId::FS),
        27 => Some(VirtIODeviceId::PMEM),
        28 => Some(VirtIODeviceId::RPMB),
        32 => Some(VirtIODeviceId::SCMI),
        34 => Some(VirtIODeviceId::I2C),
        41 => Some(VirtIODeviceId::GPIO),
        _ => None,
    }
}

/// Whether a window's identification registers announce a live VirtIO
/// device this driver may talk to.
pub fn probe(magic: u32, version: u32, device_id: u32) -> (r: bool)
    ensures
        r == (magic == VIRTIO_MAGIC && version == VIRTIO_VERSION && device_id != 0),
{
    magic == VIRTIO_MAGIC && version == VIRTIO_VERSION && device_id != 0
}

/// The features the driver answers a block device's offer with:
/// everything offered except read-only, cache writeback control and
/// multi-queue.
pub fn negotiate_block_features(device_features: u32) -> (r: u32)
    ensures
        r == device_features & !VIRTIO_BLK_F_RO & !VIRTIO_BLK_F_CONFIG_WCE & !VIRTIO_BLK_F_MQ,
{
    device_features & !VIRTIO_BLK_F_RO & !VIRTIO_BLK_F_CONFIG_WCE & !VIRTIO_BLK_F_MQ
}

/// Whether the status read back after offering features shows the
/// device accepted them.
pub fn features_accepted(status: u32) -> (r: bool)
    ensures
        r == (status & STATUS_FEATURES_OK != 0),
{
    status & STATUS_FEATURES_OK != 0
}

/// Why a block device's queue cannot be configured.
#[derive(Clone, Copy, Debug, PartialEq, Eq, Structural)]
pub enum QueueError {
    /// The queue-ready register shows the queue already in use.
    InUse,
    /// The device offers no queue at this index.
    Unavailable,
    /// The device's maximum queue length is below ours.
    TooShort,
}

/// Check the device's queue answers: the queue must be unused,
/// available, and long enough for `VIRTIO_QUEUE_LEN` descriptors.
pub fn check_queue(queue_ready: u32, queue_num_max: u32) -> (r: Result<(), QueueError>)
    ensures
        queue_ready != 0 ==> r == Result::<(), QueueError>::Err(QueueError::InUse),
        queue_ready == 0 && queue_num_max == 0 ==> r == Result::<(), QueueError>::Err(
            QueueError::Unavailable,
        ),
        queue_ready == 0 && 0 < queue_num_max < VIRTIO_QUEUE_LEN ==> r == Result::<
            (),
            QueueError,
        >::Err(QueueError::TooShort),
        queue_ready == 0 && queue_num_max >= VIRTIO_QUEUE_LEN ==> r is Ok,
{
    if queue_ready != 0 {
        Err(QueueError::InUse)
    } else if queue_num_max == 0 {
        Err(QueueError::Unavailable)
    } else if queue_num_max < VIRTIO_QUEUE_LEN as u32 {
        Err(QueueError::TooShort)
    } else {
        Ok(())
    }
}

/// Split a queue page's physical address into the low and high words
/// the device's address registers take.
pub fn split_addr(addr: u64) -> (r: (u32, u32))
    ensures
        r.0 == addr & 0xffff_ffff,
        r.1 == addr >> 32,
{
    proof {
        assert(addr & 0xffff_ffff <= 0xffff_ffffu64 && addr >> 32 <= 0xffff_ffffu64)
            by (bit_vector);
    }
    ((addr & 0xffff_ffff) as u32, (addr >> 32) as u32)
}

/// The three pages of a configured virtqueue: descriptor table,
/// available ring and used ring, each one zeroed physical page.
pub struct BlockQueue {
    pub num: usize,
    pub desc: u64,
    pub avail: u64,
    pub used: u64,
}

/// Allocate and zero the three pages of a block device's queue.
/// Fails, handing any partial allocation back, exactly when fewer than
/// three pages are free.
pub fn alloc_block_queue(mem: &mut Kmem) -> (r: Result<BlockQueue, AllocError>)
    requires
        old(mem).wf(),
    ensures
        final(mem).wf(),
        same_geometry(*old(mem), *final(mem)),
        r is Ok <==> old(mem).free_seq().len() >= 3,
        r is Err ==> mem_unchanged(*old(mem), *final(mem)),
        r matches Ok(q) ==> {
            &&& q.num == VIRTIO_QUEUE_LEN
            &&& final(mem).free_seq().len() + 3 == old(mem).free_seq().len()
            &&& final(mem).alloced() == old(mem).alloced() + 3
            &&& q.desc != q.avail && q.avail != q.used && q.desc != q.used
            &&& q.desc % crate::kmem::PAGE_SIZE == 0 && q.avail % crate::kmem::PAGE_SIZE == 0
                && q.used % crate::kmem::PAGE_SIZE == 0
            &&& !final(mem).is_free(final(mem).addr_idx(q.desc)) && !final(mem).is_free(
                final(mem).addr_idx(q.avail),
            ) && !final(mem).is_free(final(mem).addr_idx(q.used))
            &&& (forall|i: int|
                0 <= i < crate::kmem::WORDS_PER_PAGE ==> #[trigger] final(mem).word(
                    final(mem).addr_idx(q.desc),
                    i,
                ) == 0)
            &&& (forall|i: int|
                0 <= i < crate::kmem::WORDS_PER_PAGE ==> #[trigger] final(mem).word(
                    final(mem).addr_idx(q.avail),
                    i,
                ) == 0)
            &&& (forall|i: int|
                0 <= i < crate::kmem::WORDS_PER_PAGE ==> #[trigger] final(mem).word(
                    final(mem).addr_idx(q.used),
                    i,
                ) == 0)
        },
{
    let ghost m0 = *old(mem);
    if mem.free_page_count() < 3 {
        return Err(AllocError::OutOfPages);
    }
    let ghost i_desc = m0.free_seq().last();
    let desc = match mem.kalloc() {
        Some(pa) => pa,
        None => 0,
    };
    let ghost m1 = *mem;
    let ghost i_avail = m1.free_seq().last();
    let avail = match mem.kalloc() {
        Some(pa) => pa,
        None => 0,
    };
    let ghost m2 = *mem;
    let ghost i_used = m2.free_seq().last();
    let used = match mem.kalloc() {
        Some(pa) => pa,
        None => 0,
    };
    proof {
        lemma_page_addr_props(m0, i_desc);
        lemma_page_addr_props(m1, i_avail);
        lemma_page_addr_props(m2, i_used);
        crate::kmem::lemma_page_addr_injective(m0, i_desc, i_avail);
        crate::kmem::lemma_page_addr_injective(m0, i_desc, i_used);
        crate::kmem::lemma_page_addr_injective(m0, i_avail, i_used);
        assert(m1.free_seq()[m1.free_seq().len() - 1] == i_avail);
        assert(m2.free_seq()[m2.free_seq().len() - 1] == i_used);
        assert(m0.free_seq()[m0.free_seq().len() - 2] == i_avail);
        assert(m0.free_seq()[m0.free_seq().len() - 3] == i_used);
    }
    let td = mem.page_index_of(desc);
    mem.zero_page(td);
    let ghost za = *mem;
    let ta = mem.page_index_of(avail);
    mem.zero_page(ta);
    let ghost zb = *mem;
    let tu = mem.page_index_of(used);
    mem.zero_page(tu);
    proof {
        let mf = *mem;
        assert(td as int == i_desc && ta as int == i_avail && tu as int == i_used);
        assert(i_desc != i_avail && i_desc != i_used && i_avail != i_used) by {
            assert(m0.free_seq()[m0.free_seq().len() - 1] == i_desc);
        }
        assert forall|i: int| 0 <= i < 512 implies #[trigger] mf.word(i_desc, i) == 0 by {
            assert(za.word(td as int, i) == 0);
            assert(zb.word(td as int, i) == za.word(td as int, i));
            assert(mf.word(td as int, i) == zb.word(td as int, i));
        }
        assert forall|i: int| 0 <= i < 512 implies #[trigger] mf.word(i_avail, i) == 0 by {
            assert(zb.word(ta as int, i) == 0);
            assert(mf.word(ta as int, i) == zb.word(ta as int, i));
        }
        assert forall|i: int| 0 <= i < 512 implies #[trigger] mf.word(i_used, i) == 0 by {}
        assert(mf.addr_idx(desc) == i_desc && mf.addr_idx(avail) == i_avail && mf.addr_idx(
            used,
        ) == i_used);
        assert(!mf.is_free(i_desc)) by {
            if mf.free_seq().contains(i_desc) {
                let j = choose|j: int| 0 <= j < mf.free_seq().len() && mf.free_seq()[j] == i_desc;
                assert(m0.free_seq()[j] == i_desc);
                assert(m0.free_seq()[m0.free_seq().len() - 1] == i_desc);
            }
        }
        assert(!mf.is_free(i_avail)) by {
            if mf.free_seq().contains(i_avail) {
                let j = choose|j: int|
                    0 <= j < mf.free_seq().len() && mf.free_seq()[j] == i_avail;
                assert(m0.free_seq()[j] == i_avail);
                assert(m0.free_seq()[m0.free_seq().len() - 2] == i_avail);
            }
        }
        assert(!mf.is_free(i_used)) by {
            if mf.free_seq().contains(i_used) {
                let j = choose|j: int| 0 <= j < mf.free_seq().len() && mf.free_seq()[j] == i_used;
                assert(m0.free_seq()[j] == i_used);
                assert(m0.free_seq()[m0.free_seq().len() - 3] == i_used);
            }
        }
    }
    Ok(BlockQueue { num: VIRTIO_QUEUE_LEN, desc, avail, used })
}

} // verus!
