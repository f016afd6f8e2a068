use vstd::prelude::*;

use crate::common::{align_up, align_up_spec, memcpy, zero_bytes};
use crate::page_alloc::{zeros, PAddr, PAGE_SIZE};
use crate::process::{Kernel, PROCS_MAX, PROC_UNUSED};

verus! {

/// Size of a disk sector, in bytes.
pub const SECTOR_SIZE: usize = 512;

/// Number of descriptors in a virtqueue.
pub const VIRTQ_ENTRY_NUM: usize = 16;

/// Device id of a virtio block device.
pub const VIRTIO_DEVICE_BLK: u32 = 2;

/// Physical address of the virtio block device's registers.
pub const VIRTIO_BLK_PADDR: u32 = 0x1000_1000;

/// Value of the magic register: "virt" in little-endian.
pub const VIRTIO_MAGIC: u32 = 0x7472_6976;

pub const VIRTIO_REG_MAGIC: usize = 0x00;
pub const VIRTIO_REG_VERSION: usize = 0x04;
pub const VIRTIO_REG_DEVICE_ID: usize = 0x08;
pub const VIRTIO_REG_PAGE_SIZE: usize = 0x28;
pub const VIRTIO_REG_QUEUE_SEL: usize = 0x30;
pub const VIRTIO_REG_QUEUE_NUM_MAX: usize = 0x34;
pub const VIRTIO_REG_QUEUE_NUM: usize = 0x38;
pub const VIRTIO_REG_QUEUE_PFN: usize = 0x40;
pub const VIRTIO_REG_QUEUE_READY: usize = 0x44;
pub const VIRTIO_REG_QUEUE_NOTIFY: usize = 0x50;
pub const VIRTIO_REG_DEVICE_STATUS: usize = 0x70;
pub const VIRTIO_REG_DEVICE_CONFIG: usize = 0x100;

pub const VIRTIO_STATUS_ACK: u32 = 1;
pub const VIRTIO_STATUS_DRIVER: u32 = 2;
pub const VIRTIO_STATUS_DRIVER_OK: u32 = 4;

/// Descriptor flag: the chain continues in `next`.
pub const VIRTQ_DESC_F_NEXT: u32 = 1;

/// Descriptor flag: the device writes this buffer.
pub const VIRTQ_DESC_F_WRITE: u32 = 2;

pub const VIRTQ_AVAIL_F_NO_INTERRUPT: u32 = 1;

/// Request type: read sectors from the disk.
pub const VIRTIO_BLK_T_IN: u32 = 0;

/// Request type: write sectors to the disk.
pub const VIRTIO_BLK_T_OUT: u32 = 1;

/// Offset of `data` in a block request: after `type_`, `reserved` and `sector`.
pub const BLK_REQ_DATA_OFFSET: u64 = 16;

/// Offset of `status` in a block request: after the sector of data.
pub const BLK_REQ_STATUS_OFFSET: u64 = 528;

/// Size of a virtqueue in memory on the 32-bit target: sixteen descriptors and the available
/// ring, padded to a page, then the used ring and the driver's bookkeeping.
pub const VIRTQ_BYTES: usize = 4238;

/// Size of a block request in memory: header, one sector, and the status byte.
pub const BLK_REQ_BYTES: usize = 529;

/// The layout sizes above follow from the fields on the 32-bit target. A virtqueue holds
/// sixteen 16-byte descriptors and the available ring (flags, index, sixteen 2-byte
/// entries), padded to a whole page so that the used ring starts on one; then the used ring
/// (flags, index, sixteen 8-byte elements), the queue index, the used-index pointer and the
/// last used index. A block request holds its type, a reserved word and the sector, then
/// one sector of data and the status byte.
pub proof fn lemma_layout_sizes()
    ensures
        VIRTQ_BYTES == align_up_spec(
            (VIRTQ_ENTRY_NUM * 16 + (2 + 2 + 2 * VIRTQ_ENTRY_NUM)) as int,
            PAGE_SIZE as int,
        ) + (2 + 2 + 8 * VIRTQ_ENTRY_NUM) + 4 + 4 + 2,
        BLK_REQ_DATA_OFFSET == 4 + 4 + 8,
        BLK_REQ_STATUS_OFFSET == BLK_REQ_DATA_OFFSET + SECTOR_SIZE,
        BLK_REQ_BYTES == BLK_REQ_STATUS_OFFSET + 1,
{
    assert(align_up_spec(292, 4096) == 4096);
}

/// Number of whole pages that hold `bytes` bytes.
pub fn pages_for(bytes: usize) -> (r: usize)
    requires
        align_up_spec(bytes as int, PAGE_SIZE as int) <= usize::MAX,
    ensures
        r == align_up_spec(bytes as int, PAGE_SIZE as int) / PAGE_SIZE as int,
{
    align_up(bytes, PAGE_SIZE) / PAGE_SIZE
}

/// A virtqueue descriptor: one buffer of a request.
#[derive(Debug, Clone, Copy, PartialEq, Eq, Structural)]
pub struct VirtqDesc {
    pub addr: u64,
    pub len: u32,
    pub flags: u16,
    pub next: u16,
}

/// The driver's ring of descriptor chains made available to the device.
pub struct VirtqAvail {
    pub flags: u16,
    pub index: u16,
    pub ring: Vec<u16>,
}

/// One completed descriptor chain.
#[derive(Debug, Clone, Copy, PartialEq, Eq, Structural)]
pub struct VirtqUsedElem {
    pub id: u32,
    pub len: u32,
}

/// The device's ring of completed descriptor chains.
pub struct VirtqUsed {
    pub flags: u16,
    pub index: u16,
    pub ring: Vec<VirtqUsedElem>,
}

/// A virtqueue and the driver's bookkeeping for it.
pub struct VirtioVirtq {
    pub descs: Vec<VirtqDesc>,
    pub avail: VirtqAvail,
    pub used: VirtqUsed,
    /// Index of the queue on its device.
    pub queue_index: i32,
    /// Number of requests the driver has made available, modulo 2^16.
    pub last_used_index: u16,
}

/// A block device request: header, one sector of data, and the status the device writes.
pub struct VirtioBlkReq {
    pub type_: u32,
    pub reserved: u32,
    pub sector: u64,
    pub data: Vec<u8>,
    pub status: u8,
}

/// Why the block device cannot be used; the kernel halts with the matching message.
#[derive(Debug, Clone, Copy, PartialEq, Eq, Structural)]
pub enum VirtioError {
    /// "virtio: invalid magic value"
    InvalidMagic,
    /// "virtio: invalid version"
    InvalidVersion,
    /// "virtio: invalid device id"
    InvalidDeviceId,
}

/// Why a disk access did not happen; the kernel reports it and carries on.
#[derive(Debug, Clone, Copy, PartialEq, Eq, Structural)]
pub enum DiskError {
    /// The sector lies past the disk's capacity.
    SectorOutOfRange,
    /// The device finished the request with this nonzero status.
    Failed(u8),
}

/// Checks the identification registers of the device at `VIRTIO_BLK_PADDR`: a legacy
/// (version 1) virtio block device.
pub fn virtio_check_device(magic: u32, version: u32, device_id: u32) -> (r: Result<(), VirtioError>)
    ensures
        r == (if magic != VIRTIO_MAGIC {
            Err(VirtioError::InvalidMagic)
        } else if version != 1 {
            Err(VirtioError::InvalidVersion)
        } else if device_id != VIRTIO_DEVICE_BLK {
            Err(VirtioError::InvalidDeviceId)
        } else {
            Ok(())
        }),
{
    if magic != VIRTIO_MAGIC {
        return Err(VirtioError::InvalidMagic);
    }
    if version != 1 {
        return Err(VirtioError::InvalidVersion);
    }
    if device_id != VIRTIO_DEVICE_BLK {
        return Err(VirtioError::InvalidDeviceId);
    }
    Ok(())
}

/// An access the driver makes to a register of the block device.
#[derive(Debug, Clone, Copy, PartialEq, Eq, Structural)]
pub enum RegOp {
    /// Stores the value in the register at the offset.
    Write(usize, u32),
    /// Sets the bits of the value in the register at the offset, keeping its other bits.
    FetchOr(usize, u32),
}

/// The register accesses that set up the device's queue `index`: select it, give it
/// `VIRTQ_ENTRY_NUM` entries, and place it at the page of physical address `vq_paddr`.
pub open spec fn virtq_init_regs(index: u32, vq_paddr: u32) -> Seq<RegOp> {
    seq![
        RegOp::Write(VIRTIO_REG_QUEUE_SEL, index),
        RegOp::Write(VIRTIO_REG_QUEUE_NUM, VIRTQ_ENTRY_NUM as u32),
        RegOp::Write(VIRTIO_REG_QUEUE_PFN, vq_paddr / 4096),
    ]
}

/// The register accesses that bring up the block device with its request queue at
/// `vq_paddr`: reset, acknowledge, announce a driver, give the page size, set up queue 0,
/// and mark the driver ready.
pub open spec fn blk_init_regs(vq_paddr: u32) -> Seq<RegOp> {
    seq![
        RegOp::Write(VIRTIO_REG_DEVICE_STATUS, 0),
        RegOp::FetchOr(VIRTIO_REG_DEVICE_STATUS, VIRTIO_STATUS_ACK),
        RegOp::FetchOr(VIRTIO_REG_DEVICE_STATUS, VIRTIO_STATUS_DRIVER),
        RegOp::Write(VIRTIO_REG_PAGE_SIZE, PAGE_SIZE as u32),
    ] + virtq_init_regs(0, vq_paddr) + seq![
        RegOp::Write(VIRTIO_REG_DEVICE_STATUS, VIRTIO_STATUS_DRIVER_OK),
    ]
}

/// The kernel `k1` is `k0` with `bytes` more zeroed bytes handed out, and nothing else
/// changed: no process slot, no translation of any process.
pub open spec fn handed_out(k0: Kernel, k1: Kernel, bytes: nat) -> bool {
    &&& k1.wf()
    &&& k1.procs() == k0.procs()
    &&& k1.kernel_base_spec() == k0.kernel_base_spec()
    &&& k1.user_entry_spec() == k0.user_entry_spec()
    &&& k1.current_spec() == k0.current_spec()
    &&& k1.idle_spec() == k0.idle_spec()
    &&& k1.mem().base() == k0.mem().base()
    &&& k1.mem().end() == k0.mem().end()
    &&& k1.mem().ram() == k0.mem().ram() + zeros(bytes)
    &&& forall|i: int, w1: int, w0: int|
        0 <= i < PROCS_MAX && k0.procs()[i].state != PROC_UNUSED && 0 <= w1 < 1024 && 0 <= w0
            < 1024 ==> #[trigger] k1.mem().lookup_vpn(k0.procs()[i].page_table as int, w1, w0)
            == k0.mem().lookup_vpn(k0.procs()[i].page_table as int, w1, w0)
}

/// Sets up the device's queue `index` in fresh pages of the kernel's free RAM, which must
/// hold them. Returns the zeroed queue, the physical address of its pages, and the register
/// accesses that hand it to the device.
pub fn virtq_init(kernel: &mut Kernel, index: u32) -> (r: (VirtioVirtq, PAddr, Vec<RegOp>))
    requires
        old(kernel).wf(),
        index <= i32::MAX,
        old(kernel).mem().next() + 2 * 4096 <= old(kernel).mem().end(),
    ensures
        r.0.is_fresh(index as i32),
        r.1 == old(kernel).mem().next(),
        r.2@ == virtq_init_regs(index, r.1),
        handed_out(*old(kernel), *final(kernel), 2 * 4096),
{
    assert(align_up_spec(VIRTQ_BYTES as int, PAGE_SIZE as int) == 8192);
    let pages = pages_for(VIRTQ_BYTES);
    let vq_paddr = kernel.alloc_pages(pages);
    let vq = VirtioVirtq::new(index as i32);
    let mut regs: Vec<RegOp> = Vec::new();
    regs.push(RegOp::Write(VIRTIO_REG_QUEUE_SEL, index));
    regs.push(RegOp::Write(VIRTIO_REG_QUEUE_NUM, VIRTQ_ENTRY_NUM as u32));
    regs.push(RegOp::Write(VIRTIO_REG_QUEUE_PFN, vq_paddr / PAGE_SIZE as u32));
    assert(regs@ =~= virtq_init_regs(index, vq_paddr));
    (vq, vq_paddr, regs)
}

/// Brings up the block device, whose identification registers read `magic`, `version` and
/// `device_id`: it must be a legacy (version 1) virtio block device, or the kernel halts
/// (`virtio_check_device` tells which). Sets up its request queue in fresh pages of the
/// kernel's free RAM, then its request buffer in the page after them; the free RAM must
/// hold them. Returns the queue, the request buffer's physical address, and the register
/// accesses to make, in order.
pub fn virtio_blk_init(kernel: &mut Kernel, magic: u32, version: u32, device_id: u32) -> (r: (
    VirtioVirtq,
    PAddr,
    Vec<RegOp>,
))
    requires
        old(kernel).wf(),
        magic == VIRTIO_MAGIC,
        version == 1,
        device_id == VIRTIO_DEVICE_BLK,
        old(kernel).mem().next() + 3 * 4096 <= old(kernel).mem().end(),
    ensures
        r.0.is_fresh(0),
        r.1 == old(kernel).mem().next() + 2 * 4096,
        r.2@ == blk_init_regs(old(kernel).mem().next() as u32),
        handed_out(*old(kernel), *final(kernel), 3 * 4096),
{
    let ghost k0 = *kernel;
    let mut regs: Vec<RegOp> = Vec::new();
    regs.push(RegOp::Write(VIRTIO_REG_DEVICE_STATUS, 0));
    regs.push(RegOp::FetchOr(VIRTIO_REG_DEVICE_STATUS, VIRTIO_STATUS_ACK));
    regs.push(RegOp::FetchOr(VIRTIO_REG_DEVICE_STATUS, VIRTIO_STATUS_DRIVER));
    regs.push(RegOp::Write(VIRTIO_REG_PAGE_SIZE, PAGE_SIZE as u32));
    let (vq, vq_paddr, queue_regs) = virtq_init(kernel, 0);
    let ghost k1 = *kernel;
    let mut k: usize = 0;
    while k < queue_regs.len()
        invariant
            k <= queue_regs@.len(),
            queue_regs@ == virtq_init_regs(0, vq_paddr),
            regs@ == seq![
                RegOp::Write(VIRTIO_REG_DEVICE_STATUS, 0),
                RegOp::FetchOr(VIRTIO_REG_DEVICE_STATUS, VIRTIO_STATUS_ACK),
                RegOp::FetchOr(VIRTIO_REG_DEVICE_STATUS, VIRTIO_STATUS_DRIVER),
                RegOp::Write(VIRTIO_REG_PAGE_SIZE, PAGE_SIZE as u32),
            ] + queue_regs@.subrange(0, k as int),
        decreases queue_regs@.len() - k,
    {
        regs.push(queue_regs[k]);
        k = k + 1;
        assert(queue_regs@.subrange(0, k as int) =~= queue_regs@.subrange(0, k - 1).push(
            queue_regs@[k - 1],
        ));
    }
    regs.push(RegOp::Write(VIRTIO_REG_DEVICE_STATUS, VIRTIO_STATUS_DRIVER_OK));
    assert(queue_regs@.subrange(0, 3) =~= queue_regs@);
    assert(regs@ =~= blk_init_regs(vq_paddr));
    assert(align_up_spec(BLK_REQ_BYTES as int, PAGE_SIZE as int) == 4096);
    let req_paddr = kernel.alloc_pages(pages_for(BLK_REQ_BYTES));
    proof {
        assert(kernel.mem().ram() =~= k0.mem().ram() + zeros(3 * 4096));
    }
    (vq, req_paddr, regs)
}

/// Disk capacity in bytes, from the capacity in sectors that the device's configuration
/// space reports.
pub fn blk_capacity(sectors: u64) -> (r: u64)
    requires
        sectors * 512 <= u64::MAX,
    ensures
        r == sectors * 512,
{
    sectors * SECTOR_SIZE as u64
}

impl VirtqDesc {
    /// An all-zero descriptor.
    pub fn zero() -> (r: Self)
        ensures
            r == (VirtqDesc { addr: 0, len: 0, flags: 0, next: 0 }),
    {
        VirtqDesc { addr: 0, len: 0, flags: 0, next: 0 }
    }
}

/// `n` zero `u16`s.
fn zero_u16s(n: usize) -> (r: Vec<u16>)
    ensures
        r@ == Seq::new(n as nat, |i: int| 0u16),
{
    let mut v: Vec<u16> = Vec::new();
    let mut k: usize = 0;
    while k < n
        invariant
            k <= n,
            v@ == Seq::new(k as nat, |i: int| 0u16),
        decreases n - k,
    {
        v.push(0u16);
        k = k + 1;
        assert(v@ =~= Seq::new(k as nat, |i: int| 0u16));
    }
    v
}

impl VirtioVirtq {
    /// The virtqueue's invariant: every ring has `VIRTQ_ENTRY_NUM` slots.
    pub open spec fn wf(&self) -> bool {
        &&& self.descs@.len() == VIRTQ_ENTRY_NUM
        &&& self.avail.ring@.len() == VIRTQ_ENTRY_NUM
        &&& self.used.ring@.len() == VIRTQ_ENTRY_NUM
    }

    /// A zeroed virtqueue with index `queue_index` on its device.
    pub open spec fn is_fresh(&self, queue_index: i32) -> bool {
        &&& self.wf()
        &&& self.queue_index == queue_index
        &&& self.last_used_index == 0
        &&& self.avail.index == 0
        &&& self.avail.flags == 0
        &&& self.used.index == 0
        &&& self.used.flags == 0
        &&& forall|i: int| 0 <= i < VIRTQ_ENTRY_NUM ==> #[trigger] self.descs@[i] == VirtqDesc::zero_spec()
        &&& forall|i: int| 0 <= i < VIRTQ_ENTRY_NUM ==> #[trigger] self.avail.ring@[i] == 0
        &&& forall|i: int|
            0 <= i < VIRTQ_ENTRY_NUM ==> #[trigger] self.used.ring@[i] == (VirtqUsedElem { id: 0, len: 0 })
    }

    /// A zeroed virtqueue with index `queue_index` on its device.
    pub fn new(queue_index: i32) -> (r: Self)
        ensures
            r.is_fresh(queue_index),
    {
        let mut descs: Vec<VirtqDesc> = Vec::new();
        let mut used_ring: Vec<VirtqUsedElem> = Vec::new();
        let mut k: usize = 0;
        while k < VIRTQ_ENTRY_NUM
            invariant
                k <= VIRTQ_ENTRY_NUM,
                descs@.len() == k,
                used_ring@.len() == k,
                forall|i: int| 0 <= i < k ==> #[trigger] descs@[i] == VirtqDesc::zero_spec(),
                forall|i: int|
                    0 <= i < k ==> #[trigger] used_ring@[i] == (VirtqUsedElem { id: 0, len: 0 }),
            decreases VIRTQ_ENTRY_NUM - k,
        {
            descs.push(VirtqDesc::zero());
            used_ring.push(VirtqUsedElem { id: 0, len: 0 });
            k = k + 1;
        }
        VirtioVirtq {
            descs,
            avail: VirtqAvail { flags: 0, index: 0, ring: zero_u16s(VIRTQ_ENTRY_NUM) },
            used: VirtqUsed { flags: 0, index: 0, ring: used_ring },
            queue_index,
            last_used_index: 0,
        }
    }

    /// Makes the descriptor chain that starts at `desc_index` available to the device: it
    /// goes into the next slot of the available ring, and both the ring's index and the
    /// count of requests in flight advance (modulo 2^16). Returns the value to write to
    /// the device's queue-notify register.
    pub fn virtq_kick(&mut self, desc_index: i32) -> (notify: u32)
        requires
            old(self).wf(),
        ensures
            final(self).wf(),
            final(self).descs@ == old(self).descs@,
            final(self).used == old(self).used,
            final(self).queue_index == old(self).queue_index,
            final(self).avail.flags == old(self).avail.flags,
            final(self).avail.ring@ == old(self).avail.ring@.update(
                old(self).avail.index as int % VIRTQ_ENTRY_NUM as int,
                desc_index as u16,
            ),
            final(self).avail.index == (old(self).avail.index + 1) % 0x1_0000,
            final(self).last_used_index == (old(self).last_used_index + 1) % 0x1_0000,
            notify == old(self).queue_index as u32,
    {
        let slot = self.avail.index as usize % VIRTQ_ENTRY_NUM;
        self.avail.ring.set(slot, desc_index as u16);
        self.avail.index = self.avail.index.wrapping_add(1);
        let notify = self.queue_index as u32;
        self.last_used_index = self.last_used_index.wrapping_add(1);
        notify
    }

    /// The device has not yet completed every request made available: its used index,
    /// `device_used_index`, lags behind the driver's count.
    pub fn virtq_is_busy(&self, device_used_index: u16) -> (r: bool)
        ensures
            r == (self.last_used_index != device_used_index),
    {
        self.last_used_index != device_used_index
    }
}

impl VirtqDesc {
    /// The all-zero descriptor.
    pub open spec fn zero_spec() -> Self {
        VirtqDesc { addr: 0, len: 0, flags: 0, next: 0 }
    }
}



impl VirtioBlkReq {
    /// A zeroed request.
    pub fn new() -> (r: Self)
        ensures
            r.type_ == 0,
            r.reserved == 0,
            r.sector == 0,
            r.data@ == Seq::new(SECTOR_SIZE as nat, |i: int| 0u8),
            r.status == 0,
    {
        VirtioBlkReq { type_: 0, reserved: 0, sector: 0, data: zero_bytes(SECTOR_SIZE), status: 0 }
    }
}

/// The block device driver's state: its request queue, its one request buffer, at
/// physical address `req_paddr`, and the disk's capacity in bytes.
pub struct VirtioBlk {
    pub vq: VirtioVirtq,
    pub req: VirtioBlkReq,
    pub req_paddr: u32,
    pub capacity: u64,
}

/// The descriptor chain of a block request at `req_paddr`: the request header, the data
/// sector (written by the device for a read), and the status byte (written by the device).
pub open spec fn request_chain(descs: Seq<VirtqDesc>, old_descs: Seq<VirtqDesc>, req_paddr: u32, is_write: bool) -> bool {
    &&& descs.len() == VIRTQ_ENTRY_NUM
    &&& descs[0] == VirtqDesc {
        addr: req_paddr as u64,
        len: 16,
        flags: VIRTQ_DESC_F_NEXT as u16,
        next: 1,
    }
    &&& descs[1] == VirtqDesc {
        addr: (req_paddr + BLK_REQ_DATA_OFFSET) as u64,
        len: SECTOR_SIZE as u32,
        flags: if is_write {
            VIRTQ_DESC_F_NEXT as u16
        } else {
            (VIRTQ_DESC_F_NEXT | VIRTQ_DESC_F_WRITE) as u16
        },
        next: 2,
    }
    &&& descs[2] == VirtqDesc {
        addr: (req_paddr + BLK_REQ_STATUS_OFFSET) as u64,
        len: 1,
        flags: VIRTQ_DESC_F_WRITE as u16,
        next: old_descs[2].next,
    }
    &&& forall|i: int| 3 <= i < VIRTQ_ENTRY_NUM ==> #[trigger] descs[i] == old_descs[i]
}

impl VirtioBlk {
    /// The driver's invariant.
    pub open spec fn wf(&self) -> bool {
        &&& self.vq.wf()
        &&& self.req.data@.len() == SECTOR_SIZE
    }

    /// A driver for a disk of `capacity` bytes whose request queue is `vq` and whose
    /// request buffer lives at `req_paddr`.
    pub fn new(vq: VirtioVirtq, req_paddr: u32, capacity: u64) -> (r: Self)
        requires
            vq.wf(),
        ensures
            r.wf(),
            r.vq == vq,
            r.req_paddr == req_paddr,
            r.capacity == capacity,
            r.req.status == 0,
    {
        VirtioBlk { vq, req: VirtioBlkReq::new(), req_paddr, capacity }
    }

    /// Starts reading (`is_write` false) or writing sector `sector`: fills in the request
    /// (for a write, with the first sector of `buf`), builds its three-descriptor chain,
    /// and makes it available to the device. Returns the value to write to the device's
    /// queue-notify register; the device is then busy until its used index catches up.
    ///
    /// Sectors past the disk's capacity are refused and nothing changes.
    pub fn start_request(&mut self, buf: &[u8], sector: u64, is_write: bool) -> (r: Result<u32, DiskError>)
        requires
            old(self).wf(),
            is_write && sector < old(self).capacity / 512 ==> buf@.len() >= SECTOR_SIZE,
        ensures
            final(self).wf(),
            final(self).req_paddr == old(self).req_paddr,
            final(self).capacity == old(self).capacity,
            match r {
                Ok(notify) => {
                    &&& sector < old(self).capacity / 512
                    &&& final(self).req.sector == sector
                    &&& final(self).req.type_ == if is_write {
                        VIRTIO_BLK_T_OUT
                    } else {
                        VIRTIO_BLK_T_IN
                    }
                    &&& final(self).req.reserved == old(self).req.reserved
                    &&& final(self).req.status == old(self).req.status
                    &&& final(self).req.data@ == if is_write {
                        buf@.subrange(0, SECTOR_SIZE as int)
                    } else {
                        old(self).req.data@
                    }
                    &&& request_chain(final(self).vq.descs@, old(self).vq.descs@, old(self).req_paddr, is_write)
                    &&& final(self).vq.avail.ring@ == old(self).vq.avail.ring@.update(
                        old(self).vq.avail.index as int % VIRTQ_ENTRY_NUM as int,
                        0,
                    )
                    &&& final(self).vq.avail.index == (old(self).vq.avail.index + 1) % 0x1_0000
                    &&& final(self).vq.avail.flags == old(self).vq.avail.flags
                    &&& final(self).vq.last_used_index == (old(self).vq.last_used_index + 1) % 0x1_0000
                    &&& final(self).vq.used == old(self).vq.used
                    &&& final(self).vq.queue_index == old(self).vq.queue_index
                    &&& notify == old(self).vq.queue_index as u32
                },
                Err(e) => {
                    &&& e == DiskError::SectorOutOfRange
                    &&& sector >= old(self).capacity / 512
                    &&& *final(self) == *old(self)
                },
            },
    {
        if sector >= self.capacity / SECTOR_SIZE as u64 {
            return Err(DiskError::SectorOutOfRange);
        }
        self.req.sector = sector;
        self.req.type_ = if is_write {
            VIRTIO_BLK_T_OUT
        } else {
            VIRTIO_BLK_T_IN
        };
        if is_write {
            memcpy(self.req.data.as_mut_slice(), buf, SECTOR_SIZE);
            assert(self.req.data@ =~= buf@.subrange(0, SECTOR_SIZE as int));
        }
        let paddr = self.req_paddr as u64;
        let d2_next = self.vq.descs[2].next;
        self.vq.descs.set(
            0,
            VirtqDesc { addr: paddr, len: 16, flags: VIRTQ_DESC_F_NEXT as u16, next: 1 },
        );
        let flags1 = if is_write {
            VIRTQ_DESC_F_NEXT as u16
        } else {
            (VIRTQ_DESC_F_NEXT | VIRTQ_DESC_F_WRITE) as u16
        };
        self.vq.descs.set(
            1,
            VirtqDesc {
                addr: paddr + BLK_REQ_DATA_OFFSET,
                len: SECTOR_SIZE as u32,
                flags: flags1,
                next: 2,
            },
        );
        self.vq.descs.set(
            2,
            VirtqDesc {
                addr: paddr + BLK_REQ_STATUS_OFFSET,
                len: 1,
                flags: VIRTQ_DESC_F_WRITE as u16,
                next: d2_next,
            },
        );
        let notify = self.vq.virtq_kick(0);
        Ok(notify)
    }

    /// Finishes the request the device has completed: a nonzero status is a failure;
    /// otherwise a read copies the sector into the first sector of `buf`.
    pub fn finish_request(&self, buf: &mut [u8], is_write: bool) -> (r: Result<(), DiskError>)
        requires
            self.wf(),
            old(buf)@.len() >= SECTOR_SIZE,
        ensures
            r == (if self.req.status != 0 {
                Err(DiskError::Failed(self.req.status))
            } else {
                Ok(())
            }),
            final(buf)@ == if self.req.status == 0 && !is_write {
                self.req.data@ + old(buf)@.subrange(SECTOR_SIZE as int, old(buf)@.len() as int)
            } else {
                old(buf)@
            },
    {
        if self.req.status != 0 {
            return Err(DiskError::Failed(self.req.status));
        }
        if !is_write {
            memcpy(buf, self.req.data.as_slice(), SECTOR_SIZE);
            assert(self.req.data@.subrange(0, SECTOR_SIZE as int) =~= self.req.data@);
        }
        Ok(())
    }
}

} // verus!
