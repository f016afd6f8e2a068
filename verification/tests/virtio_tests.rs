use lib::virtio::{
    pages_for, BLK_REQ_BYTES, VIRTQ_BYTES,
    blk_capacity, virtio_check_device, DiskError, VirtioBlk, VirtioError, VirtioVirtq, VirtqDesc,
    VIRTIO_BLK_T_IN, VIRTIO_BLK_T_OUT, VIRTIO_DEVICE_BLK, VIRTIO_MAGIC, VIRTQ_ENTRY_NUM,
    virtio_blk_init, virtq_init, RegOp, VIRTIO_REG_DEVICE_STATUS, VIRTIO_REG_PAGE_SIZE,
    VIRTIO_REG_QUEUE_NUM, VIRTIO_REG_QUEUE_PFN, VIRTIO_REG_QUEUE_SEL, VIRTIO_STATUS_ACK,
    VIRTIO_STATUS_DRIVER, VIRTIO_STATUS_DRIVER_OK,
};
use lib::process::Kernel;

#[test]
fn check_device_accepts_legacy_block_device() {
    assert_eq!(virtio_check_device(VIRTIO_MAGIC, 1, VIRTIO_DEVICE_BLK), Ok(()));
    assert_eq!(virtio_check_device(0x7472_6977, 1, VIRTIO_DEVICE_BLK), Err(VirtioError::InvalidMagic));
    assert_eq!(virtio_check_device(VIRTIO_MAGIC, 2, VIRTIO_DEVICE_BLK), Err(VirtioError::InvalidVersion));
    assert_eq!(virtio_check_device(VIRTIO_MAGIC, 1, 1), Err(VirtioError::InvalidDeviceId));
    assert_eq!(virtio_check_device(0, 0, 0), Err(VirtioError::InvalidMagic));
}

#[test]
fn capacity_in_bytes() {
    assert_eq!(blk_capacity(8), 4096);
    assert_eq!(blk_capacity(0), 0);
}

#[test]
fn kick_publishes_chain_and_counts() {
    let mut vq = VirtioVirtq::new(0);
    assert_eq!(vq.descs.len(), VIRTQ_ENTRY_NUM);
    assert_eq!(vq.virtq_kick(0), 0);
    assert_eq!(vq.avail.ring[0], 0);
    assert_eq!(vq.avail.index, 1);
    assert_eq!(vq.last_used_index, 1);
    assert!(vq.virtq_is_busy(0));
    assert!(!vq.virtq_is_busy(1));
    vq.avail.index = 0xffff;
    vq.last_used_index = 0xffff;
    vq.virtq_kick(5);
    assert_eq!(vq.avail.ring[15], 5);
    assert_eq!(vq.avail.index, 0);
    assert_eq!(vq.last_used_index, 0);
}

#[test]
fn read_request_builds_descriptor_chain() {
    let mut blk = VirtioBlk::new(VirtioVirtq::new(0), 0x8030_0000, 8 * 512);
    let buf = [0u8; 512];
    assert_eq!(blk.start_request(&buf, 3, false), Ok(0));
    assert_eq!(blk.req.sector, 3);
    assert_eq!(blk.req.type_, VIRTIO_BLK_T_IN);
    assert_eq!(blk.vq.descs[0], VirtqDesc { addr: 0x8030_0000, len: 16, flags: 1, next: 1 });
    assert_eq!(blk.vq.descs[1], VirtqDesc { addr: 0x8030_0010, len: 512, flags: 3, next: 2 });
    assert_eq!(blk.vq.descs[2], VirtqDesc { addr: 0x8030_0210, len: 1, flags: 2, next: 0 });
    assert!(blk.vq.virtq_is_busy(0));
    assert!(!blk.vq.virtq_is_busy(1));
}

#[test]
fn write_request_copies_data() {
    let mut blk = VirtioBlk::new(VirtioVirtq::new(0), 0x8030_0000, 8 * 512);
    let buf: Vec<u8> = (0..512u32).map(|i| (i % 256) as u8).collect();
    assert_eq!(blk.start_request(&buf, 7, true), Ok(0));
    assert_eq!(blk.req.type_, VIRTIO_BLK_T_OUT);
    assert_eq!(blk.req.data, buf);
    assert_eq!(blk.vq.descs[1].flags, 1);
}

#[test]
fn request_past_capacity_is_refused() {
    let mut blk = VirtioBlk::new(VirtioVirtq::new(0), 0x8030_0000, 8 * 512);
    let buf = [0u8; 512];
    assert_eq!(blk.start_request(&buf, 8, false), Err(DiskError::SectorOutOfRange));
    assert_eq!(blk.vq.avail.index, 0);
}

#[test]
fn finish_read_copies_sector_out() {
    let mut blk = VirtioBlk::new(VirtioVirtq::new(0), 0x8030_0000, 8 * 512);
    let mut buf = vec![0u8; 600];
    blk.req.data = vec![0x5a; 512];
    assert_eq!(blk.finish_request(&mut buf, false), Ok(()));
    assert!(buf[..512].iter().all(|&b| b == 0x5a));
    assert!(buf[512..].iter().all(|&b| b == 0));
    blk.req.status = 1;
    let mut buf2 = vec![0u8; 512];
    assert_eq!(blk.finish_request(&mut buf2, false), Err(DiskError::Failed(1)));
    assert!(buf2.iter().all(|&b| b == 0));
}

#[test]
fn request_structures_fit_in_pages() {
    assert_eq!(pages_for(VIRTQ_BYTES), 2);
    assert_eq!(pages_for(BLK_REQ_BYTES), 1);
    assert_eq!(pages_for(0), 0);
    assert_eq!(pages_for(4096), 1);
}

#[test]
fn virtio_blk_init_handshake() {
    let mut k = Kernel::new(0x8020_0000, 0x8022_0000, 0x8030_0000, 0x8020_0040);
    let (vq, req_paddr, regs) = virtio_blk_init(&mut k, VIRTIO_MAGIC, 1, VIRTIO_DEVICE_BLK);
    assert_eq!(vq.queue_index, 0);
    assert_eq!(vq.avail.index, 0);
    assert_eq!(vq.last_used_index, 0);
    assert_eq!(req_paddr, 0x8022_0000 + 2 * 4096);
    assert_eq!(k.memory().next_paddr(), 0x8022_0000 + 3 * 4096);
    assert_eq!(
        regs,
        vec![
            RegOp::Write(VIRTIO_REG_DEVICE_STATUS, 0),
            RegOp::FetchOr(VIRTIO_REG_DEVICE_STATUS, VIRTIO_STATUS_ACK),
            RegOp::FetchOr(VIRTIO_REG_DEVICE_STATUS, VIRTIO_STATUS_DRIVER),
            RegOp::Write(VIRTIO_REG_PAGE_SIZE, 4096),
            RegOp::Write(VIRTIO_REG_QUEUE_SEL, 0),
            RegOp::Write(VIRTIO_REG_QUEUE_NUM, 16),
            RegOp::Write(VIRTIO_REG_QUEUE_PFN, 0x8022_0000 / 4096),
            RegOp::Write(VIRTIO_REG_DEVICE_STATUS, VIRTIO_STATUS_DRIVER_OK),
        ]
    );
}

#[test]
fn virtq_init_places_queue() {
    let mut k = Kernel::new(0x8020_0000, 0x8022_0000, 0x8030_0000, 0x8020_0040);
    let (vq, paddr, regs) = virtq_init(&mut k, 3);
    assert_eq!(vq.queue_index, 3);
    assert_eq!(paddr, 0x8022_0000);
    assert_eq!(
        regs,
        vec![
            RegOp::Write(VIRTIO_REG_QUEUE_SEL, 3),
            RegOp::Write(VIRTIO_REG_QUEUE_NUM, 16),
            RegOp::Write(VIRTIO_REG_QUEUE_PFN, 0x8022_0000 / 4096),
        ]
    );
}

#[test]
fn start_request_refuses_out_of_range_with_short_buffer() {
    let mut blk = VirtioBlk::new(VirtioVirtq::new(0), 0x8030_0000, 8 * 512);
    assert_eq!(blk.start_request(&[], 8, true), Err(DiskError::SectorOutOfRange));
}
