//! Operation-count bounds, round trips, boundary scenarios and error
//! contexts of the adapter over an in-memory block device.

use storage_device::block::Block;
use storage_device::block_device::{BlockDevice, BlockIndex, BlockCount, CountingBlockDevice};
use storage_device::error::IoOperation;
use storage_device::mem_block_device::MemBlockDevice;
use storage_device::storage_device::{StorageBlockDevice, StorageDevice};

/// An adapter over an in-memory device that counts the operations reaching
/// the medium.
fn counting_adapter(
    block_count: usize,
) -> StorageBlockDevice<CountingBlockDevice<MemBlockDevice>> {
    StorageBlockDevice::new(CountingBlockDevice::new(MemBlockDevice::new(block_count)))
}

#[test]
fn aligned_block_sized_request_costs_one_operation() {
    // offset 0, length 512: exactly 1 block operation, no partial regions
    let mut storage_dev = counting_adapter(8);

    let mut buf: Vec<u8> = vec![0; 512];
    storage_dev.read(0, &mut buf).expect("reading failed");
    assert_eq!(storage_dev.block_device().calls, 1);

    let data: Vec<u8> = (0..512).map(|i| i as u8).collect();
    storage_dev.write(0, &data).expect("writing failed");
    assert_eq!(storage_dev.block_device().calls, 2);
}

#[test]
fn offset_seven_block_sized_request_spans_two_partial_blocks() {
    // offset 7, length 512: a leading region of 505 bytes and a trailing
    // region of 7, no whole middle block
    let mut storage_dev = counting_adapter(8);

    let data: Vec<u8> = (0..4096).map(|i| (i + 7) as u8).collect();
    storage_dev.write(7, &data[..512]).expect("writing failed");
    // both partial regions of a write are read-modify-write
    assert_eq!(storage_dev.block_device().calls, 4);

    let mut buf: Vec<u8> = vec![0; 512];
    storage_dev.read(7, &mut buf).expect("reading failed");
    assert_eq!(storage_dev.block_device().calls, 6);
    for (k, byte) in buf.iter().enumerate() {
        assert_eq!(*byte, (k + 7) as u8);
    }
}

#[test]
fn single_byte_request_costs_one_operation() {
    // offset 0, length 1: one partial region of one byte, nothing else
    let mut storage_dev = counting_adapter(8);

    let mut buf: Vec<u8> = vec![0xaa; 1];
    storage_dev.read(0, &mut buf).expect("reading failed");
    assert_eq!(storage_dev.block_device().calls, 1);
    assert_eq!(buf[0], 0);
}

#[test]
fn second_block_request_is_pure_middle_region() {
    // offset 512, length 512: pure middle region, 1 block operation
    let mut storage_dev = counting_adapter(8);

    let mut buf: Vec<u8> = vec![0; 512];
    storage_dev.read(512, &mut buf).expect("reading failed");
    assert_eq!(storage_dev.block_device().calls, 1);
}

#[test]
fn empty_request_costs_nothing_at_any_offset() {
    // a zero-length buffer succeeds immediately, even beyond the device
    let mut storage_dev = counting_adapter(8);

    let mut buf: Vec<u8> = Vec::new();
    storage_dev.read(99999, &mut buf).expect("reading failed");
    storage_dev.write(99999, &buf).expect("writing failed");
    assert_eq!(storage_dev.block_device().calls, 0);
}

#[test]
fn fallback_write_then_readback_round_trips() {
    // the per-block fallback path stays correct: write a pattern block by
    // block through the scratch block, read it back the same way
    let mut storage_dev = counting_adapter(8);

    let data: Vec<u8> = (0..1030).map(|i| (i * 31 + 5) as u8).collect();
    storage_dev
        .write_internal(3, &data, false)
        .expect("writing failed");
    // leading 509 bytes (read + write), one whole middle block, trailing 9
    // bytes (read + write)
    assert_eq!(storage_dev.block_device().calls, 5);

    let mut buf: Vec<u8> = vec![0; 1030];
    storage_dev
        .read_internal(3, &mut buf, false)
        .expect("reading failed");
    assert_eq!(storage_dev.block_device().calls, 8);
    assert_eq!(buf, data);
}

#[test]
fn both_middle_paths_deliver_the_same_bytes() {
    let mut storage_dev = counting_adapter(8);
    let data: Vec<u8> = (0..4096).map(|i| (i * 13 + 1) as u8).collect();
    storage_dev.write(0, &data).expect("writing failed");
    assert_eq!(storage_dev.block_device().calls, 1);

    let mut bulk: Vec<u8> = vec![0; 2048];
    storage_dev
        .read_internal(0, &mut bulk, true)
        .expect("reading failed");
    assert_eq!(storage_dev.block_device().calls, 2);

    let mut slow: Vec<u8> = vec![0; 2048];
    storage_dev
        .read_internal(0, &mut slow, false)
        .expect("reading failed");
    assert_eq!(storage_dev.block_device().calls, 6);

    assert_eq!(bulk, slow);
    assert_eq!(&bulk[..], &data[..2048]);
}

#[test]
fn unaligned_round_trip_through_trait() {
    let mut storage_dev = StorageBlockDevice::new(MemBlockDevice::new(8));

    let data: Vec<u8> = (0..1000).map(|i| (i * 7 + 3) as u8).collect();
    storage_dev.write(100, &data).expect("writing failed");

    let mut buf: Vec<u8> = vec![0; 1000];
    storage_dev.read(100, &mut buf).expect("reading failed");
    assert_eq!(buf, data);

    // bytes around the written range stayed zero
    let mut edge: Vec<u8> = vec![0xff; 100];
    storage_dev.read(0, &mut edge).expect("reading failed");
    assert!(edge.iter().all(|b| *b == 0));
    let mut tail: Vec<u8> = vec![0xff; 96];
    storage_dev.read(1100, &mut tail).expect("reading failed");
    assert!(tail.iter().all(|b| *b == 0));

    assert_eq!(storage_dev.len(), Ok(4096));
}

#[test]
fn out_of_range_read_reports_context() {
    let mut storage_dev = StorageBlockDevice::new(MemBlockDevice::new(8));

    let mut buf: Vec<u8> = vec![0; 200];
    let err = storage_dev.read(4000, &mut buf).unwrap_err();
    assert_eq!(err.operation, IoOperation::Read);
    assert_eq!(err.offset, 4000);
    assert_eq!(err.len, 200);
    let bde = err.block_device_error.expect("no nested device error");
    assert_eq!(bde.operation, IoOperation::Read);
    assert_eq!(bde.start_index, BlockIndex(8));
}

#[test]
fn out_of_range_write_reports_context() {
    let mut storage_dev = StorageBlockDevice::new(MemBlockDevice::new(8));

    let data: Vec<u8> = vec![0x42; 200];
    let err = storage_dev.write(4000, &data).unwrap_err();
    assert_eq!(err.operation, IoOperation::Write);
    assert_eq!(err.offset, 4000);
    assert_eq!(err.len, 200);
    assert!(err.block_device_error.is_some());
}

#[test]
fn mem_block_device_reads_what_it_wrote() {
    let mut dev = MemBlockDevice::new(4);

    let mut one = Block::default();
    for (i, byte) in one.contents.iter_mut().enumerate() {
        *byte = (i % 251) as u8;
    }
    let run: Vec<Block> = vec![one.clone(), one.clone()];
    dev.write(&run, BlockIndex(1)).expect("writing failed");

    let mut out: Vec<Block> = vec![Block::default(), Block::default()];
    dev.read(&mut out, BlockIndex(1)).expect("reading failed");
    assert_eq!(out[0].contents, one.contents);
    assert_eq!(out[1].contents, one.contents);

    // out of range on either side fails and names the range
    let mut over: Vec<Block> = vec![Block::default(), Block::default()];
    let err = dev.read(&mut over, BlockIndex(3)).unwrap_err();
    assert_eq!(err.operation, IoOperation::Read);
    assert_eq!(err.start_index, BlockIndex(3));
    assert_eq!(err.block_count.0, 2);
    let err = dev.write(&over, BlockIndex(5)).unwrap_err();
    assert_eq!(err.operation, IoOperation::Write);

    assert_eq!(dev.count().expect("count failed").0, 4);
}

#[test]
fn addressing_conversions_multiply_by_block_size() {
    assert_eq!(BlockIndex(0).into_offset(), 0);
    assert_eq!(BlockIndex(3).into_offset(), 1536);
    assert_eq!(BlockCount(5).into_bytes_count(), 2560);
    assert_eq!(BlockCount(5).into_size(), 2560);
    assert_eq!(BlockCount(0).into_size(), 0);
}

#[test]
fn blocks_start_zero_filled() {
    let b = Block::new();
    assert_eq!(b.contents.len(), 512);
    assert!(b.contents.iter().all(|x| *x == 0));
    let d = Block::default();
    assert_eq!(d.contents, b.contents);
    let c = b.clone();
    assert_eq!(c.contents, b.contents);
}
