//! Reads and writes through the adapter against content-addressed devices,
//! on the one-operation middle path and on the per-block fallback path.

use storage_device::block::Block;
use storage_device::block_device::{BlockDevice, BlockIndex};
use storage_device::mem_block_device::MemBlockDevice;
use storage_device::storage_device::{StorageBlockDevice, StorageDevice};

/// A device whose every block holds, in each byte, that byte's index in the
/// block: device byte `p` holds `p as u8` (overflows once per block).
fn byte_indexed_device(block_count: usize) -> MemBlockDevice {
    let mut dev = MemBlockDevice::new(block_count);
    let mut pattern: Vec<Block> = Vec::new();
    for _ in 0..block_count {
        let mut b = Block::default();
        for (j, byte) in b.contents.iter_mut().enumerate() {
            *byte = j as u8;
        }
        pattern.push(b);
    }
    dev.write(&pattern, BlockIndex(0)).expect("filling the device failed");
    dev
}

/// A device whose block `i` holds `i as u8` in every byte.
fn block_indexed_device(block_count: usize) -> MemBlockDevice {
    let mut dev = MemBlockDevice::new(block_count);
    let mut pattern: Vec<Block> = Vec::new();
    for i in 0..block_count {
        let mut b = Block::default();
        for byte in b.contents.iter_mut() {
            *byte = i as u8;
        }
        pattern.push(b);
    }
    dev.write(&pattern, BlockIndex(0)).expect("filling the device failed");
    dev
}

/// Reads `len` bytes at `offset` and checks the byte-indexed pattern there.
fn assert_byte_indexed(storage_dev: &mut StorageBlockDevice<MemBlockDevice>, offset: u64, len: usize) {
    let mut check: Vec<u8> = vec![0; len];
    storage_dev.read(offset, &mut check).expect("reading failed");
    for (index, byte) in check.iter().enumerate() {
        assert_eq!(*byte, (index as u64 + offset) as u8);
    }
}

/// Reads `len` bytes at `offset` and checks the block-indexed pattern there.
fn assert_block_indexed(storage_dev: &mut StorageBlockDevice<MemBlockDevice>, offset: u64, len: usize) {
    let mut check: Vec<u8> = vec![0; len];
    storage_dev.read(offset, &mut check).expect("reading failed");
    for (index, byte) in check.iter().enumerate() {
        assert_eq!(*byte, ((index as u64 + offset) / 512) as u8);
    }
}

#[test]
fn check_dbg_block_device_aligned() {
    let mut storage_dev = StorageBlockDevice::new(byte_indexed_device(16));
    let mut aligned_buf: Vec<u8> = vec![0x55; 4096];

    {
        StorageDevice::read(&mut storage_dev, 0, &mut aligned_buf).expect("reading failed");

        for (index, byte) in aligned_buf.iter().enumerate() {
            assert_eq!(
                *byte, index as u8,
                "failed checking block content. Index: {:02x}, Your buffer:\n{:02x?}",
                index, &aligned_buf
            );
        }

        // writing back should also work, and leave the device as it was
        StorageDevice::write(&mut storage_dev, 0, &aligned_buf).expect("writing failed");
        assert_byte_indexed(&mut storage_dev, 0, 4096);
    }

    let mut storage_dev = StorageBlockDevice::new(block_indexed_device(16));
    {
        StorageDevice::read(&mut storage_dev, 0, &mut aligned_buf).expect("reading failed");

        // writing back to check: the device must hold the pattern unchanged
        StorageDevice::write(&mut storage_dev, 0, &aligned_buf).expect("writing failed");
        assert_block_indexed(&mut storage_dev, 0, 4096);
    }
}

#[test]
fn check_dbg_block_device_misaligned() {
    let mut storage_dev = StorageBlockDevice::new(byte_indexed_device(16));
    let mut misaligned_buf: Vec<u8> = vec![0x55; 4095];

    {
        storage_dev
            .read_internal(0, &mut misaligned_buf, false)
            .expect("reading failed");

        for (index, byte) in misaligned_buf.iter().enumerate() {
            assert_eq!(
                *byte, index as u8,
                "failed checking block content. Index: {:02x}, Your buffer:\n{:02x?}",
                index, &misaligned_buf
            );
        }

        // writing back should also work, and leave the device as it was
        storage_dev
            .write_internal(0, &misaligned_buf, false)
            .expect("writing failed");
        assert_byte_indexed(&mut storage_dev, 0, 4095);
    }
    let mut storage_dev = StorageBlockDevice::new(block_indexed_device(16));
    {
        storage_dev
            .read_internal(0, &mut misaligned_buf, false)
            .expect("reading failed");

        // writing back to check: the device must hold the pattern unchanged
        storage_dev
            .write_internal(0, &misaligned_buf, false)
            .expect("writing failed");
        assert_block_indexed(&mut storage_dev, 0, 4095);
    }
}

#[test]
fn check_dbg_block_device_aligned_offset_8() {
    let mut storage_dev = StorageBlockDevice::new(byte_indexed_device(16));
    let mut aligned_buf: Vec<u8> = vec![0x55; 4096];

    {
        StorageDevice::read(&mut storage_dev, 8, &mut aligned_buf).expect("reading failed");

        for (index, byte) in aligned_buf.iter().enumerate() {
            assert_eq!(
                *byte,
                (index + 8) as u8,
                "failed checking block content. Index: {:02x}, Your buffer:\n{:02x?}",
                index,
                &aligned_buf
            );
        }

        // writing back should also work, and leave the device as it was
        StorageDevice::write(&mut storage_dev, 8, &aligned_buf).expect("writing failed");
        assert_byte_indexed(&mut storage_dev, 8, 4096);
    }
    let mut storage_dev = StorageBlockDevice::new(block_indexed_device(16));
    {
        StorageDevice::read(&mut storage_dev, 8, &mut aligned_buf).expect("reading failed");

        // writing back to check: the device must hold the pattern unchanged
        StorageDevice::write(&mut storage_dev, 8, &aligned_buf).expect("writing failed");
        assert_block_indexed(&mut storage_dev, 8, 4096);
    }
}

#[test]
fn check_dbg_block_device_misaligned_offset_8() {
    let mut storage_dev = StorageBlockDevice::new(byte_indexed_device(16));
    let mut misaligned_buf: Vec<u8> = vec![0x55; 4095];

    {
        storage_dev
            .read_internal(8, &mut misaligned_buf, false)
            .expect("reading failed");

        for (index, byte) in misaligned_buf.iter().enumerate() {
            assert_eq!(
                *byte,
                (index + 8) as u8,
                "failed checking block content. Index: {:02x}, Your buffer:\n{:02x?}",
                index,
                &misaligned_buf
            );
        }

        // writing back should also work, and leave the device as it was
        storage_dev
            .write_internal(8, &misaligned_buf, false)
            .expect("writing failed");
        assert_byte_indexed(&mut storage_dev, 8, 4095);
    }
    let mut storage_dev = StorageBlockDevice::new(block_indexed_device(16));
    {
        storage_dev
            .read_internal(8, &mut misaligned_buf, false)
            .expect("reading failed");

        // writing back to check: the device must hold the pattern unchanged
        storage_dev
            .write_internal(8, &misaligned_buf, false)
            .expect("writing failed");
        assert_block_indexed(&mut storage_dev, 8, 4095);
    }
}

#[test]
fn check_dbg_block_device_aligned_offset_7() {
    let mut storage_dev = StorageBlockDevice::new(byte_indexed_device(16));
    let mut aligned_buf: Vec<u8> = vec![0x55; 4096];

    {
        StorageDevice::read(&mut storage_dev, 7, &mut aligned_buf).expect("reading failed");

        for (index, byte) in aligned_buf.iter().enumerate() {
            assert_eq!(
                *byte,
                (index + 7) as u8,
                "failed checking block content. Index: {:02x}, Your buffer:\n{:02x?}",
                index,
                &aligned_buf
            );
        }

        // writing back should also work, and leave the device as it was
        StorageDevice::write(&mut storage_dev, 7, &aligned_buf).expect("writing failed");
        assert_byte_indexed(&mut storage_dev, 7, 4096);
    }
    let mut storage_dev = StorageBlockDevice::new(block_indexed_device(16));
    {
        StorageDevice::read(&mut storage_dev, 7, &mut aligned_buf).expect("reading failed");

        // writing back to check: the device must hold the pattern unchanged
        StorageDevice::write(&mut storage_dev, 7, &aligned_buf).expect("writing failed");
        assert_block_indexed(&mut storage_dev, 7, 4096);
    }
}

#[test]
fn check_dbg_block_device_misaligned_offset_7() {
    let mut storage_dev = StorageBlockDevice::new(byte_indexed_device(16));
    let mut misaligned_buf: Vec<u8> = vec![0x55; 4095];

    {
        storage_dev
            .read_internal(7, &mut misaligned_buf, false)
            .expect("reading failed");

        for (index, byte) in misaligned_buf.iter().enumerate() {
            assert_eq!(
                *byte,
                (index + 7) as u8,
                "failed checking block content. Index: {:02x}, Your buffer:\n{:02x?}",
                index,
                &misaligned_buf
            );
        }

        // writing back should also work, and leave the device as it was
        storage_dev
            .write_internal(7, &misaligned_buf, false)
            .expect("writing failed");
        assert_byte_indexed(&mut storage_dev, 7, 4095);
    }
    let mut storage_dev = StorageBlockDevice::new(block_indexed_device(16));
    {
        storage_dev
            .read_internal(7, &mut misaligned_buf, false)
            .expect("reading failed");

        // writing back to check: the device must hold the pattern unchanged
        storage_dev
            .write_internal(7, &misaligned_buf, false)
            .expect("writing failed");
        assert_block_indexed(&mut storage_dev, 7, 4095);
    }
}
