use osconcepts::disks::bits::BitVec;
use osconcepts::disks::{RawStoragePtr, SecondaryStorage, StorageDevice};

#[test]
pub fn simple_bitvec() {
    for i in 0..u8::MAX {
        let bv = BitVec::from(i);
        let bv: u8 = bv.into();
        assert_eq!(bv, i);
    }
}

#[test]
pub fn simple_bitvec_parity() {
    assert_eq!(BitVec::from(3 as u8).parity(), false);
    assert_eq!(BitVec::from(1 as u8).parity(), true);
}

#[test]
pub fn test_storage() {
    let mut disk = SecondaryStorage::new(8096);

    let addr = disk.store(&[1, 2, 3]);
    assert_eq!(disk.read(addr, 3), [1, 2, 3]);
    disk.write(addr, &[3, 4]);
    assert_eq!(disk.read(addr, 3), [3, 4, 3]);
}

#[test]
pub fn test_storage_bit() {
    let mut disk = SecondaryStorage::new(8096);
    disk.write_bit(RawStoragePtr::bit_ptr(3), true);
    assert!(disk.read_bit(RawStoragePtr::bit_ptr(3)));
    disk.write_bit(RawStoragePtr::bit_ptr(2), true);
    assert!(disk.read_bit(RawStoragePtr::bit_ptr(3)));
    disk.write_bit(RawStoragePtr::bit_ptr(3), false);
    assert!(!disk.read_bit(RawStoragePtr::bit_ptr(3)));
    assert!(disk.read_bit(RawStoragePtr::bit_ptr(2)));
}

#[test]
pub fn test_storage_offset_and_ptrs() {
    let mut disk = SecondaryStorage::new(64);
    assert_eq!(disk.get_offset(), 0);
    let first = disk.store(&[9, 8]);
    assert_eq!(first.byte_offset, 0);
    assert_eq!(disk.get_offset(), 2);
    let second = disk.store(&[7]);
    assert_eq!(second.byte_offset, 2);
    assert_eq!(disk.read(second, 1), [7]);

    let p = RawStoragePtr::bit_ptr(11);
    assert_eq!(p.byte_offset, 1);
    assert_eq!(p.bit_offset, 3);
    let q = RawStoragePtr::byte_ptr(5);
    assert_eq!(q.byte_offset, 5);
    assert_eq!(q.bit_offset, 0);
}
