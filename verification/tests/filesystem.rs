use osconcepts::filesystem::indexed;
use osconcepts::filesystem::linked;

#[test]
pub fn test_indexed_allocation() {
    let mut alloc = indexed::IndexedAllocator::new(25);

    let mut directory = indexed::Directory::new();
    directory.open_file("josh".to_string(), &mut alloc, &[1, 2, 3]);
    directory.open_file("josh2".to_string(), &mut alloc, &[0, 3, 6, 9]);

    assert_eq!(directory.read_file("josh", &alloc), [1, 2, 3]);
    assert_eq!(directory.read_file("josh2", &alloc), [0, 3, 6, 9]);

    directory.delete_file("josh", &mut alloc);
}

#[test]
pub fn test_linked_allocation() {
    let mut alloc = linked::LinkedAllocator::new(25);

    let mut directory = linked::Directory::new();
    directory.open_file("josh".to_string(), &mut alloc, &[1, 2, 3]);
    directory.open_file("josh2".to_string(), &mut alloc, &[0, 3, 6, 9]);

    assert_eq!(directory.read_file("josh", &alloc), [1, 2, 3]);
    assert_eq!(directory.read_file("josh2", &alloc), [0, 3, 6, 9]);
}

#[test]
pub fn test_indexed_delete_and_reuse() {
    let mut alloc = indexed::IndexedAllocator::new(3);

    let mut directory = indexed::Directory::new();
    directory.open_file("a".to_string(), &mut alloc, &[1, 2, 3, 4, 5]);
    assert_eq!(directory.read_file("a", &alloc), [1, 2, 3, 4, 5]);
    directory.delete_file("a", &mut alloc);
    directory.open_file("b".to_string(), &mut alloc, &[6, 7, 8, 9]);
    assert_eq!(directory.read_file("b", &alloc), [6, 7, 8, 9]);
}

#[test]
pub fn test_linked_empty_file() {
    let mut alloc = linked::LinkedAllocator::new(4);

    let mut directory = linked::Directory::new();
    directory.open_file("nothing".to_string(), &mut alloc, &[]);
    assert_eq!(directory.read_file("nothing", &alloc), Vec::<u8>::new());
}

#[test]
pub fn test_linked_overwrite_name() {
    let mut alloc = linked::LinkedAllocator::new(8);

    let mut directory = linked::Directory::new();
    directory.open_file("f".to_string(), &mut alloc, &[1, 1]);
    directory.open_file("f".to_string(), &mut alloc, &[2, 2, 2]);
    assert_eq!(directory.read_file("f", &alloc), [2, 2, 2]);
}
