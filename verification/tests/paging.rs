use osconcepts::memory::paging::local::LogicalAddress;
use osconcepts::memory::paging::PageAllocator;

#[test]
pub fn test_page_alloc() {
    // initialize a page allocator
    let mut alloc = PageAllocator::new(1);
    let acquired = alloc.acquire();

    // Now we have a page we can mess with.
    alloc.write(acquired, 0, 34);
    assert_eq!(alloc.read(acquired, 0), 34);

    // let us release it.
    alloc.release(acquired);

    // acquire the page again, should be zeroed
    let again = alloc.acquire();
    assert_eq!(alloc.read(again, 0), 0);
}

#[test]
pub fn test_logical_address() {
    // Splitting an address and patching the real root back in restores
    // the original address.
    let address: usize = 0x0000_1234_5678_9abc;
    let (root, log) = LogicalAddress::create(address);

    assert_eq!(root, 0x9abc);
    assert_eq!(log.logical_root() as usize, log.0 & 0xffff);
    assert_eq!(log.translate(root), address);
}
