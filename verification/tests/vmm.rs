use kernel_core::vmm::{MapError, PageTableEntry, Vmm, PAGE_PRESENT, PAGE_WRITABLE};

#[test]
fn map_before_init_is_refused() {
    let mut vmm = Vmm::new(8, 0xFFFF_FFFF_FFFF_FFFF);
    assert_eq!(vmm.pml4_phys_addr(), 0);
    assert_eq!(vmm.map(0x1000, 0x2000, 0), Err(MapError::NotInitialised));
    assert_eq!(vmm.translate(0x1000), None);
}

#[test]
fn init_makes_the_top_table_once() {
    let mut vmm = Vmm::new(8, 0xFFFF_FFFF_FFFF_FFFF);
    assert_eq!(vmm.init(), Ok(()));
    assert_eq!(vmm.pml4_phys_addr(), 4096);
    assert_eq!(vmm.init(), Ok(()));
    assert_eq!(vmm.pml4_phys_addr(), 4096);
    assert_eq!(vmm.translate(0), None);
    assert_eq!(vmm.translate(0xFFFF_8000_0000_0000), None);
}

#[test]
fn init_without_memory_fails() {
    let mut vmm = Vmm::new(0, 0);
    assert_eq!(vmm.init(), Err(MapError::NoMemory));
    assert_eq!(vmm.pml4_phys_addr(), 0);
}

#[test]
fn map_then_translate() {
    let mut vmm = Vmm::new(16, 0xFFFF_FFFF_FFFF_FFFF);
    assert_eq!(vmm.init(), Ok(()));
    assert_eq!(vmm.map(0x40_0000, 0x1234_5000, PAGE_WRITABLE), Ok(()));
    let entry = vmm.translate(0x40_0000).unwrap();
    assert_eq!(entry, PageTableEntry(0x1234_5000 | PAGE_WRITABLE | PAGE_PRESENT));
    assert!(entry.is_present());
    assert_eq!(entry.address(), 0x1234_5000);
    assert_eq!(vmm.translate(0x40_0FFF), Some(entry));
    assert_eq!(vmm.translate(0x40_1000), None);
    assert_eq!(vmm.map(0x40_0000, 0x9999_9000, 0), Err(MapError::AlreadyMapped));
    assert_eq!(vmm.translate(0x40_0000), Some(entry));
    assert_eq!(vmm.map(0x40_1000, 0x9999_9000, 0), Ok(()));
    assert_eq!(vmm.translate(0x40_1000), Some(PageTableEntry(0x9999_9000 | PAGE_PRESENT)));
    assert_eq!(vmm.translate(0x40_0000), Some(entry));
}

#[test]
fn map_runs_out_of_tables() {
    let mut vmm = Vmm::new(3, 0);
    assert_eq!(vmm.init(), Ok(()));
    assert_eq!(vmm.map(0x1000, 0x5000, 0), Err(MapError::NoMemory));
    assert_eq!(vmm.translate(0x1000), None);
    let mut vmm = Vmm::new(4, 0);
    assert_eq!(vmm.init(), Ok(()));
    assert_eq!(vmm.map(0x1000, 0x5000, 0), Ok(()));
    assert_eq!(vmm.map(0x2000, 0x6000, 0), Ok(()));
    assert_eq!(vmm.map(0x8000_0000_0000, 0x6000, 0), Err(MapError::NoMemory));
}

#[test]
fn error_codes_are_distinct_and_negative() {
    assert_eq!(MapError::NoMemory.code(), -1);
    assert_eq!(MapError::NotInitialised.code(), -2);
    assert_eq!(MapError::AlreadyMapped.code(), -3);
}

#[test]
fn entry_keeps_address_and_flags_apart() {
    let mut e = PageTableEntry(0);
    assert!(!e.is_present());
    e.set_address(0xABCD_E123);
    assert_eq!(e.address(), 0xABCD_E000);
    e.set_flags(PAGE_PRESENT | PAGE_WRITABLE);
    assert_eq!(e, PageTableEntry(0xABCD_E003));
    assert!(e.is_present());
    e.set_address(0x7000);
    assert_eq!(e, PageTableEntry(0x7003));
    assert_eq!(Vmm::index_of(0x0000_7FC0_2030_4000, 0), 0xFF);
    assert_eq!(Vmm::index_of(0x40_1000, 3), 1);
    assert_eq!(Vmm::index_of(0x40_1000, 2), 2);
}
