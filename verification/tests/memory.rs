use rcore_os::mm::{MemorySet, PAGE_SIZE};

#[test]
fn map_then_unmap_restores() {
    let mut ms = MemorySet::new_bare();
    assert_eq!(ms.map_dynamic(0x1000, 0x3000, 2), 0);
    assert!(ms.is_mapped(1));
    assert!(ms.is_mapped(2));
    assert!(!ms.is_mapped(3));
    assert_eq!(ms.unmap_dynamic(0x1000, 0x3000), 0);
    assert!(!ms.is_mapped(1));
    assert!(!ms.is_mapped(2));
}

#[test]
fn mapping_twice_fails() {
    let mut ms = MemorySet::new_bare();
    assert_eq!(ms.map_dynamic(0, 2 * PAGE_SIZE, 2), 0);
    assert_eq!(ms.map_dynamic(PAGE_SIZE, 3 * PAGE_SIZE, 2), -1);
    assert!(!ms.is_mapped(2));
    assert_eq!(ms.map_dynamic(2 * PAGE_SIZE, 3 * PAGE_SIZE, 2), 0);
    assert!(ms.is_mapped(2));
}

#[test]
fn end_rounds_up_to_whole_page() {
    let mut ms = MemorySet::new_bare();
    assert_eq!(ms.map_dynamic(0x5000, 0x5001, 6), 0);
    assert!(ms.is_mapped(5));
    assert!(!ms.is_mapped(6));
    assert_eq!(ms.map_dynamic(0x5000, 0x5000, 6), 0);
}

#[test]
fn unmapping_unmapped_fails() {
    let mut ms = MemorySet::new_bare();
    assert_eq!(ms.unmap_dynamic(0, PAGE_SIZE), -1);
    assert_eq!(ms.map_dynamic(0, PAGE_SIZE, 2), 0);
    assert_eq!(ms.unmap_dynamic(0, 2 * PAGE_SIZE), -1);
    assert!(ms.is_mapped(0));
}

#[test]
fn copy_and_recycle() {
    let mut ms = MemorySet::new_bare();
    ms.map_dynamic(0, 4 * PAGE_SIZE, 2);
    let copy = MemorySet::from_existed_user(&ms);
    assert!(copy.is_mapped(3));
    ms.recycle_data_pages();
    assert!(!ms.is_mapped(0));
    assert!(copy.is_mapped(0));
}
