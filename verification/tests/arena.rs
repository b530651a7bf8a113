use limb_modpow::mem::{Region, TmpAllocator};

#[test]
fn allocate_hands_out_zeroed_regions_in_sequence() {
    let mut tmp = TmpAllocator::new();
    let first = tmp.allocate(3);
    let second = tmp.allocate(0);
    let third = tmp.allocate(2);
    assert_eq!((first.start, first.len), (0, 3));
    assert_eq!((second.start, second.len), (3, 0));
    assert_eq!((third.start, third.len), (3, 2));
    assert_eq!(tmp.slice(first).to_vec(), vec![0, 0, 0]);
    assert_eq!(tmp.slice(second).to_vec(), Vec::<u64>::new());
    assert_eq!(tmp.slice(third).to_vec(), vec![0, 0]);
}

#[test]
fn store_changes_one_region_only() {
    let mut tmp = TmpAllocator::new();
    let first = tmp.allocate(2);
    let second = tmp.allocate(2);
    tmp.store(first, &[1, 2]);
    tmp.store(second, &[3, 4]);
    assert_eq!(tmp.slice(first).to_vec(), vec![1, 2]);
    assert_eq!(tmp.slice(second).to_vec(), vec![3, 4]);
    tmp.store(first, &[5, 6]);
    assert_eq!(tmp.slice(second).to_vec(), vec![3, 4]);
    assert_eq!(tmp.slice(first).to_vec(), vec![5, 6]);
    let later = tmp.allocate(1);
    assert_eq!(tmp.slice(first).to_vec(), vec![5, 6]);
    assert_eq!(tmp.slice(later).to_vec(), vec![0]);
}

#[test]
fn a_region_inside_another_reads_its_part() {
    let mut tmp = TmpAllocator::new();
    let whole = tmp.allocate(4);
    tmp.store(whole, &[10, 20, 30, 40]);
    let part = Region { start: 1, len: 2 };
    assert_eq!(tmp.slice(part).to_vec(), vec![20, 30]);
}
