use mesh_analysis::slot::ResultSlot;

#[test]
fn new_slot_is_empty() {
    let s: ResultSlot<u32> = ResultSlot::new();
    assert_eq!(s.poll(), None);
    assert!(!s.is_ready());
}

#[test]
fn first_result_stays() {
    let mut s = ResultSlot::new();
    assert!(s.fill(5usize));
    assert_eq!(s.poll(), Some(&5));
    assert!(!s.fill(9));
    assert_eq!(s.poll(), Some(&5));
    assert_eq!(s.poll(), Some(&5));
    assert!(s.is_ready());
}
