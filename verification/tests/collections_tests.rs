use aris::collections::sort_desc_by_key;

#[test]
fn sort_is_descending_and_stable() {
    let v = vec![(1u64, 10u32), (3, 11), (1, 12), (3, 13), (2, 14)];
    assert_eq!(sort_desc_by_key(&v), vec![(3, 11), (3, 13), (2, 14), (1, 10), (1, 12)]);
}
