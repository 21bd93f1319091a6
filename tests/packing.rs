use uniform_provider::dynamic::{assign_offsets, pack};
use uniform_provider::lookup::find_key;

#[test]
fn pack_pads_each_value_to_one_alignment_unit() {
    let p = pack(&vec![vec![1, 2], vec![], vec![3; 256]]);
    assert_eq!(p.len(), 768);
    assert_eq!(&p[0..2], &[1, 2]);
    assert!(p[2..256].iter().all(|&b| b == 0));
    assert!(p[256..512].iter().all(|&b| b == 0));
    assert!(p[512..768].iter().all(|&b| b == 3));
}

#[test]
fn offsets_follow_registration_order() {
    assert_eq!(assign_offsets(&vec![9, 4, 7]), vec![(9, 0), (4, 256), (7, 512)]);
    assert!(assign_offsets(&vec![]).is_empty());
}

#[test]
fn find_key_returns_first_match() {
    let v = vec![(1u64, 'a'), (2, 'b'), (2, 'c')];
    assert_eq!(find_key(&v, 2), Some(1));
    assert_eq!(find_key(&v, 3), None);
}
