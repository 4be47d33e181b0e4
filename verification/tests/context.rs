use viter::hmm::context::{all_phones, get_stub_map, ContextDependency};
use viter::tree::EventMap;

/// Two silence phones sharing nothing, three normal phones.
fn mono() -> ContextDependency {
    let sets: Vec<Vec<u32>> = vec![vec![1], vec![2], vec![3], vec![4], vec![5]];
    let npdf = |p: u32| if p <= 2 { 5 } else { 3 };
    ContextDependency::monophone_shared(&sets, &npdf)
}

#[test]
fn monophone_pdf_count_is_sum_of_pdf_classes() {
    let ctx = mono();
    // 2 silence phones * 5 + 3 phones * 3 = 19.
    assert_eq!(ctx.num_pdfs(), 19);
    assert_eq!(ctx.n, 1);
    assert_eq!(ctx.p, 0);
}

#[test]
fn monophone_pdfs_are_contiguous_per_phone() {
    let ctx = mono();
    assert_eq!(ctx.compute(&[1], 0), Some(0));
    assert_eq!(ctx.compute(&[1], 4), Some(4));
    assert_eq!(ctx.compute(&[2], 0), Some(5));
    assert_eq!(ctx.compute(&[3], 0), Some(10));
    assert_eq!(ctx.compute(&[3], 2), Some(12));
    assert_eq!(ctx.compute(&[5], 2), Some(18));
}

#[test]
fn compute_out_of_range_class_is_none() {
    let ctx = mono();
    // Phone 3 has only 3 pdf classes.
    assert_eq!(ctx.compute(&[3], 4), None);
}

#[test]
fn shared_root_gives_one_leaf_per_set() {
    let sets: Vec<Vec<u32>> = vec![vec![1, 2]];
    let mut n = 0;
    let map = get_stub_map(0, &sets, &|_: u32| 3, &[true], &mut n);
    assert_eq!(n, 1);
    assert!(matches!(map, EventMap::Constant(0)));
}

#[test]
fn get_pdf_info_inverts_compute() {
    let ctx = mono();
    let phones: Vec<u32> = vec![1, 2, 3, 4, 5];
    let npdf = |p: u32| if p <= 2 { 5 } else { 3 };
    let info = ctx.get_pdf_info(&phones, &npdf);
    assert_eq!(info.len(), 19);
    // Monophone: every pdf belongs to exactly one (phone, class).
    for (pdf, pairs) in info.iter().enumerate() {
        assert_eq!(pairs.len(), 1, "pdf {pdf} should map to one pair");
        let (phone, class) = pairs[0];
        assert_eq!(ctx.compute(&[phone], class), Some(pdf as u32));
    }
}

#[test]
fn all_phones_sorted_unique() {
    assert_eq!(all_phones(&[vec![3, 1], vec![2, 1]]), vec![1, 2, 3]);
}

#[test]
fn monophone_classes_without_a_pdf_get_none() {
    let ctx = mono();
    assert_eq!(ctx.compute(&[3], 3), None);
    assert_eq!(ctx.compute(&[6], 0), None);
    let one = ContextDependency::monophone_shared(&[vec![u32::MAX]], &|_: u32| 2);
    assert_eq!(one.compute(&[u32::MAX], 1), Some(1));
    assert_eq!(one.num_pdfs(), 2);
}
