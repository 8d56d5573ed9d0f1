use scope_map::rnn_data_layout::RnnDataLayout;

#[test]
fn layouts_are_distinct_and_copyable() {
    let a = RnnDataLayout::SeqMajorUnpacked;
    let b = RnnDataLayout::SeqMajorPacked;
    let c = RnnDataLayout::BatchMajorUnpacked;
    assert_ne!(a, b);
    assert_ne!(b, c);
    assert_ne!(a, c);
    let d = a;
    assert_eq!(a, d);
}
