use buffoon::take::Take;

#[test]
fn take_reads_are_clamped_to_the_limit() {
    let mut t = Take::new(vec![1, 2, 3, 4, 5], 3);
    assert_eq!(t.limit(), 3);
    assert_eq!(t.read(2), vec![1, 2]);
    assert_eq!(t.limit(), 1);
    assert_eq!(t.read(10), vec![3]);
    assert_eq!(t.limit(), 0);
    assert_eq!(t.read(10), Vec::<u8>::new());
    assert_eq!(t.read_byte(), None);
}

#[test]
fn take_set_limit_restores_the_budget() {
    let mut t = Take::new(vec![1, 2, 3], 0);
    assert_eq!(t.read_byte(), None);
    t.set_limit(10);
    assert_eq!(t.read_byte(), Some(1));
    assert_eq!(t.available_len(), 2);
    assert_eq!(t.remaining(), 2);
    t.skip_bytes(1);
    assert_eq!(t.read(5), vec![3]);
    assert_eq!(t.limit(), 7);
}

#[test]
fn take_source_end_comes_before_the_limit() {
    let mut t = Take::new(vec![9], 5);
    assert_eq!(t.available_len(), 1);
    assert_eq!(t.read(4), vec![9]);
    assert_eq!(t.limit(), 4);
    assert_eq!(t.read_byte(), None);
}
