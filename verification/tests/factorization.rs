use range_fold::FastFactrzation;

#[test]
fn lib_test_hand() {
    let a = FastFactrzation::new(300);
    assert_eq!(a.factorize(1), Vec::<u32>::new());
    assert_eq!(a.factorize(2), vec![2]);
    assert_eq!(a.factorize(3), vec![3]);
    assert_eq!(a.factorize(4), vec![2, 2]);
    assert_eq!(a.factorize(5), vec![5]);
    assert_eq!(a.factorize(6), vec![3, 2]);
    assert_eq!(a.factorize(7), vec![7]);
    assert_eq!(a.factorize(8), vec![2, 2, 2]);
    assert_eq!(a.factorize(9), vec![3, 3]);
    assert_eq!(a.factorize(10), vec![5, 2]);
    assert_eq!(a.factorize(11), vec![11]);
    assert_eq!(a.factorize(12), vec![3, 2, 2]);
}

#[test]
fn factorize_products_recover_the_input() {
    let a = FastFactrzation::new(1000);
    for x in 1u32..1000 {
        let factors = a.factorize(x);
        let mut back: u32 = 1;
        for f in &factors {
            // Every factor is a prime.
            assert!(*f >= 2);
            for q in 2..*f {
                assert!(f % q != 0, "{} divides {}", q, f);
            }
            back *= f;
        }
        assert_eq!(back, x);
    }
}
