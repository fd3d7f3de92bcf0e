use oil_dig::xor128::Xor128;

#[test]
fn xor128_first_numbers() {
    let mut g = Xor128::new();
    let expected = [1721976298, 223760806, 2063981610, 479549682, 1877824159];
    for e in expected.iter() {
        assert_eq!(g.rand(), *e);
    }
}

#[test]
fn xor128_is_deterministic_and_non_negative() {
    let mut a = Xor128::new();
    let mut b = Xor128::new();
    for _ in 0..1000 {
        let x = a.rand();
        assert_eq!(x, b.rand());
        assert!(x >= 0);
    }
}
