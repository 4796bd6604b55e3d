use toryn::bezier::{binomial, PascalTable};

#[test]
fn small_binomial_values() {
    let mut table = PascalTable::new();
    assert_eq!(table.get(0, 0), 1);
    assert_eq!(table.get(4, 2), 6);
    assert_eq!(table.get(6, 3), 20);
    assert_eq!(table.get(5, 1), 5);
}

#[test]
fn binomial_grows_beyond_precomputed_rows() {
    let mut table = PascalTable::new();
    assert_eq!(table.get(10, 5), 252);
    assert_eq!(table.get(20, 10), 184756);
    assert_eq!(table.get(31, 15), 300540195);
}

#[test]
fn binomial_symmetry_up_to_twenty() {
    let mut table = PascalTable::new();
    for n in 0..=20usize {
        for k in 0..=n {
            let a = table.get(n, k);
            let b = table.get(n, n - k);
            assert_eq!(a, b, "C({}, {}) != C({}, {})", n, k, n, n - k);
        }
        assert_eq!(table.get(n, 0), 1);
        assert_eq!(table.get(n, n), 1);
    }
}

#[test]
fn lookups_after_growth_are_stable() {
    let mut table = PascalTable::new();
    let big = table.get(18, 9);
    assert_eq!(table.get(3, 2), 3);
    assert_eq!(table.get(18, 9), big);
    assert_eq!(big, 48620);
}

#[test]
fn binomial_helper_uses_the_cache() {
    let mut table = PascalTable::new();
    assert_eq!(binomial(&mut table, 7, 3), 35);
    assert_eq!(binomial(&mut table, 12, 6), 924);
    assert_eq!(binomial(&mut table, 12, 0), 1);
}
