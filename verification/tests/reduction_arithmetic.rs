use electro_solve::rational::Complex;
use electro_solve::rational::Rational;
use electro_solve::units::combine_parallel;
use electro_solve::units::combine_parallel_many;
use electro_solve::units::combine_series;
use electro_solve::units::combine_series_many;
use electro_solve::units::ImpedanceResult;

fn fin(re_num: i64, re_den: i64, im_num: i64, im_den: i64) -> ImpedanceResult {
    ImpedanceResult::Finite(Complex::new(
        Rational { num: re_num, den: re_den },
        Rational { num: im_num, den: im_den },
    ))
}

fn pure_res(re: i64) -> ImpedanceResult {
    fin(re, 1, 0, 1)
}

#[test]
fn parallel_open_consistency() {
    let result = combine_parallel(ImpedanceResult::Open, ImpedanceResult::Open).unwrap();
    assert!(matches!(result, ImpedanceResult::Open));
}

#[test]
fn series_short_consistency() {
    let result = combine_series(ImpedanceResult::Short, ImpedanceResult::Short).unwrap();
    assert!(matches!(result, ImpedanceResult::Short));
}

#[test]
fn parallel_many_all_open() {
    let impedances = vec![ImpedanceResult::Open; 5];
    let result = combine_parallel_many(&impedances).unwrap();
    assert!(matches!(result, ImpedanceResult::Open));
}

#[test]
fn series_many_all_short() {
    let impedances = vec![ImpedanceResult::Short; 5];
    let result = combine_series_many(&impedances).unwrap();
    assert!(matches!(result, ImpedanceResult::Short));
}

#[test]
fn series_commutative_concrete() {
    let a = fin(3, 2, -5, 7);
    let b = fin(11, 4, 1, 3);
    let left = combine_series(a, b).unwrap();
    let right = combine_series(b, a).unwrap();
    assert_eq!(left, right);
}

#[test]
fn parallel_commutative_concrete() {
    let a = fin(100, 1, 50, 1);
    let b = fin(200, 1, -25, 1);
    let left = combine_parallel(a, b).unwrap();
    let right = combine_parallel(b, a).unwrap();
    assert_eq!(left, right);
}

#[test]
fn series_associative_concrete() {
    let a = fin(1, 3, 2, 5);
    let b = fin(7, 2, -1, 4);
    let c = fin(5, 6, 3, 7);
    let left = combine_series(combine_series(a, b).unwrap(), c).unwrap();
    let right = combine_series(a, combine_series(b, c).unwrap()).unwrap();
    // lowest-terms results of equal values are identical
    assert_eq!(left, right);
}

#[test]
fn parallel_associative_concrete() {
    let a = pure_res(100);
    let b = pure_res(200);
    let c = pure_res(300);
    let left = combine_parallel(combine_parallel(a, b).unwrap(), c).unwrap();
    let right = combine_parallel(a, combine_parallel(b, c).unwrap()).unwrap();
    assert_eq!(left, right);
}

#[test]
fn series_identity_and_annihilator() {
    let z = fin(42, 1, -7, 2);
    assert_eq!(combine_series(z, ImpedanceResult::Short).unwrap(), z);
    assert_eq!(combine_series(ImpedanceResult::Short, z).unwrap(), z);
    assert!(matches!(
        combine_series(z, ImpedanceResult::Open).unwrap(),
        ImpedanceResult::Open
    ));
    assert!(matches!(
        combine_series(ImpedanceResult::Open, z).unwrap(),
        ImpedanceResult::Open
    ));
}

#[test]
fn parallel_identity_and_annihilator() {
    let z = fin(42, 1, -7, 2);
    assert_eq!(combine_parallel(z, ImpedanceResult::Open).unwrap(), z);
    assert_eq!(combine_parallel(ImpedanceResult::Open, z).unwrap(), z);
    assert!(matches!(
        combine_parallel(z, ImpedanceResult::Short).unwrap(),
        ImpedanceResult::Short
    ));
    assert!(matches!(
        combine_parallel(ImpedanceResult::Short, z).unwrap(),
        ImpedanceResult::Short
    ));
}

#[test]
fn series_many_mixed_sums_finites() {
    // Shorts are dropped, finite values add
    let xs = vec![pure_res(100), ImpedanceResult::Short, pure_res(200), ImpedanceResult::Short];
    assert_eq!(combine_series_many(&xs).unwrap(), pure_res(300));
}

#[test]
fn series_many_open_dominates() {
    let xs = vec![pure_res(100), ImpedanceResult::Open, pure_res(200)];
    assert!(matches!(
        combine_series_many(&xs).unwrap(),
        ImpedanceResult::Open
    ));
}

#[test]
fn parallel_many_short_dominates() {
    let xs = vec![pure_res(100), ImpedanceResult::Short, pure_res(200)];
    assert!(matches!(
        combine_parallel_many(&xs).unwrap(),
        ImpedanceResult::Short
    ));
}

#[test]
fn parallel_many_two_resistors() {
    // 100 || 100 = 50
    let xs = vec![pure_res(100), pure_res(100)];
    assert_eq!(combine_parallel_many(&xs).unwrap(), pure_res(50));
}

#[test]
fn parallel_finite_zero_is_short() {
    // an explicit finite zero in parallel with anything is a short
    let r = combine_parallel(pure_res(0), pure_res(10)).unwrap();
    assert!(matches!(r, ImpedanceResult::Short));
}

#[test]
fn parallel_resonance_is_open() {
    // admittances of +j and -j cancel exactly
    let l = fin(0, 1, 1, 1);
    let c = fin(0, 1, -1, 1);
    let r = combine_parallel(l, c).unwrap();
    assert!(matches!(r, ImpedanceResult::Open));
}
