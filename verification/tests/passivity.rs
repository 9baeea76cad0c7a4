use electro_solve::rational::Complex;
use electro_solve::rational::Rational;
use electro_solve::units::combine_parallel;
use electro_solve::units::combine_parallel_many;
use electro_solve::units::combine_series;
use electro_solve::units::combine_series_many;
use electro_solve::units::ImpedanceResult;

fn is_passive_impedance_result(z: &ImpedanceResult) -> bool {
    match z {
        ImpedanceResult::Finite(z_val) => z_val.re.is_nonneg(),
        ImpedanceResult::Short => true,
        ImpedanceResult::Open => true,
    }
}

fn fin(re_num: i64, re_den: i64, im_num: i64, im_den: i64) -> ImpedanceResult {
    ImpedanceResult::Finite(Complex::new(
        Rational { num: re_num, den: re_den },
        Rational { num: im_num, den: im_den },
    ))
}

#[test]
fn test_short_is_passive() {
    let z = ImpedanceResult::Short;
    assert!(is_passive_impedance_result(&z), "Short should be passive");
}

#[test]
fn test_open_is_passive() {
    let z = ImpedanceResult::Open;
    assert!(is_passive_impedance_result(&z), "Open should be passive");
}

#[test]
fn passivity_test_short_is_passive() {
    let z = ImpedanceResult::Short;
    assert!(is_passive_impedance_result(&z), "Short should be passive");
}

#[test]
fn passivity_test_open_is_passive() {
    let z = ImpedanceResult::Open;
    assert!(is_passive_impedance_result(&z), "Open should be passive");
}

#[test]
fn series_of_passives_is_passive() {
    let a = fin(100, 1, -5000, 1);
    let b = fin(3, 7, 4000, 3);
    let r = combine_series(a, b).unwrap();
    assert!(is_passive_impedance_result(&r));
}

#[test]
fn parallel_of_passives_is_passive() {
    let a = fin(3, 1, -4, 1);
    let b = fin(2, 1, 5, 1);
    let r = combine_parallel(a, b).unwrap();
    assert!(is_passive_impedance_result(&r));
}

#[test]
fn series_many_of_passives_is_passive() {
    let xs = vec![
        fin(1, 2, -3, 4),
        ImpedanceResult::Short,
        fin(0, 1, 7, 1),
        ImpedanceResult::Open,
    ];
    let r = combine_series_many(&xs).unwrap();
    assert!(is_passive_impedance_result(&r));
}

#[test]
fn parallel_many_of_passives_is_passive() {
    let xs = vec![fin(1, 2, -3, 4), fin(0, 1, 7, 1), ImpedanceResult::Open];
    let r = combine_parallel_many(&xs).unwrap();
    assert!(is_passive_impedance_result(&r));
}
