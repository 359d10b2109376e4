use mandelbrot::shade::{shade, Shade};

#[test]
fn whole_budget_is_in_set() {
    assert_eq!(shade(100, 100), Shade::InSet);
    assert_eq!(shade(20, 20), Shade::InSet);
    assert_eq!(shade(1, 1), Shade::InSet);
    assert_eq!(shade(0, 0), Shade::InSet);
    assert_eq!(shade(u32::MAX, u32::MAX), Shade::InSet);
}

#[test]
fn diverged_point_gets_its_hue() {
    assert_eq!(shade(0, 100), Shade::Band { count: 0, budget: 100 });
    assert_eq!(shade(1, 100), Shade::Band { count: 1, budget: 100 });
    assert_eq!(shade(37, 100), Shade::Band { count: 37, budget: 100 });
    assert_eq!(shade(99, 100), Shade::Band { count: 99, budget: 100 });
    assert_eq!(shade(5, 20), Shade::Band { count: 5, budget: 20 });
}

#[test]
fn hue_is_a_proper_fraction() {
    for budget in [1u32, 2, 20, 100] {
        for count in 0..budget {
            match shade(count, budget) {
                Shade::Band { count: numerator, budget: denominator } => {
                    assert!(numerator < denominator);
                    let hue = numerator as f64 / denominator as f64;
                    assert!(0.0 <= hue && hue < 1.0);
                }
                Shade::InSet => panic!("a point that diverged is not in the set"),
            }
        }
    }
}

#[test]
fn hue_grows_with_the_count() {
    let budget = 100;
    for count in 0..budget - 1 {
        match (shade(count, budget), shade(count + 1, budget)) {
            (
                Shade::Band { count: a, budget: m },
                Shade::Band { count: b, budget: n },
            ) => {
                assert!(a as u64 * (n as u64) < b as u64 * m as u64);
                assert_eq!(m, n);
                assert_eq!(b - a, 1);
            }
            _ => panic!("both points diverged"),
        }
    }
}

#[test]
fn hue_is_the_count_over_the_budget() {
    match shade(25, 100) {
        Shade::Band { count, budget } => assert_eq!(count as f64 / budget as f64, 0.25),
        Shade::InSet => panic!("a point that diverged is not in the set"),
    }
}

#[test]
fn same_count_gives_the_same_shade() {
    assert_eq!(shade(42, 100), shade(42, 100));
    assert_eq!(shade(100, 100), shade(100, 100));
    assert_ne!(shade(42, 100), shade(43, 100));
    assert_ne!(shade(99, 100), shade(100, 100));
}
