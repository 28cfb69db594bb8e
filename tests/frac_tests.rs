use par_surreal::frac::Frac;

#[test]
fn testing_frac() {
    let a = Frac { numer: 1, denom: 2 };
    let b = Frac { numer: 3, denom: 9 };
    assert_eq!(Frac::add(&a, &b), Frac { numer: 5, denom: 6 });
    assert_eq!(Frac::add(&a, &a), Frac { numer: 1, denom: 1 });
    assert_eq!(Frac::add(&b, &b), Frac { numer: 2, denom: 3 });
}

#[test]
fn gcd_of_magnitudes() {
    assert_eq!(Frac::gcd(12, -18), 6);
    assert_eq!(Frac::gcd(0, 5), 5);
    assert_eq!(Frac::gcd(-7, 0), 7);
    assert_eq!(Frac::gcd(0, 0), 0);
}

#[test]
fn reduce_divides_through() {
    let r = Frac::reduce(6, 8);
    assert_eq!((r.numer, r.denom), (3, 4));
    let s = Frac::reduce(-10, 4);
    assert_eq!((s.numer, s.denom), (-5, 2));
    let t = Frac::reduce(0, 9);
    assert_eq!((t.numer, t.denom), (0, 1));
}

#[test]
fn add_reduces_exactly() {
    let r = Frac::add(&Frac { numer: 1, denom: 6 }, &Frac { numer: 1, denom: 3 });
    assert_eq!((r.numer, r.denom), (1, 2));
}

#[test]
fn equality_is_by_value() {
    assert_eq!(Frac { numer: 2, denom: 4 }, Frac { numer: 1, denom: 2 });
    assert_ne!(Frac { numer: 1, denom: 3 }, Frac { numer: 1, denom: 2 });
}

#[test]
fn order_and_text() {
    let a = Frac { numer: 1, denom: 3 };
    let b = Frac { numer: 1, denom: 2 };
    assert!(a.lt_frac(&b));
    assert!(a.le_frac(&a));
    assert!(!b.le_frac(&a));
    assert_eq!(b.neg().numer, -1);
    assert_eq!(b.to_string(), "0.5");
    assert_eq!(a.to_string(), "1/3");
    assert_eq!(Frac { numer: -3, denom: 1 }.to_string(), "-3");
    assert_eq!(Frac { numer: -1, denom: 4 }.to_string(), "-0.25");
    assert_eq!(Frac { numer: 9, denom: 8 }.to_string(), "1.125");
    assert_eq!(Frac { numer: 5, denom: 10 }.to_string(), "0.5");
    assert_eq!(Frac { numer: 10, denom: 20 }.to_string(), "0.50");
    assert_eq!(Frac { numer: 1, denom: -2 }.to_string(), "1/-2");
}
