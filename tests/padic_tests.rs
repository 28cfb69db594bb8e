use par_surreal::frac::Frac;
use par_surreal::padic::{add_p_adic, expand, Padic};

#[test]
fn add_p_adic_doubles_digits_and_value() {
    let padic = Padic {
        v: Frac { numer: 128, denom: 9 },
        p: 7,
        expanded: vec![1, 5, 5, 0, 3, 5, 0, 3, 5, 0],
    };
    let total = add_p_adic(&padic, &padic);
    assert_eq!(total.expanded, vec![2, 0, 1, 1, 6, 0, 1, 6, 0, 1]);
    assert_eq!(total.v, Frac { numer: 256, denom: 9 });
    assert_eq!(total.p, 7);
}

#[test]
fn add_p_adic_writes_magnitude_of_sum() {
    let a = Padic { v: Frac { numer: 1, denom: 2 }, p: 3, expanded: vec![-5] };
    let b = Padic { v: Frac { numer: 1, denom: 3 }, p: 5, expanded: vec![2] };
    let total = add_p_adic(&a, &b);
    assert_eq!(total.expanded, vec![3]);
    assert_eq!(total.p, 3);
    let r = total.v;
    assert_eq!((r.numer, r.denom), (5, 6));
    let zero = Padic { v: Frac { numer: 0, denom: 1 }, p: 2, expanded: vec![] };
    assert_eq!(add_p_adic(&zero, &zero).expanded, vec![0]);
}

#[test]
fn padic_text_puts_highest_digit_first() {
    let padic = Padic {
        v: Frac { numer: 1, denom: 3 },
        p: 10,
        expanded: vec![7, 6, 6, 6, 6],
    };
    assert_eq!(padic.to_string(), "...66667");
}

#[test]
fn testing_expand_and_arithmetic() {
    let frac = Frac {
        numer: 128,
        denom: 9,
    };
    let p = 7;
    let padic = expand(&frac, p, 10).unwrap();
    assert_eq!(padic.expanded, vec![1, 5, 5, 0, 3, 5, 0, 3, 5, 0]);
    assert_eq!(
        padic.v,
        Frac {
            numer: 128,
            denom: 9
        }
    );

    let total = add_p_adic(&padic, &padic);
    assert_eq!(total.expanded, vec![2, 0, 1, 1, 6, 0, 1, 6, 0, 1]);
    assert_eq!(
        total.v,
        Frac {
            numer: 256,
            denom: 9
        }
    );

    let third = Frac { numer: 1, denom: 3 };
    let ten_adic = expand(&third, 10, 5).unwrap();
    assert_eq!(ten_adic.expanded, vec![7, 6, 6, 6, 6]);

    let neg = Frac {
        numer: -1,
        denom: 1,
    };
    assert_eq!(expand(&neg, 10, 72).unwrap().expanded, vec![9; 72]);
}

#[test]
fn expand_without_a_digit_is_none() {
    assert!(expand(&Frac { numer: 1, denom: 2 }, 2, 3).is_none());
    assert!(expand(&Frac { numer: 1, denom: 2 }, 4, 1).is_none());
    let empty = expand(&Frac { numer: 1, denom: 2 }, 2, 0).unwrap();
    assert!(empty.expanded.is_empty());
    assert_eq!(expand(&Frac { numer: 2, denom: 5 }, 3, 4).unwrap().expanded, vec![1, 1, 2, 1]);
}
