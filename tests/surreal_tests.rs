use par_surreal::frac::Frac;
use par_surreal::notation::construct;
use par_surreal::surreal::{
    add, append, compare, convert, eq, ge, gt, le, lt, negate, pdt_add, zero, EvaluationError,
    Surreal, SurrealValue,
};

fn leaf(n: i64) -> SurrealValue {
    SurrealValue::Leaf(Frac { numer: n, denom: 1 })
}

fn frac(numer: i64, denom: i64) -> Frac {
    Frac { numer, denom }
}

fn game(text: &str) -> Surreal {
    construct(text).unwrap()
}

#[test]
fn testing_construct() {
    let result = game("{ | }");
    assert_eq!(result, zero());
    let result2 = game("{ 0.0 | { 1 | } }");
    assert_eq!(
        result2,
        Surreal {
            l: Some(vec![leaf(0)]),
            r: Some(vec![SurrealValue::Nested(Surreal {
                l: Some(vec![leaf(1)]),
                r: None,
            })]),
        }
    );
    let result3 = game("{ 2.0, 3.0, 4.0 | 9.0, 2.0 }");
    assert_eq!(
        result3,
        Surreal {
            l: Some(vec![leaf(2), leaf(3), leaf(4)]),
            r: Some(vec![leaf(9), leaf(2)]),
        }
    );
    let result4 = game("{ | { | { | 6 } } }");
    assert_eq!(
        result4,
        Surreal {
            l: None,
            r: Some(vec![SurrealValue::Nested(Surreal {
                l: None,
                r: Some(vec![SurrealValue::Nested(Surreal {
                    l: None,
                    r: Some(vec![leaf(6)]),
                })]),
            })]),
        }
    );
}

#[test]
fn testing_negate() {
    let zero = zero();
    assert_eq!(zero, negate(&zero));
    let one = game("{ 0.0 | }");
    assert_eq!(negate(&one), game("{ | 0.0 }"));
    let nested = game("{ 1.0, 2.0 | { 0.0 | } }");
    assert_eq!(negate(&nested), game("{ { | 0.0 } | -1.0, -2.0 }"));
}

#[test]
fn testing_append() {
    let mut result = game("{ | }");
    append(&mut result, leaf(0), true);
    assert_eq!(result, game("{ 0.0 | }"));
    append(
        &mut result,
        SurrealValue::Nested(Surreal {
            l: None,
            r: Some(vec![leaf(9)]),
        }),
        false,
    );
    assert_eq!(result, game("{ 0.0 | { | 9.0 } }"));
}

#[test]
fn testing_conversion() {
    assert_eq!(convert(&game("{ | }")).unwrap(), frac(0, 1));
    assert_eq!(convert(&game("{0.0 | }")).unwrap(), frac(1, 1));
    assert_eq!(convert(&game("{4.0 | }")).unwrap(), frac(5, 1));
    assert_eq!(convert(&game("{ | 0.0}")).unwrap(), frac(-1, 1));
    assert_eq!(convert(&game("{ | -2.0}")).unwrap(), frac(-3, 1));
    assert_eq!(convert(&game("{ | -20.0}")).unwrap(), frac(-21, 1));
}

#[test]
fn testing_comparisons() {
    let n1 = game("{0.0 | }");
    let n2 = game("{0.0 | }");
    let n3 = game("{ | 0.0 }");
    let n4 = game("{1.0 | }");
    let n5 = game("{ | -2.0 }");
    assert!(eq(&n1, &n1));
    assert!(eq(&n1, &n2));
    assert!(le(&n1, &n1).unwrap());
    assert!(le(&n1, &n1).unwrap());
    assert!(le(&n3, &n1).unwrap());
    assert!(lt(&n3, &n1).unwrap());
    assert!(lt(&n5, &n3).unwrap());
    assert!(ge(&n2, &n1).unwrap());
    assert!(ge(&n4, &n1).unwrap());
    assert!(gt(&n3, &n5).unwrap());
    assert!(gt(&n4, &n1).unwrap());
}

#[test]
fn testing_arithmetics() {
    let x = game("{0.0 | }");
    let y = game("{ 1.0 |  }");
    assert_eq!(add(&x, &y).unwrap(), game("{2.0, 2.0 | }"));

    let z = game("{ | }");
    assert_eq!(add(&z, &z).unwrap(), zero());
    assert_eq!(add(&z, &x).unwrap(), x);
    assert_eq!(add(&y, &z).unwrap(), y);
    assert_eq!(
        add(&game("{1.0 | }"), &game("{ | -2.0}")).unwrap(),
        game("{ -2.0 | 0.0 }")
    );

    assert_eq!(
        pdt_add(
            &game("{1.0, 2.0, 3.0, 4.0, 5.0 | }"),
            frac(6, 1),
            &game("{ | -2.0}"),
            frac(-3, 1)
        )
        .unwrap(),
        game("{-2.0, -1.0, 0.0, 1.0, 2.0 | 4.0}")
    );

    let half = game("{0|1}");
    assert_eq!(
        pdt_add(&half, frac(1, 2), &half, frac(1, 2)).unwrap(),
        game("{0.5, 0.5 | 1.5, 1.5}")
    );
}

#[test]
fn double_negation_gives_back_the_game() {
    let x = game("{ 1, { 2 | -3.5 } | { { | 4 } | }, 0 }");
    assert_eq!(negate(&negate(&x)), x);
}

#[test]
fn zero_is_empty_notation_and_its_own_negation() {
    assert_eq!(zero(), game("{ | }"));
    assert_eq!(negate(&zero()), zero());
}

#[test]
fn construct_nested_right_side() {
    assert_eq!(
        game("{ 0 | { 1 | } }"),
        Surreal {
            l: Some(vec![leaf(0)]),
            r: Some(vec![SurrealValue::Nested(Surreal {
                l: Some(vec![leaf(1)]),
                r: None,
            })]),
        }
    );
}

#[test]
fn add_keeps_duplicates_from_both_games() {
    assert_eq!(add(&game("{0|}"), &game("{1|}")).unwrap(), game("{2,2|}"));
}

#[test]
fn pdt_add_puts_first_game_first_and_moves_right_by_x() {
    let a = game("{1, 2 | 3}");
    let b = game("{4 | 5}");
    let sum = pdt_add(&a, frac(10, 1), &b, frac(20, 1)).unwrap();
    assert_eq!(sum, game("{21, 22, 14 | 13, 15}"));
    let swapped = pdt_add(&b, frac(20, 1), &a, frac(10, 1)).unwrap();
    assert_eq!(swapped, game("{14, 21, 22 | 25, 23}"));
}

#[test]
fn add_of_empty_sides_gives_absent_sides() {
    let sum = add(&game("{ | }"), &game("{ | }")).unwrap();
    assert_eq!(sum.l, None);
    assert_eq!(sum.r, None);
}

#[test]
fn below_zero_is_below_one() {
    assert!(le(&game("{|0}"), &game("{0|}")).unwrap());
    assert!(lt(&game("{|0}"), &game("{0|}")).unwrap());
}

#[test]
fn order_is_false_where_it_fails() {
    assert!(!le(&game("{2|}"), &game("{0|}")).unwrap());
    assert!(!lt(&game("{1|}"), &game("{0|}")).unwrap());
    assert!(lt(&game("{0|}"), &game("{0|}")).unwrap());
    assert!(le(&game("{0|}"), &game("{0|}")).unwrap());
    assert!(!gt(&game("{|0}"), &game("{0|}")).unwrap());
}

#[test]
fn eq_holds_of_any_game_with_itself() {
    let x = game("{ 1, { 2 | { | 7 } } | 3, { | } }");
    assert!(eq(&x, &x));
    assert!(eq(&zero(), &zero()));
}

#[test]
fn eq_is_containment_both_ways() {
    assert!(eq(&game("{1, 1 | 2}"), &game("{1 | 2, 2}")));
    assert!(!eq(&game("{1 | }"), &game("{1, 2 | }")));
    assert!(!eq(&game("{1, 2 | }"), &game("{1 | }")));
    assert!(!eq(&game("{ | 1}"), &game("{1 | }")));
    assert!(eq(&game("{0.5 | }"), &game("{0.50 | }")));
    assert!(!eq(&game("{ {1|} | }"), &game("{ 1 | }")));
}

#[test]
fn convert_of_other_shapes_is_too_complicated() {
    assert_eq!(convert(&game("{1 | 2}")), Err(EvaluationError::TooComplicated));
    assert_eq!(convert(&game("{1, 2 | }")), Err(EvaluationError::TooComplicated));
    assert_eq!(convert(&game("{ {1|} | }")), Err(EvaluationError::TooComplicated));
    assert_eq!(convert(&game("{0.5 | }")).unwrap(), frac(3, 2));
}

#[test]
fn order_and_add_report_too_complicated() {
    let hard = game("{0 | 1}");
    let one = game("{0 | }");
    assert_eq!(le(&hard, &one), Err(EvaluationError::TooComplicated));
    assert_eq!(lt(&one, &hard), Err(EvaluationError::TooComplicated));
    assert_eq!(add(&hard, &one), Err(EvaluationError::TooComplicated));
    assert_eq!(EvaluationError::TooComplicated.message(), "too complicated");
}

#[test]
fn pdt_add_of_nested_game_fails() {
    let nested = game("{ {0|} | }");
    assert_eq!(
        pdt_add(&nested, frac(0, 1), &zero(), frac(0, 1)),
        Err(EvaluationError::NestedGame)
    );
    assert_eq!(
        pdt_add(&zero(), frac(0, 1), &game("{ | {0|} }"), frac(0, 1)),
        Err(EvaluationError::NestedGame)
    );
    assert_eq!(
        EvaluationError::NestedGame.message(),
        "undefined for nested games"
    );
}

#[test]
fn compare_picks_by_comparator() {
    let a = game("{ | 0 }");
    let b = game("{ 0 | }");
    let smaller = compare(&a, &b, |x, y| le(x, y).unwrap());
    assert_eq!(smaller, a);
    let larger = compare(&a, &b, |x, y| gt(x, y).unwrap());
    assert_eq!(larger, b);
}

#[test]
fn clone_is_deep() {
    let x = game("{ 1, { 2 | } | 3 }");
    let y = x.clone();
    assert_eq!(x, y);
}

#[test]
fn sample_game_has_five_rows() {
    let sample = par_surreal::sample::create_complex_par_surreal();
    let expected = game(
        "{ 0 | { 0 | 0, 1, 2, 3, 4 }, { 1 | 5, 6, 7, 8, 9 }, { 2 | 10, 11, 12, 13, 14 }, \
         { 3 | 15, 16, 17, 18, 19 }, { 4 | 20, 21, 22, 23, 24 } }",
    );
    assert_eq!(sample, expected);
    assert_eq!(negate(&negate(&sample)), sample);
}
