use par_surreal::frac::Frac;
use par_surreal::notation::{construct, ParseError};
use par_surreal::surreal::{zero, Surreal, SurrealValue};

fn single(text: &str) -> Frac {
    match construct(text).unwrap().l.unwrap()[0] {
        SurrealValue::Leaf(f) => f,
        SurrealValue::Nested(_) => panic!("expected a number"),
    }
}

#[test]
fn scalars_are_exact_and_reduced() {
    let f = single("{ -2.50 | }");
    assert_eq!((f.numer, f.denom), (-5, 2));
    let g = single("{ +3 | }");
    assert_eq!((g.numer, g.denom), (3, 1));
    let h = single("{ .25 | }");
    assert_eq!((h.numer, h.denom), (1, 4));
    let k = single("{ 7. | }");
    assert_eq!((k.numer, k.denom), (7, 1));
    let m = single("{ 9223372036854775807 | }");
    assert_eq!((m.numer, m.denom), (i64::MAX, 1));
}

#[test]
fn whitespace_is_insignificant() {
    assert_eq!(
        construct("  {1,{2|}|\t3 }\n").unwrap(),
        construct("{ 1 , { 2 | } | 3 }").unwrap()
    );
    assert_eq!(construct("{|}").unwrap(), zero());
}

#[test]
fn malformed_text_is_a_parse_error() {
    for text in [
        "",
        "1",
        "{1|2",
        "{1 2|}",
        "{a|}",
        "{1|}x",
        "{1,,2|}",
        "{1|2|3}",
        "{-|}",
        "{1.2.3|}",
        "{1e5|}",
        "{ { | } ",
        "{ 9223372036854775808 | }",
        "{ 0.1234567890123456789 | }",
    ] {
        assert!(construct(text).is_err(), "accepted {:?}", text);
    }
    assert_eq!(construct("{1|}x"), Err(ParseError { position: 4 }));
}

#[test]
fn eighteen_fraction_digits_are_accepted() {
    let f = single("{ 0.000000000000000001 | }");
    assert_eq!((f.numer, f.denom), (1, 1_000_000_000_000_000_000));
}

#[test]
fn printing_writes_set_notation() {
    assert_eq!(zero().to_string(), "{  |  }");
    assert_eq!(
        construct("{ 0 | { 1 | } }").unwrap().to_string(),
        "{ 0 | { 1 |  } }"
    );
    assert_eq!(
        construct("{ 1.5, -2 | 3 }").unwrap().to_string(),
        "{ 1.5, -2 | 3 }"
    );
    let s = Surreal { l: None, r: Some(vec![SurrealValue::Leaf(Frac { numer: -7, denom: 1 })]) };
    assert_eq!(s.to_string(), "{  | -7 }");
}

#[test]
fn printed_games_read_back() {
    let x = construct("{ 10, -305 | { | 42 } }").unwrap();
    assert_eq!(construct(&x.to_string()).unwrap(), x);
    let y = construct("{ -0.25, 0.125 | { 7.5 | } }").unwrap();
    assert_eq!(y.to_string(), "{ -0.25, 0.125 | { 7.5 |  } }");
    assert_eq!(construct(&y.to_string()).unwrap(), y);
}
