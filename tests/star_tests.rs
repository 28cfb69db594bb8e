use par_surreal::notation::construct;
use par_surreal::pstar::{astar, expand_pstar, pretty_astar, pretty_star, star, PStar, StarValue};
use par_surreal::surreal::eq;

#[test]
fn star_one_and_two() {
    assert_eq!(star(1), construct("{0|0}").unwrap());
    assert_eq!(star(2), construct("{0,{0|0}|0,{0|0}}").unwrap());
    assert_eq!(
        star(3),
        construct("{0,{0|0},{0,{0|0}|0,{0|0}}|0,{0|0},{0,{0|0}|0,{0|0}}}").unwrap()
    );
}

#[test]
fn astar_takes_the_nim_sum() {
    assert_eq!(astar(2, 3), star(1));
    assert_eq!(astar(1, 2), star(3));
}

#[test]
fn pretty_star_lists_labels() {
    let p = pretty_star(3);
    let side = vec![
        StarValue::Leaf(0),
        StarValue::Label("*1".to_string()),
        StarValue::Label("*2".to_string()),
    ];
    assert_eq!(p, PStar { l: side.clone(), r: side });
    assert_eq!(pretty_star(1).to_string(), "{ 0 | 0 }");
    assert_eq!(pretty_star(3).to_string(), "{ 0, *1, *2 | 0, *1, *2 }");
    assert_eq!(pretty_astar(2, 3), pretty_star(1));
    assert_eq!(pretty_star(12).l[11], StarValue::Label("*11".to_string()));
}

#[test]
fn expanded_pretty_star_equals_star() {
    for n in 1..=3 {
        assert!(eq(&expand_pstar(pretty_star(n)), &star(n)));
        assert_eq!(expand_pstar(pretty_star(n)), star(n));
    }
}

#[test]
fn expand_reads_plain_star_label_and_integers() {
    let p = PStar {
        l: vec![StarValue::Label("*".to_string()), StarValue::Leaf(-4)],
        r: vec![],
    };
    let g = expand_pstar(p);
    assert_eq!(g, construct("{ {0|0}, -4 | }").unwrap());
    assert_eq!(g.r, None);
}
