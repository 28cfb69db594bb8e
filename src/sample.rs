//! A fixed, nested game, large enough to exercise the operations.
use vstd::prelude::*;
use crate::frac::Frac;
use crate::model::{Entry, Game, int_frac};
use crate::surreal::{Surreal, SurrealValue, lemma_from_sides, lemma_values_model, values_model};

verus! {

/// Row `i` of the sample: `{ i | 5i, 5i + 1, ..., 5i + 4 }`.
pub open spec fn row_game(i: int) -> Game {
    Game {
        left: seq![Entry::Num(int_frac(i))],
        right: Seq::new(5, |j: int| Entry::Num(int_frac(5 * i + j))),
    }
}

/// The sample: `{ 0 | row 0, row 1, ..., row 4 }`.
pub open spec fn complex_game() -> Game {
    Game { left: seq![Entry::Num(int_frac(0))], right: Seq::new(5, |i: int| Entry::Sub(row_game(i))) }
}

/// One row of the sample.
fn row(i: i64) -> (r: Surreal)
    requires
        0 <= i < 5,
    ensures
        r@ == row_game(i as int),
        r.wf(),
{
    let mut right_set: Vec<SurrealValue> = Vec::new();
    let mut j: i64 = 0;
    while j < 5
        invariant
            0 <= i < 5,
            0 <= j <= 5,
            right_set.len() == j,
            forall|n: int| 0 <= n < j ==> (#[trigger] right_set[n])@ == Entry::Num(int_frac(5 * i + n)),
            forall|n: int| 0 <= n < j ==> (#[trigger] right_set[n]).wf(),
        decreases 5 - j,
    {
        right_set.push(SurrealValue::Leaf(Frac { numer: i * 5 + j, denom: 1 }));
        j = j + 1;
    }
    let left = vec![SurrealValue::Leaf(Frac { numer: i, denom: 1 })];
    proof {
        lemma_values_model(right_set@);
        lemma_values_model(left@);
        assert(values_model(right_set@) =~= row_game(i as int).right);
        assert(values_model(left@) =~= row_game(i as int).left);
        assert(left[0].wf());
    }
    let r = Surreal { l: Some(left), r: Some(right_set) };
    proof {
        lemma_from_sides(r);
    }
    r
}

/// The sample game `{ 0 | { 0 | 0, ..., 4 }, ..., { 4 | 20, ..., 24 } }`.
pub fn create_complex_par_surreal() -> (r: Surreal)
    ensures
        r@ == complex_game(),
        r.wf(),
{
    let mut nested_set: Vec<SurrealValue> = Vec::new();
    let mut i: i64 = 0;
    while i < 5
        invariant
            0 <= i <= 5,
            nested_set.len() == i,
            forall|n: int| 0 <= n < i ==> (#[trigger] nested_set[n])@ == Entry::Sub(row_game(n)),
            forall|n: int| 0 <= n < i ==> (#[trigger] nested_set[n]).wf(),
        decreases 5 - i,
    {
        nested_set.push(SurrealValue::Nested(row(i)));
        i = i + 1;
    }
    let left = vec![SurrealValue::Leaf(Frac { numer: 0, denom: 1 })];
    proof {
        lemma_values_model(nested_set@);
        lemma_values_model(left@);
        assert(values_model(nested_set@) =~= complex_game().right);
        assert(values_model(left@) =~= complex_game().left);
        assert(left[0].wf());
    }
    let r = Surreal { l: Some(left), r: Some(nested_set) };
    proof {
        lemma_from_sides(r);
    }
    r
}

} // verus!
