//! The game tree and its core operations.
use vstd::prelude::*;
use crate::frac::Frac;
use crate::model::{
    Entry,
    Game,
    add_fits,
    all_num,
    contained,
    convert_fits,
    convert_spec,
    entries_ok,
    entry_le_num,
    entry_lt_num,
    entry_ok,
    entry_same,
    eq_spec,
    game_ok,
    game_same,
    has_same,
    inc_entries,
    inc_entry,
    inc_fits,
    le_spec,
    lemma_convert_flat,
    lemma_neg_entries,
    lemma_negate_involutive,
    lt_spec,
    neg_entries,
    neg_entry,
    neg_game,
    num_le_entry,
    num_lt_entry,
    pdt_add_fits,
    pdt_add_spec,
};

verus! {

/// One option of a game: a number, or a game in its own right.
#[derive(Debug, PartialEq)]
pub enum SurrealValue {
    Leaf(Frac),
    Nested(Surreal),
}

/// A game `{ l | r }`. An absent side and an empty one mean the same; the
/// library never builds a present, empty side.
#[derive(Debug, PartialEq)]
pub struct Surreal {
    pub l: Option<Vec<SurrealValue>>,
    pub r: Option<Vec<SurrealValue>>,
}

pub open spec fn value_model(v: SurrealValue) -> Entry
    decreases v,
{
    match v {
        SurrealValue::Leaf(f) => Entry::Num(f),
        SurrealValue::Nested(s) => Entry::Sub(surreal_model(s)),
    }
}

pub open spec fn surreal_model(s: Surreal) -> Game
    decreases s,
{
    Game { left: side_model(s.l), right: side_model(s.r) }
}

/// The entries of one side; an absent side has none.
pub open spec fn side_model(o: Option<Vec<SurrealValue>>) -> Seq<Entry>
    decreases o,
{
    match o {
        Some(v) => values_model(v@),
        None => Seq::empty(),
    }
}

pub open spec fn values_model(s: Seq<SurrealValue>) -> Seq<Entry>
    decreases s,
{
    if s.len() == 0 {
        Seq::empty()
    } else {
        values_model(s.subrange(0, s.len() - 1)).push(value_model(s[s.len() - 1]))
    }
}

pub proof fn lemma_values_model(s: Seq<SurrealValue>)
    ensures
        values_model(s).len() == s.len(),
        forall|i: int| 0 <= i < s.len() ==> #[trigger] values_model(s)[i] == value_model(s[i]),
    decreases s.len(),
{
    if s.len() > 0 {
        lemma_values_model(s.subrange(0, s.len() - 1));
    }
}

impl View for SurrealValue {
    type V = Entry;

    open spec fn view(&self) -> Entry {
        value_model(*self)
    }
}

impl View for Surreal {
    type V = Game;

    open spec fn view(&self) -> Game {
        surreal_model(*self)
    }
}

/// No side, at any depth, is present and empty.
pub open spec fn shape_ok(s: Surreal) -> bool
    decreases s,
{
    side_shape_ok(s.l) && side_shape_ok(s.r)
}

pub open spec fn side_shape_ok(o: Option<Vec<SurrealValue>>) -> bool
    decreases o,
{
    match o {
        Some(v) => v.len() > 0 && forall|i: int| 0 <= i < v.len() ==> value_shape_ok(#[trigger] v[i]),
        None => true,
    }
}

pub open spec fn value_shape_ok(x: SurrealValue) -> bool
    decreases x,
{
    match x {
        SurrealValue::Leaf(_) => true,
        SurrealValue::Nested(s) => shape_ok(s),
    }
}

impl SurrealValue {
    pub open spec fn wf(self) -> bool {
        value_shape_ok(self) && entry_ok(self@)
    }
}

impl Surreal {
    /// The type's invariant: present sides are non-empty, and every number is
    /// well formed.
    pub open spec fn wf(self) -> bool {
        shape_ok(self) && game_ok(self@)
    }
}

/// A side whose entries are all well formed.
pub open spec fn side_wf(o: Option<Vec<SurrealValue>>) -> bool {
    side_shape_ok(o) && entries_ok(side_model(o))
}

/// The invariant of a game holds of each of its sides.
pub proof fn lemma_sides_wf(s: Surreal)
    requires
        s.wf(),
    ensures
        side_wf(s.l),
        side_wf(s.r),
{
    assert(shape_ok(s));
    assert(side_shape_ok(s.l) && side_shape_ok(s.r));
    assert(s@.left == side_model(s.l));
    assert(s@.right == side_model(s.r));
    assert(game_ok(s@));
}

fn copy_value(v: &SurrealValue) -> (r: SurrealValue)
    ensures
        r@ == v@,
        value_shape_ok(*v) ==> value_shape_ok(r),
    decreases v,
{
    match v {
        SurrealValue::Leaf(f) => SurrealValue::Leaf(*f),
        SurrealValue::Nested(s) => SurrealValue::Nested(copy_surreal(s)),
    }
}

fn copy_surreal(s: &Surreal) -> (r: Surreal)
    ensures
        r@ == s@,
        shape_ok(*s) ==> shape_ok(r),
    decreases s,
{
    Surreal { l: copy_side(&s.l), r: copy_side(&s.r) }
}

fn copy_side(o: &Option<Vec<SurrealValue>>) -> (r: Option<Vec<SurrealValue>>)
    ensures
        side_model(r) == side_model(*o),
        side_shape_ok(*o) ==> side_shape_ok(r),
    decreases o,
{

    match o {
        None => None,
        Some(v) => {
            let mut out: Vec<SurrealValue> = Vec::new();
            let mut i: usize = 0;
            while i < v.len()
                invariant
                    *o == Some(*v),
                    i <= v.len(),
                    out.len() == i,
                    forall|j: int| 0 <= j < i ==> (#[trigger] out[j])@ == v[j]@,
                    side_shape_ok(*o) ==> forall|j: int| 0 <= j < i ==> value_shape_ok(
                        #[trigger] out[j],
                    ),
                decreases v.len() - i,
            {
                proof {
                    assert(decreases_to!(*o => *v));
                    assert(decreases_to!(*v => v[i as int]));
                    if side_shape_ok(*o) {
                        assert(value_shape_ok(v[i as int]));
                    }
                }
                let c = copy_value(&v[i]);
                out.push(c);
                i = i + 1;
            }
            proof {
                lemma_values_model(out@);
                lemma_values_model(v@);
                assert forall|j: int| 0 <= j < v.len() implies values_model(out@)[j] == values_model(
                    v@,
                )[j] by {
                    assert(out@[j]@ == v@[j]@);
                }
            }
            assert(values_model(out@) =~= values_model(v@));
            Some(out)
        }
    }
}

impl Clone for SurrealValue {
    fn clone(&self) -> (r: SurrealValue)
        ensures
            r@ == self@,
            value_shape_ok(*self) ==> value_shape_ok(r),
    {
        copy_value(self)
    }
}

impl Clone for Surreal {
    fn clone(&self) -> (r: Surreal)
        ensures
            r@ == self@,
            self.wf() ==> r.wf(),
    {
        copy_surreal(self)
    }
}

/// The game with no options on either side.
pub fn zero() -> (r: Surreal)
    ensures
        r@ == (Game { left: Seq::empty(), right: Seq::empty() }),
        r.wf(),
{
    Surreal { l: None, r: None }
}

/// One side with `value` added at its end.
fn push_side(side: Option<Vec<SurrealValue>>, value: SurrealValue) -> (r: Vec<SurrealValue>)
    ensures
        values_model(r@) == side_model(side).push(value@),
        side_shape_ok(side) && value_shape_ok(value) ==> side_shape_ok(Some(r)),
{

    match side {
        Some(v) => {
            let ghost old_v = v;
            let mut v = v;
            v.push(value);
            proof {
                lemma_values_model(v@);
                lemma_values_model(old_v@);
            }
            assert(values_model(v@) =~= values_model(old_v@).push(value@));
            v
        }
        None => {
            let v = vec![value];
            proof {
                lemma_values_model(v@);
            }
            assert(values_model(v@) =~= Seq::<Entry>::empty().push(value@));
            v
        }
    }
}

/// Adds `value` at the end of the left side (`to_left`) or of the right side.
pub fn append(surreal: &mut Surreal, value: SurrealValue, to_left: bool)
    ensures
        to_left ==> final(surreal)@ == (Game { left: old(surreal)@.left.push(value@), right: old(surreal)@.right }),
        !to_left ==> final(surreal)@ == (Game { left: old(surreal)@.left, right: old(surreal)@.right.push(value@) }),
        old(surreal).wf() && value.wf() ==> final(surreal).wf(),
{
    let ghost g = old(surreal)@;
    if to_left {
        let side = surreal.l.take();
        surreal.l = Some(push_side(side, value));
    } else {
        let side = surreal.r.take();
        surreal.r = Some(push_side(side, value));
    }
    proof {
        if old(surreal).wf() && value.wf() {
            assert(entries_ok(g.left.push(value@)));
            assert(entries_ok(g.right.push(value@)));
            assert(game_ok(surreal@));
        }
    }
}


fn negate_value(x: &SurrealValue) -> (r: SurrealValue)
    requires
        x.wf(),
    ensures
        r@ == neg_entry(x@),
        r.wf(),
    decreases x,
{
    match x {
        SurrealValue::Leaf(f) => SurrealValue::Leaf(f.neg()),
        SurrealValue::Nested(s) => SurrealValue::Nested(negate(s)),
    }
}

fn negate_side(o: &Option<Vec<SurrealValue>>) -> (r: Option<Vec<SurrealValue>>)
    requires
        side_wf(*o),
    ensures
        side_model(r) == neg_entries(side_model(*o)),
        side_wf(r),
    decreases o,
{

    match o {
        None => None,
        Some(v) => {
            let mut out: Vec<SurrealValue> = Vec::new();
            let mut i: usize = 0;
            while i < v.len()
                invariant
                    *o == Some(*v),
                    side_wf(*o),
                    i <= v.len(),
                    out.len() == i,
                    forall|j: int| 0 <= j < i ==> (#[trigger] out[j])@ == neg_entry(v[j]@),
                    forall|j: int| 0 <= j < i ==> (#[trigger] out[j]).wf(),
                decreases v.len() - i,
            {
                proof {
                    assert(decreases_to!(*o => *v));
                    assert(decreases_to!(*v => v[i as int]));
                    assert(value_shape_ok(v[i as int]));
                    lemma_values_model(v@);
                    assert(values_model(v@)[i as int] == v[i as int]@);
                    assert(entry_ok(values_model(v@)[i as int]));
                }
                let c = negate_value(&v[i]);
                out.push(c);
                i = i + 1;
            }
            proof {
                lemma_values_model(out@);
                lemma_values_model(v@);
                lemma_neg_entries(values_model(v@));
                assert forall|j: int| 0 <= j < v.len() implies values_model(out@)[j] == neg_entries(
                    values_model(v@),
                )[j] by {
                    assert(out@[j]@ == neg_entry(v@[j]@));
                }
                assert(values_model(out@) =~= neg_entries(values_model(v@)));
                assert forall|j: int| 0 <= j < out.len() implies entry_ok(
                    #[trigger] values_model(out@)[j],
                ) by {
                    assert(out[j].wf());
                }
            }
            Some(out)
        }
    }
}

/// The negation of a game: its sides swapped and every entry negated, at
/// every depth. The two sides are negated in parallel.
pub fn negate(n: &Surreal) -> (r: Surreal)
    requires
        n.wf(),
    ensures
        r@ == neg_game(n@),
        r.wf(),
    decreases n,
{
    let left = || -> (s: Option<Vec<SurrealValue>>)
        requires
            side_wf(n.l),
        ensures
            side_model(s) == neg_entries(side_model(n.l)),
            side_wf(s),
    {
        negate_side(&n.l)
    };
    let right = || -> (s: Option<Vec<SurrealValue>>)
        requires
            side_wf(n.r),
        ensures
            side_model(s) == neg_entries(side_model(n.r)),
            side_wf(s),
    {
        negate_side(&n.r)
    };
    proof {
        lemma_sides_wf(*n);
    }
    let (nl, nr) = rayon::join(left, right);
    Surreal { l: nr, r: nl }
}

/// Negating a game twice gives back the game: `negate(negate(x))` has the
/// view of `x`.
pub proof fn lemma_double_negation(x: Surreal)
    requires
        x.wf(),
    ensures
        neg_game(neg_game(x@)) == x@,
{
    lemma_negate_involutive(x@);
}


/// Why an operation outside the numeric fragment fails.
#[derive(Debug, Clone, Copy, PartialEq, Eq, Structural)]
pub enum EvaluationError {
    /// The game does not stand for a number.
    TooComplicated,
    /// Addition met a game where it needs a number.
    NestedGame,
}

impl EvaluationError {
    /// The error's text.
    pub fn message(&self) -> (r: &'static str)
        ensures
            *self == EvaluationError::TooComplicated ==> r@ == "too complicated"@,
            *self == EvaluationError::NestedGame ==> r@ == "undefined for nested games"@,
    {
        match self {
            EvaluationError::TooComplicated => "too complicated",
            EvaluationError::NestedGame => "undefined for nested games",
        }
    }
}

/// The number of entries on one side.
pub(crate) fn side_len(o: &Option<Vec<SurrealValue>>) -> (n: usize)
    ensures
        n == side_model(*o).len(),
        o is Some ==> n == o->0.len(),
        o is None ==> n == 0,
{
    proof {
        lemma_side_model(*o);
    }
    match o {
        Some(v) => v.len(),
        None => 0,
    }
}

/// The entry at position `i` of one side.
pub(crate) fn side_at(o: &Option<Vec<SurrealValue>>, i: usize) -> (r: &SurrealValue)
    requires
        i < side_model(*o).len(),
    ensures
        o is Some,
        i < o->0.len(),
        *r == o->0[i as int],
        r@ == side_model(*o)[i as int],
{
    proof {
        lemma_side_model(*o);
    }
    let v = o.as_ref().unwrap();
    &v[i]
}

proof fn lemma_side_model(o: Option<Vec<SurrealValue>>)
    ensures
        o is None ==> side_model(o).len() == 0,
        o is Some ==> side_model(o).len() == o->0.len(),
        o is Some ==> forall|i: int| 0 <= i < o->0.len() ==> #[trigger] side_model(o)[i] == (o->0[i])@,
{
    if let Some(v) = o {
        lemma_values_model(v@);
    }
}

/// The number that a simple game stands for: zero for `{ | }`, `v + 1` for
/// `{ v | }` and `v - 1` for `{ | v }`; `TooComplicated` for any other game.
pub fn convert(n: &Surreal) -> (r: Result<Frac, EvaluationError>)
    requires
        n.wf(),
        convert_fits(n@),
    ensures
        convert_spec(n@) is Some ==> r == Ok::<Frac, EvaluationError>(convert_spec(n@)->0),
        convert_spec(n@) is None ==> r == Err::<Frac, EvaluationError>(EvaluationError::TooComplicated),
        r matches Ok(v) ==> v.wf(),
{
    proof {
        lemma_sides_wf(*n);
        lemma_side_model(n.l);
        lemma_side_model(n.r);
    }
    let nl = side_len(&n.l);
    let nr = side_len(&n.r);
    if nl == 0 && nr == 0 {
        return Ok(Frac { numer: 0, denom: 1 });
    }
    if nl == 0 {
        if nr == 1 {
            match side_at(&n.r, 0) {
                SurrealValue::Leaf(v) => {
                    proof {
                        assert(entry_ok(n@.right[0]));
                    }
                    return Ok(v.add(&Frac { numer: -1, denom: 1 }));
                },
                SurrealValue::Nested(_) => {},
            }
        }
        Err(EvaluationError::TooComplicated)
    } else if nr == 0 {
        if nl == 1 {
            match side_at(&n.l, 0) {
                SurrealValue::Leaf(v) => {
                    proof {
                        assert(entry_ok(n@.left[0]));
                    }
                    return Ok(v.add(&Frac { numer: 1, denom: 1 }));
                },
                SurrealValue::Nested(_) => {},
            }
        }
        Err(EvaluationError::TooComplicated)
    } else {
        Err(EvaluationError::TooComplicated)
    }
}

/// Each entry of one side moved up by `x`; `NestedGame` where the side holds
/// a game.
fn increment(side: &Option<Vec<SurrealValue>>, x: Frac) -> (r: Result<Vec<SurrealValue>, EvaluationError>)
    requires
        side_wf(*side),
        x.wf(),
        inc_fits(side_model(*side), x),
    ensures
        r is Ok <==> all_num(side_model(*side)),
        r matches Ok(v) ==> values_model(v@) == inc_entries(side_model(*side), x),
        r matches Ok(v) ==> forall|i: int| 0 <= i < v.len() ==> (#[trigger] v[i]).wf(),
        r matches Err(e) ==> e == EvaluationError::NestedGame,
{
    proof {
        lemma_side_model(*side);
    }
    let ghost m = side_model(*side);
    let n = side_len(side);
    let mut out: Vec<SurrealValue> = Vec::new();
    let mut i: usize = 0;
    while i < n
        invariant
            n == m.len(),
            m == side_model(*side),
            side_wf(*side),
            x.wf(),
            inc_fits(m, x),
            i <= n,
            out.len() == i,
            forall|j: int| 0 <= j < i ==> (#[trigger] out[j])@ == inc_entry(m[j], x),
            forall|j: int| 0 <= j < i ==> (#[trigger] out[j]).wf(),
            forall|j: int| 0 <= j < i ==> (#[trigger] m[j]) is Num,
        decreases n - i,
    {
        match side_at(side, i) {
            SurrealValue::Leaf(v) => {
                proof {
                    assert(entry_ok(m[i as int]));
                    assert(m[i as int] is Num);
                }
                out.push(SurrealValue::Leaf(v.add(&x)));
            },
            SurrealValue::Nested(_) => {
                return Err(EvaluationError::NestedGame);
            },
        }
        i = i + 1;
    }
    proof {
        lemma_values_model(out@);
        assert(values_model(out@) =~= inc_entries(m, x));
    }
    Ok(out)
}

/// The entries of two sides, each moved up by its own amount, one after the
/// other.
fn increment_both(
    s1: &Option<Vec<SurrealValue>>,
    x1: Frac,
    s2: &Option<Vec<SurrealValue>>,
    x2: Frac,
) -> (r: Result<Vec<SurrealValue>, EvaluationError>)
    requires
        side_wf(*s1),
        side_wf(*s2),
        x1.wf(),
        x2.wf(),
        inc_fits(side_model(*s1), x1),
        inc_fits(side_model(*s2), x2),
    ensures
        r is Ok <==> all_num(side_model(*s1)) && all_num(side_model(*s2)),
        r matches Ok(v) ==> values_model(v@) == inc_entries(side_model(*s1), x1) + inc_entries(
            side_model(*s2),
            x2,
        ),
        r matches Ok(v) ==> forall|i: int| 0 <= i < v.len() ==> (#[trigger] v[i]).wf(),
        r matches Err(e) ==> e == EvaluationError::NestedGame,
{
    let mut first = match increment(s1, x1) {
        Ok(v) => v,
        Err(e) => {
            return Err(e);
        },
    };
    let mut second = match increment(s2, x2) {
        Ok(v) => v,
        Err(e) => {
            return Err(e);
        },
    };
    let ghost a = first@;
    let ghost b = second@;
    first.append(&mut second);
    proof {
        lemma_values_model(a);
        lemma_values_model(b);
        lemma_values_model(first@);
        assert(first@ == a + b);
        assert(values_model(first@) =~= values_model(a) + values_model(b));
        assert forall|i: int| 0 <= i < first.len() implies (#[trigger] first[i]).wf() by {
            if i >= a.len() {
                assert(first[i] == b[i - a.len()]);
            }
        }
    }
    Ok(first)
}

/// A side built from a sequence of entries: absent when there are none.
pub(crate) fn collapse(v: Vec<SurrealValue>) -> (r: Option<Vec<SurrealValue>>)
    requires
        forall|i: int| 0 <= i < v.len() ==> (#[trigger] v[i]).wf(),
    ensures
        side_model(r) == values_model(v@),
        side_wf(r),
{
    proof {
        lemma_values_model(v@);
        assert forall|i: int| 0 <= i < v.len() implies entry_ok(#[trigger] values_model(v@)[i]) by {
            assert(v[i].wf());
        }
    }
    if v.len() == 0 {
        assert(values_model(v@) =~= Seq::<Entry>::empty());
        None
    } else {
        Some(v)
    }
}

/// A game from two sides that hold the invariant.
pub proof fn lemma_from_sides(s: Surreal)
    requires
        side_wf(s.l),
        side_wf(s.r),
    ensures
        s.wf(),
{
}

/// The sum of `n1`, standing for `x`, and `n2`, standing for `y`: on the left
/// the left entries of `n1` moved up by `y`, then those of `n2` moved up by
/// `x`; on the right the right entries of `n1`, then those of `n2`, each moved
/// up by `x`. An empty side comes out absent. Fails with `NestedGame` where a
/// side holds a game. The two sides are built in parallel.
pub fn pdt_add(n1: &Surreal, x: Frac, n2: &Surreal, y: Frac) -> (r: Result<Surreal, EvaluationError>)
    requires
        n1.wf(),
        n2.wf(),
        x.wf(),
        y.wf(),
        pdt_add_fits(n1@, x, n2@, y),
    ensures
        r is Ok <==> all_num(n1@.left) && all_num(n1@.right) && all_num(n2@.left) && all_num(
            n2@.right,
        ),
        r matches Ok(s) ==> s@ == pdt_add_spec(n1@, x, n2@, y) && s.wf(),
        r matches Err(e) ==> e == EvaluationError::NestedGame,
{
    proof {
        lemma_sides_wf(*n1);
        lemma_sides_wf(*n2);
    }
    let lefts = || -> (v: Result<Vec<SurrealValue>, EvaluationError>)
        requires
            side_wf(n1.l),
            side_wf(n2.l),
            inc_fits(side_model(n1.l), y),
            inc_fits(side_model(n2.l), x),
        ensures
            v is Ok <==> all_num(side_model(n1.l)) && all_num(side_model(n2.l)),
            v matches Ok(w) ==> values_model(w@) == inc_entries(side_model(n1.l), y) + inc_entries(
                side_model(n2.l),
                x,
            ),
            v matches Ok(w) ==> forall|i: int| 0 <= i < w.len() ==> (#[trigger] w[i]).wf(),
            v matches Err(e) ==> e == EvaluationError::NestedGame,
    { increment_both(&n1.l, y, &n2.l, x) };
    let rights = || -> (v: Result<Vec<SurrealValue>, EvaluationError>)
        requires
            side_wf(n1.r),
            side_wf(n2.r),
            inc_fits(side_model(n1.r), x),
            inc_fits(side_model(n2.r), x),
        ensures
            v is Ok <==> all_num(side_model(n1.r)) && all_num(side_model(n2.r)),
            v matches Ok(w) ==> values_model(w@) == inc_entries(side_model(n1.r), x) + inc_entries(
                side_model(n2.r),
                x,
            ),
            v matches Ok(w) ==> forall|i: int| 0 <= i < w.len() ==> (#[trigger] w[i]).wf(),
            v matches Err(e) ==> e == EvaluationError::NestedGame,
    { increment_both(&n1.r, x, &n2.r, x) };
    let (left, right) = rayon::join(lefts, rights);
    match (left, right) {
        (Ok(l), Ok(r)) => {
            let s = Surreal { l: collapse(l), r: collapse(r) };
            proof {
                lemma_from_sides(s);
            }
            Ok(s)
        },
        _ => Err(EvaluationError::NestedGame),
    }
}

/// The sum of two games that stand for numbers: `pdt_add` with the numbers
/// they stand for; `TooComplicated` where either stands for none.
pub fn add(n1: &Surreal, n2: &Surreal) -> (r: Result<Surreal, EvaluationError>)
    requires
        n1.wf(),
        n2.wf(),
        add_fits(n1@, n2@),
    ensures
        r is Ok <==> convert_spec(n1@) is Some && convert_spec(n2@) is Some,
        r matches Ok(s) ==> s@ == pdt_add_spec(
            n1@,
            convert_spec(n1@)->0,
            n2@,
            convert_spec(n2@)->0,
        ) && s.wf(),
        r matches Err(e) ==> e == EvaluationError::TooComplicated,
{
    let x = match convert(n1) {
        Ok(v) => v,
        Err(e) => {
            return Err(e);
        },
    };
    let y = match convert(n2) {
        Ok(v) => v,
        Err(e) => {
            return Err(e);
        },
    };
    proof {
        lemma_convert_flat(n1@);
        lemma_convert_flat(n2@);
    }
    match pdt_add(n1, x, n2, y) {
        Ok(s) => Ok(s),
        Err(_) => Err(EvaluationError::TooComplicated),
    }
}

/// Whether every entry of a side is below `y`: at most `y`, or under it when
/// `strict`. A game entry never is.
fn side_below(o: &Option<Vec<SurrealValue>>, y: Frac, strict: bool) -> (r: bool)
    ensures
        r == (forall|i: int|
            0 <= i < side_model(*o).len() ==> if strict {
                entry_lt_num(#[trigger] side_model(*o)[i], y)
            } else {
                entry_le_num(side_model(*o)[i], y)
            }),
{
    let ghost m = side_model(*o);
    let n = side_len(o);
    let mut i: usize = 0;
    while i < n
        invariant
            n == m.len(),
            m == side_model(*o),
            i <= n,
            forall|j: int|
                0 <= j < i ==> if strict {
                    entry_lt_num(#[trigger] m[j], y)
                } else {
                    entry_le_num(m[j], y)
                },
        decreases n - i,
    {
        let ok = match side_at(o, i) {
            SurrealValue::Leaf(v) => if strict {
                v.lt_frac(&y)
            } else {
                v.le_frac(&y)
            },
            SurrealValue::Nested(_) => false,
        };
        if !ok {
            return false;
        }
        i = i + 1;
    }
    true
}

/// Whether `x` is below every entry of a side: at most it, or under it when
/// `strict`. Every game entry is above any number.
fn side_above(x: Frac, o: &Option<Vec<SurrealValue>>, strict: bool) -> (r: bool)
    ensures
        r == (forall|i: int|
            0 <= i < side_model(*o).len() ==> if strict {
                num_lt_entry(x, #[trigger] side_model(*o)[i])
            } else {
                num_le_entry(x, side_model(*o)[i])
            }),
{
    let ghost m = side_model(*o);
    let n = side_len(o);
    let mut i: usize = 0;
    while i < n
        invariant
            n == m.len(),
            m == side_model(*o),
            i <= n,
            forall|j: int|
                0 <= j < i ==> if strict {
                    num_lt_entry(x, #[trigger] m[j])
                } else {
                    num_le_entry(x, m[j])
                },
        decreases n - i,
    {
        let ok = match side_at(o, i) {
            SurrealValue::Leaf(v) => if strict {
                x.lt_frac(v)
            } else {
                x.le_frac(v)
            },
            SurrealValue::Nested(_) => true,
        };
        if !ok {
            return false;
        }
        i = i + 1;
    }
    true
}

/// Shared body of `le` and `lt`: the two checks run in parallel.
fn order(n1: &Surreal, n2: &Surreal, strict: bool) -> (r: Result<bool, EvaluationError>)
    requires
        n1.wf(),
        n2.wf(),
        convert_fits(n1@),
        convert_fits(n2@),
    ensures
        r is Ok <==> convert_spec(n1@) is Some && convert_spec(n2@) is Some,
        r matches Ok(b) ==> b == if strict {
            lt_spec(n1@, convert_spec(n1@)->0, n2@, convert_spec(n2@)->0)
        } else {
            le_spec(n1@, convert_spec(n1@)->0, n2@, convert_spec(n2@)->0)
        },
        r matches Err(e) ==> e == EvaluationError::TooComplicated,
{
    let x = match convert(n1) {
        Ok(v) => v,
        Err(e) => {
            return Err(e);
        },
    };
    let y = match convert(n2) {
        Ok(v) => v,
        Err(e) => {
            return Err(e);
        },
    };
    let check_left = || -> (b: bool)
        ensures
            b == (forall|i: int|
                0 <= i < side_model(n1.l).len() ==> if strict {
                    entry_lt_num(#[trigger] side_model(n1.l)[i], y)
                } else {
                    entry_le_num(side_model(n1.l)[i], y)
                }),
    { side_below(&n1.l, y, strict) };
    let check_right = || -> (b: bool)
        ensures
            b == (forall|i: int|
                0 <= i < side_model(n2.r).len() ==> if strict {
                    num_lt_entry(x, #[trigger] side_model(n2.r)[i])
                } else {
                    num_le_entry(x, side_model(n2.r)[i])
                }),
    { side_above(x, &n2.r, strict) };
    let (a, b) = rayon::join(check_left, check_right);
    Ok(a && b)
}

/// `n1 <= n2` for games that stand for numbers `x` and `y`: every left entry
/// of `n1` is at most `y`, and `x` is at most every right entry of `n2`.
/// `TooComplicated` where either stands for no number.
pub fn le(n1: &Surreal, n2: &Surreal) -> (r: Result<bool, EvaluationError>)
    requires
        n1.wf(),
        n2.wf(),
        convert_fits(n1@),
        convert_fits(n2@),
    ensures
        r is Ok <==> convert_spec(n1@) is Some && convert_spec(n2@) is Some,
        r matches Ok(b) ==> b == le_spec(n1@, convert_spec(n1@)->0, n2@, convert_spec(n2@)->0),
        r matches Err(e) ==> e == EvaluationError::TooComplicated,
{
    order(n1, n2, false)
}

/// `n1 >= n2`, that is `n2 <= n1`.
pub fn ge(n1: &Surreal, n2: &Surreal) -> (r: Result<bool, EvaluationError>)
    requires
        n1.wf(),
        n2.wf(),
        convert_fits(n1@),
        convert_fits(n2@),
    ensures
        r is Ok <==> convert_spec(n1@) is Some && convert_spec(n2@) is Some,
        r matches Ok(b) ==> b == le_spec(n2@, convert_spec(n2@)->0, n1@, convert_spec(n1@)->0),
        r matches Err(e) ==> e == EvaluationError::TooComplicated,
{
    le(n2, n1)
}

/// `n1 < n2`: `le` with every comparison strict.
pub fn lt(n1: &Surreal, n2: &Surreal) -> (r: Result<bool, EvaluationError>)
    requires
        n1.wf(),
        n2.wf(),
        convert_fits(n1@),
        convert_fits(n2@),
    ensures
        r is Ok <==> convert_spec(n1@) is Some && convert_spec(n2@) is Some,
        r matches Ok(b) ==> b == lt_spec(n1@, convert_spec(n1@)->0, n2@, convert_spec(n2@)->0),
        r matches Err(e) ==> e == EvaluationError::TooComplicated,
{
    order(n1, n2, true)
}

/// `n1 > n2`, that is `n2 < n1`.
pub fn gt(n1: &Surreal, n2: &Surreal) -> (r: Result<bool, EvaluationError>)
    requires
        n1.wf(),
        n2.wf(),
        convert_fits(n1@),
        convert_fits(n2@),
    ensures
        r is Ok <==> convert_spec(n1@) is Some && convert_spec(n2@) is Some,
        r matches Ok(b) ==> b == lt_spec(n2@, convert_spec(n2@)->0, n1@, convert_spec(n1@)->0),
        r matches Err(e) ==> e == EvaluationError::TooComplicated,
{
    lt(n2, n1)
}

/// Deep equality of two entries: numbers by value, games side by side and
/// entry by entry.
fn same_entry(x: &SurrealValue, y: &SurrealValue) -> (r: bool)
    ensures
        r == entry_same(x@, y@),
    decreases x,
{
    match x {
        SurrealValue::Leaf(a) => match y {
            SurrealValue::Leaf(b) => *a == *b,
            SurrealValue::Nested(_) => false,
        },
        SurrealValue::Nested(s1) => match y {
            SurrealValue::Leaf(_) => false,
            SurrealValue::Nested(s2) => same_surreal(s1, s2),
        },
    }
}

fn same_surreal(a: &Surreal, b: &Surreal) -> (r: bool)
    ensures
        r == game_same(a@, b@),
    decreases a,
{
    same_side(&a.l, &b.l) && same_side(&a.r, &b.r)
}

fn same_side(o1: &Option<Vec<SurrealValue>>, o2: &Option<Vec<SurrealValue>>) -> (r: bool)
    ensures
        r == (side_model(*o1).len() == side_model(*o2).len() && forall|i: int|
            0 <= i < side_model(*o1).len() ==> entry_same(
                #[trigger] side_model(*o1)[i],
                side_model(*o2)[i],
            )),
    decreases o1,
{
    let ghost m1 = side_model(*o1);
    let ghost m2 = side_model(*o2);
    let n = side_len(o1);
    if n != side_len(o2) {
        return false;
    }
    let mut i: usize = 0;
    while i < n
        invariant
            n == m1.len(),
            n == m2.len(),
            m1 == side_model(*o1),
            m2 == side_model(*o2),
            i <= n,
            forall|j: int| 0 <= j < i ==> entry_same(#[trigger] m1[j], m2[j]),
        decreases n - i,
    {
        let x = side_at(o1, i);
        proof {
            assert(decreases_to!(*o1 => o1->0));
            assert(decreases_to!(o1->0 => o1->0[i as int]));
        }
        if !same_entry(x, side_at(o2, i)) {
            return false;
        }
        i = i + 1;
    }
    true
}

/// Whether some entry of a side is deeply equal to `x`.
fn side_has(x: &SurrealValue, o: &Option<Vec<SurrealValue>>) -> (r: bool)
    ensures
        r == has_same(x@, side_model(*o)),
{
    let ghost m = side_model(*o);
    let n = side_len(o);
    let mut i: usize = 0;
    while i < n
        invariant
            n == m.len(),
            m == side_model(*o),
            i <= n,
            forall|j: int| 0 <= j < i ==> !entry_same(x@, #[trigger] m[j]),
        decreases n - i,
    {
        if same_entry(x, side_at(o, i)) {
            return true;
        }
        i = i + 1;
    }
    false
}

/// Whether every entry of `o1` has a deeply equal entry in `o2`.
fn side_contained(o1: &Option<Vec<SurrealValue>>, o2: &Option<Vec<SurrealValue>>) -> (r: bool)
    ensures
        r == contained(side_model(*o1), side_model(*o2)),
{
    let ghost m = side_model(*o1);
    let n = side_len(o1);
    let mut i: usize = 0;
    while i < n
        invariant
            n == m.len(),
            m == side_model(*o1),
            i <= n,
            forall|j: int| 0 <= j < i ==> has_same(#[trigger] m[j], side_model(*o2)),
        decreases n - i,
    {
        if !side_has(side_at(o1, i), o2) {
            return false;
        }
        i = i + 1;
    }
    true
}

/// Equality as containment both ways: every entry of each side of `n1` has a
/// deeply equal entry on the same side of `n2`, and the other way round.
pub fn eq(n1: &Surreal, n2: &Surreal) -> (r: bool)
    ensures
        r == eq_spec(n1@, n2@),
{
    side_contained(&n1.l, &n2.l) && side_contained(&n2.l, &n1.l) && side_contained(&n1.r, &n2.r)
        && side_contained(&n2.r, &n1.r)
}

/// `n1` where `comparator` holds of `n1` and `n2`, else `n2`; a copy either
/// way.
pub fn compare<F>(n1: &Surreal, n2: &Surreal, comparator: F) -> (r: Surreal)
    where
        F: Fn(&Surreal, &Surreal) -> bool,
    requires
        comparator.requires((n1, n2)),
    ensures
        (comparator.ensures((n1, n2), true) && r@ == n1@) || (comparator.ensures((n1, n2), false)
            && r@ == n2@),
        n1.wf() && n2.wf() ==> r.wf(),
{
    if comparator(n1, n2) {
        n1.clone()
    } else {
        n2.clone()
    }
}

} // verus!
