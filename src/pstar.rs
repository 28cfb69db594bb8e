//! Nimbers: the games `*n`, built in full or written compactly.
use vstd::prelude::*;
use crate::frac::Frac;
use crate::model::{Entry, Game, eq_spec, int_frac, lemma_eq_reflexive};
use crate::notation::{digits_value, is_digit, lemma_digits_push, read_digits, text_chars};
use crate::surreal::{
    Surreal,
    SurrealValue,
    append,
    collapse,
    lemma_from_sides,
    lemma_values_model,
    side_model,
    values_model,
};
use crate::text::{digit_char, int_text, nat_text, push_int, push_nat};

verus! {

/// An entry of a compact nimber, in the model.
pub enum StarItem {
    Label(Seq<char>),
    Leaf(i32),
}

/// A compact nimber in the model.
pub struct StarModel {
    pub left: Seq<StarItem>,
    pub right: Seq<StarItem>,
}

/// An entry of a compact nimber: a label `*k` that stands for the nimber
/// `*k`, or an integer.
#[derive(Debug, Clone, PartialEq, Eq)]
pub enum StarValue {
    Label(String),
    Leaf(i32),
}

/// A nimber written compactly: flat sides whose labels stand for smaller
/// nimbers.
#[derive(Debug, Clone, PartialEq, Eq)]
pub struct PStar {
    pub l: Vec<StarValue>,
    pub r: Vec<StarValue>,
}

impl View for StarValue {
    type V = StarItem;

    open spec fn view(&self) -> StarItem {
        match self {
            StarValue::Label(s) => StarItem::Label(s@),
            StarValue::Leaf(i) => StarItem::Leaf(*i),
        }
    }
}

impl View for PStar {
    type V = StarModel;

    open spec fn view(&self) -> StarModel {
        StarModel {
            left: self.l@.map_values(|x: StarValue| x@),
            right: self.r@.map_values(|x: StarValue| x@),
        }
    }
}

/// `{ 0 | 0 }`, the nimber `*1`.
pub open spec fn star_seed() -> Game {
    Game { left: seq![Entry::Num(int_frac(0))], right: seq![Entry::Num(int_frac(0))] }
}

/// The nimber `*n`: `*1` is `{ 0 | 0 }`, and `*(k+1)` is `*k` with `*k`
/// itself added at the end of both sides.
pub open spec fn star_game(n: nat) -> Game
    decreases n,
{
    if n <= 1 {
        star_seed()
    } else {
        let p = star_game((n - 1) as nat);
        Game { left: p.left.push(Entry::Sub(p)), right: p.right.push(Entry::Sub(p)) }
    }
}

/// The label that stands for `*k`.
pub open spec fn star_label(k: nat) -> Seq<char> {
    seq!['*'] + nat_text(k)
}

/// One side of the compact `*n`: `0`, then the labels `*1` to `*(n-1)`.
pub open spec fn pretty_items(n: nat) -> Seq<StarItem> {
    Seq::new(n, |k: int| pretty_item(k))
}

/// Entry `k` of a side of a compact nimber.
pub open spec fn pretty_item(k: int) -> StarItem {
    if k == 0 {
        StarItem::Leaf(0)
    } else {
        StarItem::Label(star_label(k as nat))
    }
}

/// The compact `*n`.
pub open spec fn pretty_model(n: nat) -> StarModel {
    StarModel { left: pretty_items(n), right: pretty_items(n) }
}

/// A label `*` or `*k`, with `k` written in decimal digits and between one
/// and `i32::MAX`.
pub open spec fn label_ok(s: Seq<char>) -> bool {
    &&& s.len() >= 1
    &&& s[0] == '*'
    &&& s.len() > 1 ==> {
        &&& forall|j: int| 1 <= j < s.len() ==> is_digit(#[trigger] s[j])
        &&& 1 <= digits_value(s.subrange(1, s.len() as int)) <= i32::MAX
    }
}

/// The `k` of a label: one for `*`.
pub open spec fn label_number(s: Seq<char>) -> int {
    if s.len() <= 1 {
        1
    } else {
        digits_value(s.subrange(1, s.len() as int))
    }
}

pub open spec fn item_ok(x: StarItem) -> bool {
    match x {
        StarItem::Label(s) => label_ok(s),
        StarItem::Leaf(_) => true,
    }
}

/// Every label of the sides is well formed.
pub open spec fn star_model_ok(m: StarModel) -> bool {
    &&& forall|i: int| 0 <= i < m.left.len() ==> item_ok(#[trigger] m.left[i])
    &&& forall|i: int| 0 <= i < m.right.len() ==> item_ok(#[trigger] m.right[i])
}

/// An entry in full: a label `*k` becomes the nimber `*k`, an integer the
/// number.
pub open spec fn expand_item(x: StarItem) -> Entry {
    match x {
        StarItem::Label(s) => Entry::Sub(star_game(label_number(s) as nat)),
        StarItem::Leaf(i) => Entry::Num(int_frac(i as int)),
    }
}

pub open spec fn expand_items(s: Seq<StarItem>) -> Seq<Entry> {
    s.map_values(|x: StarItem| expand_item(x))
}

/// A compact nimber in full.
pub open spec fn expand_model(m: StarModel) -> Game {
    Game { left: expand_items(m.left), right: expand_items(m.right) }
}

/// The nimber `*n`, for `n >= 1`: from `{ 0 | 0 }`, `n - 1` times the game
/// so far is added, as an entry, at the end of both its sides.
pub fn star(n: i32) -> (r: Surreal)
    requires
        n >= 1,
    ensures
        r@ == star_game(n as nat),
        r.wf(),
{
    let mut acc = Surreal {
        l: Some(vec![SurrealValue::Leaf(Frac { numer: 0, denom: 1 })]),
        r: Some(vec![SurrealValue::Leaf(Frac { numer: 0, denom: 1 })]),
    };
    proof {
        lemma_values_model(acc.l->0@);
        lemma_values_model(acc.r->0@);
        assert(acc@.left =~= star_seed().left);
        assert(acc@.right =~= star_seed().right);
        assert(acc.l->0[0].wf());
        assert(acc.r->0[0].wf());
    }
    let mut k: i32 = 1;
    while k < n
        invariant
            1 <= k <= n,
            acc@ == star_game(k as nat),
            acc.wf(),
        decreases n - k,
    {
        let left_copy = acc.clone();
        let right_copy = acc.clone();
        append(&mut acc, SurrealValue::Nested(left_copy), true);
        append(&mut acc, SurrealValue::Nested(right_copy), false);
        k = k + 1;
    }
    acc
}

/// The nimber of the Nim-sum: `*(n1 ^ n2)`.
pub fn astar(n1: i32, n2: i32) -> (r: Surreal)
    requires
        n1 ^ n2 >= 1,
    ensures
        r@ == star_game((n1 ^ n2) as nat),
        r.wf(),
{
    star(n1 ^ n2)
}

/// The label `*k`.
fn label_text(k: i32) -> (r: String)
    requires
        k >= 0,
    ensures
        r@ == star_label(k as nat),
{
    let mut s = String::new();
    s.push('*');
    push_nat(&mut s, k as u64);
    proof {
        assert(s@ =~= star_label(k as nat));
    }
    s
}

/// The compact `*n`, for `n >= 1`: both sides `0, *1, ..., *(n-1)`.
pub fn pretty_star(n: i32) -> (r: PStar)
    requires
        n >= 1,
    ensures
        r@ == pretty_model(n as nat),
{
    let mut l = vec![StarValue::Leaf(0)];
    let mut r = vec![StarValue::Leaf(0)];
    let mut current: i32 = 1;
    while current < n
        invariant
            1 <= current <= n,
            l.len() == current,
            r.len() == current,
            forall|j: int| 0 <= j < current ==> (#[trigger] l@[j])@ == pretty_item(j),
            forall|j: int| 0 <= j < current ==> (#[trigger] r@[j])@ == pretty_item(j),
        decreases n - current,
    {
        l.push(StarValue::Label(label_text(current)));
        r.push(StarValue::Label(label_text(current)));
        current = current + 1;
    }
    let p = PStar { l, r };
    proof {
        assert(p@.left =~= pretty_items(n as nat));
        assert(p@.right =~= pretty_items(n as nat));
    }
    p
}

/// The compact nimber of the Nim-sum: `pretty_star(n1 ^ n2)`.
pub fn pretty_astar(n1: i32, n2: i32) -> (r: PStar)
    requires
        n1 ^ n2 >= 1,
    ensures
        r@ == pretty_model((n1 ^ n2) as nat),
{
    pretty_star(n1 ^ n2)
}

/// An entry in full.
fn star_to_surreal(value: &StarValue) -> (r: SurrealValue)
    requires
        item_ok(value@),
    ensures
        r@ == expand_item(value@),
        r.wf(),
{
    match value {
        StarValue::Label(s) => {
            let t = text_chars(s.as_str());
            if t.len() == 1 {
                SurrealValue::Nested(star(1))
            } else {
                proof {
                    assert(Seq::<char>::empty() + t@.subrange(1, t.len() as int) =~= t@.subrange(
                        1,
                        t.len() as int,
                    ));
                }
                match read_digits(&t, 1, t.len(), 0, Ghost(Seq::empty())) {
                    Some(k) => SurrealValue::Nested(star(k as i32)),
                    None => {
                        proof {
                            assert(false);
                        }
                        SurrealValue::Nested(star(1))
                    },
                }
            }
        },
        StarValue::Leaf(i) => SurrealValue::Leaf(Frac { numer: *i as i64, denom: 1 }),
    }
}

/// The entries of one side in full.
fn map_to_surreal(values: &[StarValue]) -> (r: Vec<SurrealValue>)
    requires
        forall|i: int| 0 <= i < values@.len() ==> item_ok(#[trigger] values@[i]@),
    ensures
        values_model(r@) == expand_items(values@.map_values(|x: StarValue| x@)),
        forall|i: int| 0 <= i < r.len() ==> (#[trigger] r[i]).wf(),
{
    let mut out: Vec<SurrealValue> = Vec::new();
    let mut i: usize = 0;
    while i < values.len()
        invariant
            forall|j: int| 0 <= j < values@.len() ==> item_ok(#[trigger] values@[j]@),
            i <= values.len(),
            out.len() == i,
            forall|j: int| 0 <= j < i ==> (#[trigger] out[j])@ == expand_item(values@[j]@),
            forall|j: int| 0 <= j < i ==> (#[trigger] out[j]).wf(),
        decreases values.len() - i,
    {
        out.push(star_to_surreal(&values[i]));
        i = i + 1;
    }
    proof {
        lemma_values_model(out@);
        assert(values_model(out@) =~= expand_items(values@.map_values(|x: StarValue| x@)));
    }
    out
}

/// A compact nimber in full: each label `*k` becomes the nimber `*k`, each
/// integer the number; an empty side comes out absent. The sides are
/// expanded in parallel.
pub fn expand_pstar(star: PStar) -> (r: Surreal)
    requires
        star_model_ok(star@),
    ensures
        r@ == expand_model(star@),
        r.wf(),
{
    let ghost m = star@;
    assert forall|i: int| 0 <= i < star.l@.len() implies item_ok(#[trigger] star.l@[i]@) by {
        assert(m.left[i] == star.l@[i]@);
    }
    assert forall|i: int| 0 <= i < star.r@.len() implies item_ok(#[trigger] star.r@[i]@) by {
        assert(m.right[i] == star.r@[i]@);
    }
    let left = || -> (v: Option<Vec<SurrealValue>>)
        requires
            forall|i: int| 0 <= i < star.l@.len() ==> item_ok(#[trigger] star.l@[i]@),
        ensures
            side_model(v) == expand_items(star.l@.map_values(|x: StarValue| x@)),
            crate::surreal::side_wf(v),
    { collapse(map_to_surreal(star.l.as_slice())) };
    let right = || -> (v: Option<Vec<SurrealValue>>)
        requires
            forall|i: int| 0 <= i < star.r@.len() ==> item_ok(#[trigger] star.r@[i]@),
        ensures
            side_model(v) == expand_items(star.r@.map_values(|x: StarValue| x@)),
            crate::surreal::side_wf(v),
    { collapse(map_to_surreal(star.r.as_slice())) };
    let (l, r) = rayon::join(left, right);
    let s = Surreal { l, r };
    proof {
        lemma_from_sides(s);
    }
    s
}

/// Entry `k` of a side of `*n`, for `k < n`.
pub open spec fn star_entry(k: int) -> Entry {
    if k == 0 {
        Entry::Num(int_frac(0))
    } else {
        Entry::Sub(star_game(k as nat))
    }
}

/// Both sides of `*n` are `0, *1, ..., *(n-1)`.
pub proof fn lemma_star_sides(n: nat)
    requires
        n >= 1,
    ensures
        star_game(n).left == Seq::new(n, |k: int| star_entry(k)),
        star_game(n).right == Seq::new(n, |k: int| star_entry(k)),
    decreases n,
{
    if n == 1 {
        assert(star_game(n).left =~= Seq::new(n, |k: int| star_entry(k)));
        assert(star_game(n).right =~= Seq::new(n, |k: int| star_entry(k)));
    } else {
        lemma_star_sides((n - 1) as nat);
        assert(star_game(n).left =~= Seq::new(n, |k: int| star_entry(k)));
        assert(star_game(n).right =~= Seq::new(n, |k: int| star_entry(k)));
    }
}

/// Decimal text is made of digits and reads back as the number written.
pub proof fn lemma_nat_text(k: nat)
    ensures
        nat_text(k).len() >= 1,
        forall|j: int| 0 <= j < nat_text(k).len() ==> is_digit(#[trigger] nat_text(k)[j]),
        digits_value(nat_text(k)) == k,
    decreases k,
{
    if k < 10 {
        let x = Seq::<char>::empty();
        assert(nat_text(k) =~= x.push(digit_char(k as int)));
        lemma_digits_push(x, digit_char(k as int));
    } else {
        lemma_nat_text(k / 10);
        lemma_digits_push(nat_text(k / 10), digit_char((k % 10) as int));
    }
}

/// The label written for `*k` reads back as `k`.
pub proof fn lemma_label(k: nat)
    requires
        1 <= k <= i32::MAX,
    ensures
        label_ok(star_label(k)),
        label_number(star_label(k)) == k,
{
    lemma_nat_text(k);
    let s = star_label(k);
    assert(s.subrange(1, s.len() as int) =~= nat_text(k));
    assert forall|j: int| 1 <= j < s.len() implies is_digit(#[trigger] s[j]) by {
        assert(s[j] == nat_text(k)[j - 1]);
    }
}

/// The compact `*n`, written in full, is `*n` itself; so the two are equal
/// under `eq`.
pub proof fn lemma_expand_pretty_star(n: nat)
    requires
        1 <= n <= i32::MAX,
    ensures
        expand_model(pretty_model(n)) == star_game(n),
        eq_spec(expand_model(pretty_model(n)), star_game(n)),
{
    lemma_star_sides(n);
    assert forall|k: int| 0 <= k < n implies expand_item(#[trigger] pretty_items(n)[k])
        == star_entry(k) by {
        if k > 0 {
            lemma_label(k as nat);
        }
    }
    assert(expand_items(pretty_items(n)) =~= star_game(n).left);
    assert(expand_items(pretty_items(n)) =~= star_game(n).right);
    lemma_eq_reflexive(star_game(n));
}

/// An entry as text: a label as it is, an integer in decimal.
pub open spec fn item_text(x: StarItem) -> Seq<char> {
    match x {
        StarItem::Label(s) => s,
        StarItem::Leaf(i) => int_text(i as int),
    }
}

/// Entries as text, joined by `, `.
pub open spec fn items_text(s: Seq<StarItem>) -> Seq<char>
    decreases s.len(),
{
    if s.len() == 0 {
        Seq::empty()
    } else if s.len() == 1 {
        item_text(s[0])
    } else {
        items_text(s.subrange(0, s.len() - 1)) + seq![',', ' '] + item_text(s[s.len() - 1])
    }
}

/// A compact nimber as text: `{ L | R }`.
pub open spec fn pstar_text(m: StarModel) -> Seq<char> {
    seq!['{', ' '] + items_text(m.left) + seq![' ', '|', ' '] + items_text(m.right) + seq![' ', '}']
}

fn push_item(s: &mut String, x: &StarValue)
    ensures
        final(s)@ == old(s)@ + item_text(x@),
{
    match x {
        StarValue::Label(label) => {
            let ghost start = s@;
            let t = text_chars(label.as_str());
            let mut i: usize = 0;
            while i < t.len()
                invariant
                    i <= t.len(),
                    t@ == label@,
                    s@ == start + t@.subrange(0, i as int),
                decreases t.len() - i,
            {
                s.push(t[i]);
                proof {
                    assert(t@.subrange(0, i + 1) =~= t@.subrange(0, i as int).push(t@[i as int]));
                }
                i = i + 1;
            }
            proof {
                assert(t@.subrange(0, t.len() as int) =~= t@);
            }
        },
        StarValue::Leaf(v) => push_int(s, *v as i64),
    }
}

fn push_items(s: &mut String, v: &Vec<StarValue>)
    ensures
        final(s)@ == old(s)@ + items_text(v@.map_values(|x: StarValue| x@)),
{
    let ghost start = s@;
    let ghost m = v@.map_values(|x: StarValue| x@);
    let mut i: usize = 0;
    proof {
        assert(m.subrange(0, 0) =~= Seq::<StarItem>::empty());
        assert(s@ =~= start + items_text(m.subrange(0, 0)));
    }
    while i < v.len()
        invariant
            m == v@.map_values(|x: StarValue| x@),
            i <= v.len(),
            s@ == start + items_text(m.subrange(0, i as int)),
        decreases v.len() - i,
    {
        if i > 0 {
            s.push(',');
            s.push(' ');
        }
        push_item(s, &v[i]);
        proof {
            let p = m.subrange(0, i + 1);
            assert(p.subrange(0, i as int) =~= m.subrange(0, i as int));
            assert(p[i as int] == v@[i as int]@);
            assert(s@ =~= start + items_text(p));
        }
        i = i + 1;
    }
    proof {
        assert(m.subrange(0, v.len() as int) =~= m);
    }
}

impl PStar {
    /// The compact nimber as text: `{ L | R }`, each side its entries joined
    /// by `, `.
    pub fn to_string(&self) -> (r: String)
        ensures
            r@ == pstar_text(self@),
    {
        let mut s = String::new();
        s.push('{');
        s.push(' ');
        push_items(&mut s, &self.l);
        s.push(' ');
        s.push('|');
        s.push(' ');
        push_items(&mut s, &self.r);
        s.push(' ');
        s.push('}');
        proof {
            assert(s@ =~= pstar_text(self@));
        }
        s
    }
}

} // verus!
