//! The mathematical model of a game: two sequences of entries, each entry a
//! number or a game.
use vstd::prelude::*;
use crate::frac::{Frac, add_spec, le_value, lt_value, same_value, sum_fits};

verus! {

/// One option of a game, in the model.
pub enum Entry {
    Num(Frac),
    Sub(Game),
}

/// A game in the model: its left and right options, in order. An absent side
/// is the empty sequence.
pub struct Game {
    pub left: Seq<Entry>,
    pub right: Seq<Entry>,
}

/// Every number that occurs in the game, at any depth, is well formed.
pub open spec fn game_ok(g: Game) -> bool
    decreases g,
{
    &&& forall|i: int| 0 <= i < g.left.len() ==> entry_ok(#[trigger] g.left[i])
    &&& forall|i: int| 0 <= i < g.right.len() ==> entry_ok(#[trigger] g.right[i])
}

/// Every entry of `s` is well formed.
pub open spec fn entries_ok(s: Seq<Entry>) -> bool {
    forall|i: int| 0 <= i < s.len() ==> entry_ok(#[trigger] s[i])
}

pub open spec fn entry_ok(e: Entry) -> bool
    decreases e,
{
    match e {
        Entry::Num(f) => f.wf(),
        Entry::Sub(g) => game_ok(g),
    }
}

/// The negation of a game: sides swapped, every entry negated.
pub open spec fn neg_game(g: Game) -> Game
    decreases g,
{
    Game { left: neg_entries(g.right), right: neg_entries(g.left) }
}

/// Each entry of `s` negated, in order.
pub open spec fn neg_entries(s: Seq<Entry>) -> Seq<Entry>
    decreases s,
{
    if s.len() == 0 {
        Seq::empty()
    } else {
        neg_entries(s.subrange(0, s.len() - 1)).push(neg_entry(s[s.len() - 1]))
    }
}

pub open spec fn neg_entry(e: Entry) -> Entry
    decreases e,
{
    match e {
        Entry::Num(f) => Entry::Num(f.neg_spec()),
        Entry::Sub(g) => Entry::Sub(neg_game(g)),
    }
}

pub proof fn lemma_neg_entries(s: Seq<Entry>)
    ensures
        neg_entries(s).len() == s.len(),
        forall|i: int| 0 <= i < s.len() ==> #[trigger] neg_entries(s)[i] == neg_entry(s[i]),
    decreases s.len(),
{
    if s.len() > 0 {
        lemma_neg_entries(s.subrange(0, s.len() - 1));
    }
}

/// Negating twice gives back the game one started from.
pub proof fn lemma_negate_involutive(g: Game)
    requires
        game_ok(g),
    ensures
        neg_game(neg_game(g)) == g,
    decreases g,
{
    lemma_neg_neg_entries(g.left);
    lemma_neg_neg_entries(g.right);
}

proof fn lemma_neg_neg_entries(s: Seq<Entry>)
    requires
        entries_ok(s),
    ensures
        neg_entries(neg_entries(s)) == s,
    decreases s,
{
    lemma_neg_entries(s);
    lemma_neg_entries(neg_entries(s));
    assert forall|i: int| 0 <= i < s.len() implies neg_entries(neg_entries(s))[i] == s[i] by {
        assert(decreases_to!(s => s[i]));
        match s[i] {
            Entry::Num(f) => {
                assert(f.wf());
            },
            Entry::Sub(g) => {
                lemma_negate_involutive(g);
            },
        }
    }
    assert(neg_entries(neg_entries(s)) =~= s);
}

/// The fraction `k / 1`.
pub open spec fn int_frac(k: int) -> Frac {
    Frac { numer: k as i64, denom: 1 }
}

/// The number that a simple game stands for: zero for `{ | }`, `v + 1` for
/// `{ v | }` and `v - 1` for `{ | v }` with `v` a number. Other games stand for
/// none.
pub open spec fn convert_spec(g: Game) -> Option<Frac> {
    if g.left.len() == 0 && g.right.len() == 0 {
        Some(int_frac(0))
    } else if g.left.len() == 0 && g.right.len() == 1 && g.right[0] is Num {
        Some(add_spec(g.right[0]->Num_0, int_frac(-1)))
    } else if g.right.len() == 0 && g.left.len() == 1 && g.left[0] is Num {
        Some(add_spec(g.left[0]->Num_0, int_frac(1)))
    } else {
        None
    }
}

/// The sum that `convert_spec` takes stays within 64 bits.
pub open spec fn convert_fits(g: Game) -> bool {
    &&& (g.left.len() == 0 && g.right.len() == 1 && g.right[0] is Num) ==> sum_fits(
        g.right[0]->Num_0,
        int_frac(-1),
    )
    &&& (g.right.len() == 0 && g.left.len() == 1 && g.left[0] is Num) ==> sum_fits(
        g.left[0]->Num_0,
        int_frac(1),
    )
}

/// Every entry of `s` is a number.
pub open spec fn all_num(s: Seq<Entry>) -> bool {
    forall|i: int| 0 <= i < s.len() ==> (#[trigger] s[i]) is Num
}

/// A number entry moved up by `x`; a game entry is left as it is.
pub open spec fn inc_entry(e: Entry, x: Frac) -> Entry {
    match e {
        Entry::Num(v) => Entry::Num(add_spec(v, x)),
        Entry::Sub(g) => Entry::Sub(g),
    }
}

/// Each entry of `s` moved up by `x`, in order.
pub open spec fn inc_entries(s: Seq<Entry>, x: Frac) -> Seq<Entry> {
    s.map_values(|e: Entry| inc_entry(e, x))
}

/// Moving each number of `s` up by `x` stays within 64 bits.
pub open spec fn inc_fits(s: Seq<Entry>, x: Frac) -> bool {
    forall|i: int| 0 <= i < s.len() && (#[trigger] s[i]) is Num ==> sum_fits(s[i]->Num_0, x)
}

/// The sum of `a` (standing for `x`) and `b` (standing for `y`): on the left
/// the left entries of `a` moved up by `y`, then those of `b` moved up by `x`;
/// on the right the right entries of `a`, then those of `b`, each moved up by
/// `x`.
pub open spec fn pdt_add_spec(a: Game, x: Frac, b: Game, y: Frac) -> Game {
    Game {
        left: inc_entries(a.left, y) + inc_entries(b.left, x),
        right: inc_entries(a.right, x) + inc_entries(b.right, x),
    }
}

/// The sums that `pdt_add_spec` takes stay within 64 bits.
pub open spec fn pdt_add_fits(a: Game, x: Frac, b: Game, y: Frac) -> bool {
    &&& inc_fits(a.left, y)
    &&& inc_fits(b.left, x)
    &&& inc_fits(a.right, x)
    &&& inc_fits(b.right, x)
}

/// The sums that adding `a` and `b` takes stay within 64 bits.
pub open spec fn add_fits(a: Game, b: Game) -> bool {
    &&& convert_fits(a)
    &&& convert_fits(b)
    &&& (convert_spec(a) is Some && convert_spec(b) is Some) ==> pdt_add_fits(
        a,
        convert_spec(a)->0,
        b,
        convert_spec(b)->0,
    )
}

/// An entry is at most the number `y`: a number by value, a game never.
pub open spec fn entry_le_num(e: Entry, y: Frac) -> bool {
    match e {
        Entry::Num(v) => le_value(v, y),
        Entry::Sub(_) => false,
    }
}

/// The number `x` is at most an entry: a number by value, a game always.
pub open spec fn num_le_entry(x: Frac, e: Entry) -> bool {
    match e {
        Entry::Num(v) => le_value(x, v),
        Entry::Sub(_) => true,
    }
}

pub open spec fn entry_lt_num(e: Entry, y: Frac) -> bool {
    match e {
        Entry::Num(v) => lt_value(v, y),
        Entry::Sub(_) => false,
    }
}

pub open spec fn num_lt_entry(x: Frac, e: Entry) -> bool {
    match e {
        Entry::Num(v) => lt_value(x, v),
        Entry::Sub(_) => true,
    }
}

/// `a <= b`, where `a` stands for `x` and `b` for `y`: every left entry of `a`
/// is at most `y`, and `x` is at most every right entry of `b`.
pub open spec fn le_spec(a: Game, x: Frac, b: Game, y: Frac) -> bool {
    &&& forall|i: int| 0 <= i < a.left.len() ==> entry_le_num(#[trigger] a.left[i], y)
    &&& forall|j: int| 0 <= j < b.right.len() ==> num_le_entry(x, #[trigger] b.right[j])
}

/// The strict form of `le_spec`.
pub open spec fn lt_spec(a: Game, x: Frac, b: Game, y: Frac) -> bool {
    &&& forall|i: int| 0 <= i < a.left.len() ==> entry_lt_num(#[trigger] a.left[i], y)
    &&& forall|j: int| 0 <= j < b.right.len() ==> num_lt_entry(x, #[trigger] b.right[j])
}

/// Deep equality of entries: numbers by value, games side by side and entry
/// by entry.
pub open spec fn entry_same(e1: Entry, e2: Entry) -> bool
    decreases e1,
{
    match e1 {
        Entry::Num(a) => match e2 {
            Entry::Num(b) => same_value(a, b),
            Entry::Sub(_) => false,
        },
        Entry::Sub(g1) => match e2 {
            Entry::Num(_) => false,
            Entry::Sub(g2) => game_same(g1, g2),
        },
    }
}

pub open spec fn game_same(g1: Game, g2: Game) -> bool
    decreases g1,
{
    &&& g1.left.len() == g2.left.len()
    &&& g1.right.len() == g2.right.len()
    &&& forall|i: int| 0 <= i < g1.left.len() ==> entry_same(#[trigger] g1.left[i], g2.left[i])
    &&& forall|i: int| 0 <= i < g1.right.len() ==> entry_same(#[trigger] g1.right[i], g2.right[i])
}

/// Every entry of `s` has a deeply equal entry in `t`.
pub open spec fn contained(s: Seq<Entry>, t: Seq<Entry>) -> bool {
    forall|i: int| 0 <= i < s.len() ==> has_same(#[trigger] s[i], t)
}

/// Some entry of `t` is deeply equal to `e`.
pub open spec fn has_same(e: Entry, t: Seq<Entry>) -> bool {
    exists|j: int| 0 <= j < t.len() && entry_same(e, #[trigger] t[j])
}

/// Equality as set containment both ways, on each side.
pub open spec fn eq_spec(a: Game, b: Game) -> bool {
    &&& contained(a.left, b.left)
    &&& contained(b.left, a.left)
    &&& contained(a.right, b.right)
    &&& contained(b.right, a.right)
}

/// Deep equality is reflexive.
pub proof fn lemma_entry_same_refl(e: Entry)
    ensures
        entry_same(e, e),
    decreases e,
{
    if let Entry::Sub(g) = e {
        lemma_game_same_refl(g);
    }
}

pub proof fn lemma_game_same_refl(g: Game)
    ensures
        game_same(g, g),
    decreases g,
{
    assert forall|i: int| 0 <= i < g.left.len() implies entry_same(
        #[trigger] g.left[i],
        g.left[i],
    ) by {
        lemma_entry_same_refl(g.left[i]);
    }
    assert forall|i: int| 0 <= i < g.right.len() implies entry_same(
        #[trigger] g.right[i],
        g.right[i],
    ) by {
        lemma_entry_same_refl(g.right[i]);
    }
}

proof fn lemma_contained_refl(s: Seq<Entry>)
    ensures
        contained(s, s),
{
    assert forall|i: int| 0 <= i < s.len() implies has_same(#[trigger] s[i], s) by {
        lemma_entry_same_refl(s[i]);
        assert(0 <= i < s.len() && entry_same(s[i], s[i]));
    }
}

/// Every game is equal to itself.
pub proof fn lemma_eq_reflexive(g: Game)
    ensures
        eq_spec(g, g),
{
    lemma_contained_refl(g.left);
    lemma_contained_refl(g.right);
}

/// A game that stands for a number holds numbers only.
pub proof fn lemma_convert_flat(g: Game)
    requires
        convert_spec(g) is Some,
    ensures
        all_num(g.left),
        all_num(g.right),
{
}

} // verus!
