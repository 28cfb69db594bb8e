//! Reading games from set notation, and writing them back:
//!
//! ```text
//! surreal := '{' [list] '|' [list] '}'
//! list    := item (',' item)*
//! item    := scalar | surreal
//! scalar  := ['+' | '-'] digits ['.' digits]     (at least one digit)
//! ```
//!
//! Whitespace may stand between any two tokens.
use vstd::prelude::*;
use crate::frac::{Frac, reduce_spec};
use crate::text::{MAX_FRACTION_DIGITS, frac_text, pow10, pow10_at, push_frac};
use crate::model::{Entry, Game};
use crate::surreal::{
    Surreal,
    SurrealValue,
    collapse,
    side_at,
    side_len,
    lemma_from_sides,
    lemma_values_model,
    side_model,
    values_model,
};

verus! {

/// Malformed notation: a bad or out-of-range scalar, a missing brace, bar or
/// comma, or text after the closing brace.
#[derive(Debug, Clone, Copy, PartialEq, Eq, Structural)]
pub struct ParseError {
    /// Where in the text, counted in characters, the error was found.
    pub position: usize,
}

pub open spec fn is_ws(c: char) -> bool {
    c == ' ' || c == '\t' || c == '\n' || c == '\r'
}

pub open spec fn is_digit(c: char) -> bool {
    '0' <= c <= '9'
}

pub open spec fn digit_value(c: char) -> int {
    c as int - '0' as int
}

/// The first position at or after `i` that holds no whitespace.
pub open spec fn skip_ws(t: Seq<char>, i: int) -> int
    decreases t.len() - i,
{
    if 0 <= i < t.len() && is_ws(t[i]) {
        skip_ws(t, i + 1)
    } else {
        i
    }
}

/// The first position at or after `i` that holds no digit.
pub open spec fn digits_end(t: Seq<char>, i: int) -> int
    decreases t.len() - i,
{
    if 0 <= i < t.len() && is_digit(t[i]) {
        digits_end(t, i + 1)
    } else {
        i
    }
}

/// The number that a sequence of decimal digits spells.
pub open spec fn digits_value(d: Seq<char>) -> int
    decreases d.len(),
{
    if d.len() == 0 {
        0
    } else {
        10 * digits_value(d.drop_last()) + digit_value(d.last())
    }
}

/// A scalar at `i`: its value and the position after it. The value is the
/// digits before and after the point read as one integer, signed, over ten to
/// the number of digits after the point, reduced. `None` where no digit
/// stands, or where the numerator or denominator leaves 64 bits.
pub open spec fn scalar_spec(t: Seq<char>, i: int) -> Option<(Frac, int)> {
    let neg = 0 <= i < t.len() && t[i] == '-';
    let s = if 0 <= i < t.len() && (t[i] == '-' || t[i] == '+') {
        i + 1
    } else {
        i
    };
    let e1 = digits_end(t, s);
    let dot = e1 < t.len() && t[e1] == '.';
    let f0 = if dot {
        e1 + 1
    } else {
        e1
    };
    let e2 = if dot {
        digits_end(t, f0)
    } else {
        e1
    };
    let digits = t.subrange(s, e1) + t.subrange(f0, e2);
    let mag = digits_value(digits);
    if !(0 <= i <= t.len()) || digits.len() == 0 || mag > i64::MAX || e2 - f0 > MAX_FRACTION_DIGITS {
        None
    } else {
        Some(
            (
                reduce_spec(
                    if neg {
                        -mag
                    } else {
                        mag
                    },
                    pow10((e2 - f0) as nat),
                ),
                e2,
            ),
        )
    }
}

/// An item at `i` (after whitespace): a game or a scalar, and the position
/// after it.
pub open spec fn item_spec(t: Seq<char>, i: int) -> Option<(Entry, int)>
    decreases t.len() - i, 2int
    via item_spec_decreases
{
    let j = skip_ws(t, i);
    if !(0 <= i <= t.len()) {
        None
    } else if j < t.len() && t[j] == '{' {
        match game_spec(t, j) {
            Some((g, k)) => Some((Entry::Sub(g), k)),
            None => None,
        }
    } else {
        match scalar_spec(t, j) {
            Some((v, k)) => Some((Entry::Num(v), k)),
            None => None,
        }
    }
}

/// A game at `i` (after whitespace), and the position after its closing
/// brace.
pub open spec fn game_spec(t: Seq<char>, i: int) -> Option<(Game, int)>
    decreases t.len() - i, 1int
    via game_spec_decreases
{
    let j = skip_ws(t, i);
    if !(0 <= i <= t.len()) || !(j < t.len() && t[j] == '{') {
        None
    } else {
        match list_spec(t, j + 1, '|') {
            // `k > i` always holds; it shows that the text shrinks.
            Some((l, k)) => if k > i && k < t.len() {
                match list_spec(t, k + 1, '}') {
                    Some((r, m)) => if m < t.len() {
                        Some((Game { left: l, right: r }, m + 1))
                    } else {
                        None
                    },
                    None => None,
                }
            } else {
                None
            },
            None => None,
        }
    }
}

/// A possibly empty list at `i`, up to the character `close`: its entries
/// and the position of `close`.
pub open spec fn list_spec(t: Seq<char>, i: int, close: char) -> Option<(Seq<Entry>, int)>
    decreases t.len() - i, 4int
    via list_spec_decreases
{
    let j = skip_ws(t, i);
    if !(0 <= i <= t.len()) {
        None
    } else if j < t.len() && t[j] == close {
        Some((Seq::empty(), j))
    } else {
        items_spec(t, j, close, Seq::empty())
    }
}

/// The items of a non-empty list at `i`, after the entries `acc` read before
/// them: all the entries and the position of `close`.
pub open spec fn items_spec(t: Seq<char>, i: int, close: char, acc: Seq<Entry>) -> Option<
    (Seq<Entry>, int),
>
    decreases t.len() - i, 3int
    via items_spec_decreases
{
    if !(0 <= i <= t.len()) {
        None
    } else {
        match item_spec(t, i) {
            Some((e, k)) => {
                let k2 = skip_ws(t, k);
                // `i <= k <= t.len()` always holds; it shows that the text shrinks.
                if i <= k <= t.len() && k2 < t.len() && t[k2] == ',' {
                    items_spec(t, k2 + 1, close, acc.push(e))
                } else if k2 < t.len() && t[k2] == close {
                    Some((acc.push(e), k2))
                } else {
                    None
                }
            },
            None => None,
        }
    }
}

#[via_fn]
proof fn item_spec_decreases(t: Seq<char>, i: int) {
    if 0 <= i <= t.len() {
        lemma_skip_ws(t, i);
    }
}

#[via_fn]
proof fn game_spec_decreases(t: Seq<char>, i: int) {
    if 0 <= i <= t.len() {
        lemma_skip_ws(t, i);
    }
}

#[via_fn]
proof fn list_spec_decreases(t: Seq<char>, i: int, close: char) {
    if 0 <= i <= t.len() {
        lemma_skip_ws(t, i);
    }
}

#[via_fn]
proof fn items_spec_decreases(t: Seq<char>, i: int, close: char, acc: Seq<Entry>) {
    assert forall|k: int| 0 <= k <= t.len() implies k <= #[trigger] skip_ws(t, k) <= t.len() by {
        lemma_skip_ws(t, k);
    }
}

/// `skip_ws` moves forward over whitespace only, and stays in the text.
pub proof fn lemma_skip_ws(t: Seq<char>, i: int)
    requires
        0 <= i <= t.len(),
    ensures
        i <= skip_ws(t, i) <= t.len(),
        skip_ws(t, i) < t.len() ==> !is_ws(t[skip_ws(t, i)]),
    decreases t.len() - i,
{
    if i < t.len() && is_ws(t[i]) {
        lemma_skip_ws(t, i + 1);
    }
}

/// `digits_end` moves forward over digits only, and stays in the text.
pub proof fn lemma_digits_end(t: Seq<char>, i: int)
    requires
        0 <= i <= t.len(),
    ensures
        i <= digits_end(t, i) <= t.len(),
        digits_end(t, i) < t.len() ==> !is_digit(t[digits_end(t, i)]),
        forall|j: int| i <= j < digits_end(t, i) ==> is_digit(#[trigger] t[j]),
    decreases t.len() - i,
{
    if i < t.len() && is_digit(t[i]) {
        lemma_digits_end(t, i + 1);
    }
}

/// The game that the whole text spells, with nothing but whitespace after
/// it.
pub open spec fn construct_spec(t: Seq<char>) -> Option<Game> {
    match game_spec(t, 0) {
        Some((g, k)) => if skip_ws(t, k) == t.len() {
            Some(g)
        } else {
            None
        },
        None => None,
    }
}

/// Reading one more digit.
pub proof fn lemma_digits_push(x: Seq<char>, c: char)
    ensures
        digits_value(x.push(c)) == 10 * digits_value(x) + digit_value(c),
{
    assert(x.push(c).drop_last() =~= x);
}

/// Digits read after others never make the number smaller.
proof fn lemma_digits_grow(x: Seq<char>, y: Seq<char>)
    requires
        forall|j: int| 0 <= j < x.len() ==> is_digit(#[trigger] x[j]),
        forall|j: int| 0 <= j < y.len() ==> is_digit(#[trigger] y[j]),
    ensures
        0 <= digits_value(x) <= digits_value(x + y),
    decreases y.len(),
{
    if y.len() == 0 {
        assert(x + y =~= x);
        lemma_digits_nonneg(x);
    } else {
        let z = y.drop_last();
        lemma_digits_grow(x, z);
        assert(x + y =~= (x + z).push(y.last()));
        lemma_digits_push(x + z, y.last());
    }
}

proof fn lemma_digits_nonneg(x: Seq<char>)
    requires
        forall|j: int| 0 <= j < x.len() ==> is_digit(#[trigger] x[j]),
    ensures
        digits_value(x) >= 0,
    decreases x.len(),
{
    if x.len() > 0 {
        lemma_digits_nonneg(x.drop_last());
    }
}

/// The characters of a string, one by one.
pub(crate) fn text_chars(s: &str) -> (r: Vec<char>)
    ensures
        r@ == s@,
{
    let mut out: Vec<char> = Vec::new();
    for c in it: s.chars()
        invariant
            out@ == it.seq().subrange(0, it.index() as int),
            it.seq() == s@,
    {
        out.push(c);
    }
    out
}

fn is_ws_char(c: char) -> (r: bool)
    ensures
        r == is_ws(c),
{
    c == ' ' || c == '\t' || c == '\n' || c == '\r'
}

fn skip_ws_at(t: &Vec<char>, i: usize) -> (r: usize)
    requires
        i <= t.len(),
    ensures
        r == skip_ws(t@, i as int),
        i <= r <= t.len(),
{
    let mut j = i;
    while j < t.len() && is_ws_char(t[j])
        invariant
            i <= j <= t.len(),
            skip_ws(t@, j as int) == skip_ws(t@, i as int),
        decreases t.len() - j,
    {
        j = j + 1;
    }
    j
}

fn digits_end_at(t: &Vec<char>, i: usize) -> (r: usize)
    requires
        i <= t.len(),
    ensures
        r == digits_end(t@, i as int),
        i <= r <= t.len(),
{
    let mut j = i;
    while j < t.len() && '0' <= t[j] && t[j] <= '9'
        invariant
            i <= j <= t.len(),
            digits_end(t@, j as int) == digits_end(t@, i as int),
        decreases t.len() - j,
    {
        j = j + 1;
    }
    j
}

/// Reads the digits `t[from..to]` after the number `start`, failing where the
/// result leaves 64 bits.
pub(crate) fn read_digits(t: &Vec<char>, from: usize, to: usize, start: i64, Ghost(before): Ghost<Seq<char>>) -> (r:
    Option<i64>)
    requires
        from <= to <= t.len(),
        forall|j: int| from <= j < to ==> is_digit(#[trigger] t@[j]),
        forall|j: int| 0 <= j < before.len() ==> is_digit(#[trigger] before[j]),
        start == digits_value(before),
    ensures
        r matches Some(v) ==> v == digits_value(before + t@.subrange(from as int, to as int)) && v
            >= 0,
        r is None ==> digits_value(before + t@.subrange(from as int, to as int)) > i64::MAX,
{
    let mut acc = start;
    let mut k = from;
    proof {
        assert(before + t@.subrange(from as int, from as int) =~= before);
        lemma_digits_nonneg(before);
    }
    while k < to
        invariant
            from <= k <= to <= t.len(),
            forall|j: int| from <= j < to ==> is_digit(#[trigger] t@[j]),
            forall|j: int| 0 <= j < before.len() ==> is_digit(#[trigger] before[j]),
            0 <= acc,
            acc == digits_value(before + t@.subrange(from as int, k as int)),
        decreases to - k,
    {
        let d = (t[k] as u32 - '0' as u32) as i64;
        let ghost x = before + t@.subrange(from as int, k as int);
        proof {
            assert(before + t@.subrange(from as int, k + 1) =~= x.push(t@[k as int]));
            lemma_digits_push(x, t@[k as int]);
        }
        if acc > (i64::MAX - d) / 10 {
            proof {
                let rest = t@.subrange(k + 1, to as int);
                let whole = before + t@.subrange(from as int, to as int);
                assert(whole =~= x.push(t@[k as int]) + rest);
                assert forall|j: int| 0 <= j < x.push(t@[k as int]).len() implies is_digit(
                    #[trigger] x.push(t@[k as int])[j],
                ) by {
                    if j >= before.len() {
                        assert(x.push(t@[k as int])[j] == t@[from + j - before.len()]);
                    }
                }
                assert forall|j: int| 0 <= j < rest.len() implies is_digit(#[trigger] rest[j]) by {
                    assert(rest[j] == t@[k + 1 + j]);
                }
                lemma_digits_grow(x.push(t@[k as int]), rest);
            }
            return None;
        }
        acc = acc * 10 + d;
        k = k + 1;
    }
    Some(acc)
}

/// Reads a scalar at `i`.
fn parse_scalar(t: &Vec<char>, i: usize) -> (r: Result<(Frac, usize), ParseError>)
    requires
        i <= t.len(),
    ensures
        r is Err <==> scalar_spec(t@, i as int) is None,
        r matches Ok((v, k)) ==> scalar_spec(t@, i as int) == Some((v, k as int)) && v.wf() && i
            <= k <= t.len(),
{
    let neg = i < t.len() && t[i] == '-';
    let s = if i < t.len() && (t[i] == '-' || t[i] == '+') {
        i + 1
    } else {
        i
    };
    let e1 = digits_end_at(t, s);
    let dot = e1 < t.len() && t[e1] == '.';
    let f0 = if dot {
        e1 + 1
    } else {
        e1
    };
    let e2 = if dot {
        digits_end_at(t, f0)
    } else {
        e1
    };
    proof {
        lemma_digits_end(t@, s as int);
        lemma_digits_end(t@, f0 as int);
    }
    let ghost digits = t@.subrange(s as int, e1 as int) + t@.subrange(f0 as int, e2 as int);
    if (e1 - s) + (e2 - f0) == 0 {
        return Err(ParseError { position: s });
    }
    if e2 - f0 > MAX_FRACTION_DIGITS {
        return Err(ParseError { position: f0 });
    }
    proof {
        assert(Seq::<char>::empty() + t@.subrange(s as int, e1 as int) =~= t@.subrange(
            s as int,
            e1 as int,
        ));
        assert forall|j: int| 0 <= j < e1 - s implies is_digit(
            #[trigger] t@.subrange(s as int, e1 as int)[j],
        ) by {
            assert(t@.subrange(s as int, e1 as int)[j] == t@[s + j]);
        }
    }
    let whole = match read_digits(t, s, e1, 0, Ghost(Seq::empty())) {
        Some(v) => v,
        None => {
            proof {
                lemma_digits_grow(t@.subrange(s as int, e1 as int), t@.subrange(f0 as int, e2 as int));
                assert forall|j: int| 0 <= j < e2 - f0 implies is_digit(
                    #[trigger] t@.subrange(f0 as int, e2 as int)[j],
                ) by {
                    assert(t@.subrange(f0 as int, e2 as int)[j] == t@[f0 + j]);
                }
                lemma_digits_grow(t@.subrange(s as int, e1 as int), t@.subrange(f0 as int, e2 as int));
            }
            return Err(ParseError { position: s });
        },
    };
    let mag = match read_digits(t, f0, e2, whole, Ghost(t@.subrange(s as int, e1 as int))) {
        Some(v) => v,
        None => {
            return Err(ParseError { position: f0 });
        },
    };
    let den = pow10_at(e2 - f0);
    let numer = if neg {
        -mag
    } else {
        mag
    };
    proof {
        assert(digits =~= t@.subrange(s as int, e1 as int) + t@.subrange(f0 as int, e2 as int));
    }
    let v = Frac::reduce(numer, den);
    Ok((v, e2))
}


/// Reads an item at `i`.
fn parse_item(t: &Vec<char>, i: usize) -> (r: Result<(SurrealValue, usize), ParseError>)
    requires
        i <= t.len(),
    ensures
        r is Err <==> item_spec(t@, i as int) is None,
        r matches Ok((v, k)) ==> item_spec(t@, i as int) == Some((v@, k as int)) && v.wf() && i
            <= k <= t.len(),
    decreases t.len() - i, 2int,
{
    let j = skip_ws_at(t, i);
    if j < t.len() && t[j] == '{' {
        match parse_game(t, j) {
            Ok((g, k)) => Ok((SurrealValue::Nested(g), k)),
            Err(e) => Err(e),
        }
    } else {
        match parse_scalar(t, j) {
            Ok((v, k)) => Ok((SurrealValue::Leaf(v), k)),
            Err(e) => Err(e),
        }
    }
}

/// Reads a game at `i`.
fn parse_game(t: &Vec<char>, i: usize) -> (r: Result<(Surreal, usize), ParseError>)
    requires
        i <= t.len(),
    ensures
        r is Err <==> game_spec(t@, i as int) is None,
        r matches Ok((g, k)) ==> game_spec(t@, i as int) == Some((g@, k as int)) && g.wf() && i
            < k <= t.len(),
    decreases t.len() - i, 1int,
{
    let j = skip_ws_at(t, i);
    if !(j < t.len() && t[j] == '{') {
        return Err(ParseError { position: j });
    }
    let (l, k) = match parse_list(t, j + 1, '|') {
        Ok(p) => p,
        Err(e) => {
            return Err(e);
        },
    };
    let (r, m) = match parse_list(t, k + 1, '}') {
        Ok(p) => p,
        Err(e) => {
            return Err(e);
        },
    };
    let g = Surreal { l: collapse(l), r: collapse(r) };
    proof {
        lemma_from_sides(g);
    }
    Ok((g, m + 1))
}

/// Reads a possibly empty list at `i`, up to `close`.
fn parse_list(t: &Vec<char>, i: usize, close: char) -> (r: Result<(Vec<SurrealValue>, usize), ParseError>)
    requires
        i <= t.len(),
    ensures
        r is Err <==> list_spec(t@, i as int, close) is None,
        r matches Ok((v, k)) ==> list_spec(t@, i as int, close) == Some((values_model(v@), k as int))
            && i <= k < t.len() && t@[k as int] == close && forall|n: int|
            0 <= n < v.len() ==> (#[trigger] v[n]).wf(),
    decreases t.len() - i, 4int,
{
    let j = skip_ws_at(t, i);
    if j < t.len() && t[j] == close {
        let v: Vec<SurrealValue> = Vec::new();
        proof {
            assert(values_model(v@) =~= Seq::<Entry>::empty());
        }
        Ok((v, j))
    } else {
        parse_items(t, j, close)
    }
}

/// Reads the items of a non-empty list at `i`, up to `close`.
fn parse_items(t: &Vec<char>, i: usize, close: char) -> (r: Result<(Vec<SurrealValue>, usize), ParseError>)
    requires
        i <= t.len(),
    ensures
        r is Err <==> items_spec(t@, i as int, close, Seq::empty()) is None,
        r matches Ok((v, k)) ==> items_spec(t@, i as int, close, Seq::empty()) == Some(
            (values_model(v@), k as int),
        ) && i <= k < t.len() && t@[k as int] == close && forall|n: int|
            0 <= n < v.len() ==> (#[trigger] v[n]).wf(),
    decreases t.len() - i, 3int,
{
    let mut out: Vec<SurrealValue> = Vec::new();
    let mut cur = i;
    proof {
        assert(values_model(out@) =~= Seq::<Entry>::empty());
    }
    loop
        invariant
            i <= cur <= t.len(),
            items_spec(t@, i as int, close, Seq::empty()) == items_spec(
                t@,
                cur as int,
                close,
                values_model(out@),
            ),
            forall|n: int| 0 <= n < out.len() ==> (#[trigger] out[n]).wf(),
        decreases t.len() - cur,
    {
        let (e, k) = match parse_item(t, cur) {
            Ok(p) => p,
            Err(err) => {
                return Err(err);
            },
        };
        let k2 = skip_ws_at(t, k);
        let ghost before = out@;
        if k2 < t.len() && t[k2] == ',' {
            out.push(e);
            proof {
                lemma_values_model(before);
                lemma_values_model(out@);
                assert(values_model(out@) =~= values_model(before).push(e@));
            }
            cur = k2 + 1;
        } else if k2 < t.len() && t[k2] == close {
            out.push(e);
            proof {
                lemma_values_model(before);
                lemma_values_model(out@);
                assert(values_model(out@) =~= values_model(before).push(e@));
            }
            return Ok((out, k2));
        } else {
            return Err(ParseError { position: k2 });
        }
    }
}

/// Reads a game written in set notation, such as `{ 0, { 1 | } | -2.5 }`.
/// Fails with a `ParseError` exactly where the text is not one game in the
/// notation, with nothing but whitespace around it; a scalar must fit in 64
/// bits, with at most eighteen digits after the point.
pub fn construct(num: &str) -> (r: Result<Surreal, ParseError>)
    ensures
        r is Ok <==> construct_spec(num@) is Some,
        r matches Ok(s) ==> s@ == construct_spec(num@)->0 && s.wf(),
{
    let t = text_chars(num);
    let (g, k) = match parse_game(&t, 0) {
        Ok(p) => p,
        Err(e) => {
            return Err(e);
        },
    };
    let e = skip_ws_at(&t, k);
    if e != t.len() {
        return Err(ParseError { position: e });
    }
    Ok(g)
}

/// A game as text: `{ L | R }`, each side its entries joined by `, `.
pub open spec fn game_text(g: Game) -> Seq<char>
    decreases g,
{
    seq!['{', ' '] + entries_text(g.left) + seq![' ', '|', ' '] + entries_text(g.right) + seq![
        ' ',
        '}',
    ]
}

/// Entries as text, joined by `, `.
pub open spec fn entries_text(s: Seq<Entry>) -> Seq<char>
    decreases s,
{
    if s.len() == 0 {
        Seq::empty()
    } else if s.len() == 1 {
        entry_text(s[0])
    } else {
        entries_text(s.subrange(0, s.len() - 1)) + seq![',', ' '] + entry_text(s[s.len() - 1])
    }
}

pub open spec fn entry_text(e: Entry) -> Seq<char>
    decreases e,
{
    match e {
        Entry::Num(f) => frac_text(f),
        Entry::Sub(g) => game_text(g),
    }
}

fn push_value(s: &mut String, v: &SurrealValue)
    ensures
        final(s)@ == old(s)@ + entry_text(v@),
    decreases v,
{
    match v {
        SurrealValue::Leaf(f) => push_frac(s, f),
        SurrealValue::Nested(g) => push_surreal(s, g),
    }
}

fn push_side(s: &mut String, o: &Option<Vec<SurrealValue>>)
    ensures
        final(s)@ == old(s)@ + entries_text(side_model(*o)),
    decreases o,
{
    let ghost start = s@;
    let ghost m = side_model(*o);
    let n = side_len(o);
    let mut i: usize = 0;
    proof {
        assert(m.subrange(0, 0) =~= Seq::<Entry>::empty());
        assert(s@ =~= start + entries_text(m.subrange(0, 0)));
    }
    while i < n
        invariant
            n == m.len(),
            m == side_model(*o),
            i <= n,
            s@ == start + entries_text(m.subrange(0, i as int)),
        decreases n - i,
    {
        let ghost before = s@;
        if i > 0 {
            s.push(',');
            s.push(' ');
        }
        let x = side_at(o, i);
        proof {
            assert(decreases_to!(*o => o->0));
            assert(decreases_to!(o->0 => o->0[i as int]));
        }
        push_value(s, x);
        proof {
            let p = m.subrange(0, i + 1);
            assert(p.subrange(0, i as int) =~= m.subrange(0, i as int));
            assert(p[i as int] == m[i as int]);
            if i == 0 {
                assert(s@ =~= start + entries_text(p));
            } else {
                assert(s@ =~= start + entries_text(p));
            }
        }
        i = i + 1;
    }
    proof {
        assert(m.subrange(0, n as int) =~= m);
    }
}

fn push_surreal(s: &mut String, g: &Surreal)
    ensures
        final(s)@ == old(s)@ + game_text(g@),
    decreases g,
{
    let ghost start = s@;
    s.push('{');
    s.push(' ');
    push_side(s, &g.l);
    s.push(' ');
    s.push('|');
    s.push(' ');
    push_side(s, &g.r);
    s.push(' ');
    s.push('}');
    proof {
        assert(s@ =~= start + game_text(g@));
    }
}

impl Surreal {
    /// The game in set notation: `{ L | R }`, each side its entries joined by
    /// `, `; a number is written `n`, or `n/d` where its denominator is not
    /// one.
    pub fn to_string(&self) -> (r: String)
        ensures
            r@ == game_text(self@),
    {
        let mut s = String::new();
        push_surreal(&mut s, self);
        proof {
            assert(s@ =~= game_text(self@));
        }
        s
    }
}

} // verus!
