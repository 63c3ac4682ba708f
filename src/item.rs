use vstd::prelude::*;
use crate::symbol::{END_MARKER, nonterminal};
use crate::grammar::symbol_at;

verus! {

/// A recognizer item: production `p` matched up to body position `j`,
/// starting at input position `f`, expecting `alpha` to follow.
/// The lookahead string holds one symbol, or none under horizon 0.
#[derive(Clone, Copy, PartialEq, Eq, Structural, Debug)]
pub struct Item {
    pub p: usize,
    pub j: usize,
    pub f: usize,
    pub alpha: Option<char>,
}

/// The lookahead string of an item as a sequence.
pub open spec fn la_seq(a: Option<char>) -> Seq<char> {
    match a {
        Some(c) => seq![c],
        None => Seq::empty(),
    }
}

/// The lookahead string given to the root item: one end marker, or none
/// under horizon 0.
pub open spec fn root_la(h: nat) -> Option<char> {
    if h == 0 { None } else { Some(END_MARKER) }
}

pub open spec fn seed_item(h: nat) -> Item {
    Item { p: 0, j: 0, f: 0, alpha: root_la(h) }
}

/// The root production completed over the whole input.
pub open spec fn accept_item(h: nat) -> Item {
    Item { p: 0, j: 2, f: 0, alpha: root_la(h) }
}

/// The input followed by `h + 1` end markers.
pub open spec fn padded(input: Seq<char>, h: nat) -> Seq<char> {
    input + Seq::new(h + 1, |k: int| END_MARKER)
}

pub open spec fn body(g: Seq<(char, Seq<char>)>, x: Item) -> Seq<char> {
    g[x.p as int].1
}

/// Item `x` makes sense at position `i`.
pub open spec fn well(g: Seq<(char, Seq<char>)>, h: nat, i: int, x: Item) -> bool {
    &&& x.p < g.len()
    &&& x.j <= body(g, x).len()
    &&& x.f <= i
    &&& (x.alpha is Some <==> h > 0)
}

pub open spec fn is_final(g: Seq<(char, Seq<char>)>, x: Item) -> bool {
    x.j == body(g, x).len()
}

/// The symbol after the dot; the end marker for a final item.
pub open spec fn dot(g: Seq<(char, Seq<char>)>, x: Item) -> char {
    symbol_at(body(g, x), x.j as int, seq![END_MARKER])
}

/// `x` is nonfinal and its dot stands before nonterminal `nt`.
pub open spec fn waiting_on(g: Seq<(char, Seq<char>)>, x: Item, nt: char) -> bool {
    !is_final(g, x) && nonterminal(dot(g, x)) && dot(g, x) == nt
}

/// Lookahead for items predicted from `s`: the symbol after the one at the
/// dot, read on into `s`'s own lookahead past the body's end.
pub open spec fn next_la(g: Seq<(char, Seq<char>)>, h: nat, s: Item) -> Option<char> {
    if h == 0 {
        None
    } else {
        Some(symbol_at(body(g, s), s.j + 1, la_seq(s.alpha)))
    }
}

pub open spec fn predicted(g: Seq<(char, Seq<char>)>, h: nat, s: Item, q: usize, i: int) -> Item {
    Item { p: q, j: 0, f: i as usize, alpha: next_la(g, h, s) }
}

pub open spec fn advance(x: Item) -> Item {
    Item { p: x.p, j: (x.j + 1) as usize, f: x.f, alpha: x.alpha }
}

/// The lookahead string occurs in the window of `h + 1` symbols of `w`
/// starting at `i`.
pub open spec fn la_ok(w: Seq<char>, h: nat, i: int, a: Option<char>) -> bool {
    match a {
        None => true,
        Some(c) => exists|m: int| i <= m <= i + h && #[trigger] w[m] == c,
    }
}

/// How an item came to stand in a state set: the seed, or one step of the
/// predictor, scanner or completer from the items it was made from.
pub enum Derivation {
    Seed,
    Predict { s: Item, from: Box<Derivation> },
    Scan { s: Item, from: Box<Derivation> },
    Complete { s: Item, from_s: Box<Derivation>, t: Item, from_t: Box<Derivation> },
}

/// `tr` shows that `x` enters state set `i`, over grammar `g`, horizon `h`,
/// and the padded input `w` of an input of length `n`.
pub open spec fn derives(
    g: Seq<(char, Seq<char>)>, h: nat, w: Seq<char>, n: nat, tr: Derivation, i: int, x: Item,
) -> bool
    decreases tr,
{
    well(g, h, i, x) && 0 <= i <= n + 1 && match tr {
        Derivation::Seed => i == 0 && x == seed_item(h),
        Derivation::Predict { s, from } => {
            &&& i <= n
            &&& derives(g, h, w, n, *from, i, s)
            &&& waiting_on(g, s, dot(g, s))
            &&& g[x.p as int].0 == dot(g, s)
            &&& x == predicted(g, h, s, x.p, i)
        },
        Derivation::Scan { s, from } => {
            &&& 0 < i
            &&& derives(g, h, w, n, *from, i - 1, s)
            &&& !is_final(g, s)
            &&& !nonterminal(dot(g, s))
            &&& dot(g, s) == w[i - 1]
            &&& x == advance(s)
        },
        Derivation::Complete { s, from_s, t, from_t } => {
            &&& i <= n
            &&& derives(g, h, w, n, *from_s, i, s)
            &&& derives(g, h, w, n, *from_t, s.f as int, t)
            &&& is_final(g, s)
            &&& la_ok(w, h, i, s.alpha)
            &&& waiting_on(g, t, g[s.p as int].0)
            &&& x == advance(t)
        },
    }
}

/// `x` belongs to state set `i`.
pub open spec fn valid(g: Seq<(char, Seq<char>)>, h: nat, w: Seq<char>, n: nat, i: int, x: Item) -> bool {
    exists|tr: Derivation| derives(g, h, w, n, tr, i, x)
}

/// Whether the recognizer accepts `input` over `g` with horizon `h`.
pub open spec fn accepts(g: Seq<(char, Seq<char>)>, h: nat, input: Seq<char>) -> bool {
    valid(g, h, padded(input, h), input.len(), input.len() + 1 as int, accept_item(h))
}

pub proof fn lemma_valid_well(g: Seq<(char, Seq<char>)>, h: nat, w: Seq<char>, n: nat, i: int, x: Item)
    requires
        valid(g, h, w, n, i, x),
    ensures
        well(g, h, i, x),
        0 <= i <= n + 1,
{
    let tr = choose|tr: Derivation| derives(g, h, w, n, tr, i, x);
}

pub proof fn lemma_seed_valid(g: Seq<(char, Seq<char>)>, h: nat, w: Seq<char>, n: nat)
    requires
        g.len() > 0,
    ensures
        valid(g, h, w, n, 0, seed_item(h)),
{
    assert(derives(g, h, w, n, Derivation::Seed, 0, seed_item(h)));
}

pub proof fn lemma_predict_valid(
    g: Seq<(char, Seq<char>)>, h: nat, w: Seq<char>, n: nat, i: int, s: Item, q: usize,
)
    requires
        valid(g, h, w, n, i, s),
        i <= n,
        n <= usize::MAX,
        waiting_on(g, s, dot(g, s)),
        q < g.len(),
        g[q as int].0 == dot(g, s),
    ensures
        valid(g, h, w, n, i, predicted(g, h, s, q, i)),
{
    let tr = choose|tr: Derivation| derives(g, h, w, n, tr, i, s);
    let x = predicted(g, h, s, q, i);
    assert(derives(g, h, w, n, Derivation::Predict { s, from: Box::new(tr) }, i, x));
}

pub proof fn lemma_scan_valid(g: Seq<(char, Seq<char>)>, h: nat, w: Seq<char>, n: nat, i: int, s: Item)
    requires
        valid(g, h, w, n, i, s),
        i <= n,
        !is_final(g, s),
        !nonterminal(dot(g, s)),
        dot(g, s) == w[i],
    ensures
        valid(g, h, w, n, i + 1, advance(s)),
{
    let tr = choose|tr: Derivation| derives(g, h, w, n, tr, i, s);
    assert(derives(g, h, w, n, tr, i + 1 - 1, s));
    assert(derives(g, h, w, n, Derivation::Scan { s, from: Box::new(tr) }, i + 1, advance(s)));
}

pub proof fn lemma_complete_valid(
    g: Seq<(char, Seq<char>)>, h: nat, w: Seq<char>, n: nat, i: int, s: Item, t: Item,
)
    requires
        valid(g, h, w, n, i, s),
        valid(g, h, w, n, s.f as int, t),
        i <= n,
        is_final(g, s),
        la_ok(w, h, i, s.alpha),
        waiting_on(g, t, g[s.p as int].0),
    ensures
        valid(g, h, w, n, i, advance(t)),
{
    let ts = choose|tr: Derivation| derives(g, h, w, n, tr, i, s);
    let tt = choose|tr: Derivation| derives(g, h, w, n, tr, s.f as int, t);
    let tr = Derivation::Complete { s, from_s: Box::new(ts), t, from_t: Box::new(tt) };
    assert(derives(g, h, w, n, tr, i, advance(t)));
}

/// Position `k` of `chart` is closed under the predictor, scanner and
/// completer.
pub open spec fn closed_at(g: Seq<(char, Seq<char>)>, h: nat, w: Seq<char>, chart: Seq<Seq<Item>>, k: int) -> bool {
    &&& forall|s: Item, q: usize| #![trigger chart[k].contains(s), g[q as int]]
        chart[k].contains(s) && waiting_on(g, s, dot(g, s)) && q < g.len() && g[q as int].0 == dot(g, s)
            ==> chart[k].contains(predicted(g, h, s, q, k))
    &&& forall|s: Item| #[trigger] chart[k].contains(s)
        && !is_final(g, s) && !nonterminal(dot(g, s)) && dot(g, s) == w[k]
            ==> chart[k + 1].contains(advance(s))
    &&& forall|s: Item, t: Item| #[trigger] chart[k].contains(s) && #[trigger] chart[s.f as int].contains(t)
        && is_final(g, s) && la_ok(w, h, k, s.alpha) && waiting_on(g, t, g[s.p as int].0)
            ==> chart[k].contains(advance(t))
}

/// A chart closed at every position up to `n` and holding the seed holds
/// every derivable item.
pub proof fn lemma_closed_complete(
    g: Seq<(char, Seq<char>)>, h: nat, w: Seq<char>, n: nat, chart: Seq<Seq<Item>>,
    tr: Derivation, i: int, x: Item,
)
    requires
        chart.len() >= n + 2,
        forall|k: int| 0 <= k <= n ==> closed_at(g, h, w, chart, k),
        chart[0].contains(seed_item(h)),
        derives(g, h, w, n, tr, i, x),
    ensures
        chart[i].contains(x),
    decreases tr,
{
    match tr {
        Derivation::Seed => {},
        Derivation::Predict { s, from } => {
            lemma_closed_complete(g, h, w, n, chart, *from, i, s);
            assert(closed_at(g, h, w, chart, i));
            assert(g[x.p as int] == g[x.p as int]);
        },
        Derivation::Scan { s, from } => {
            lemma_closed_complete(g, h, w, n, chart, *from, i - 1, s);
            assert(closed_at(g, h, w, chart, i - 1));
            assert(i - 1 + 1 == i);
        },
        Derivation::Complete { s, from_s, t, from_t } => {
            lemma_closed_complete(g, h, w, n, chart, *from_s, i, s);
            lemma_closed_complete(g, h, w, n, chart, *from_t, s.f as int, t);
            assert(closed_at(g, h, w, chart, i));
        },
    }
}

/// Every item of `a` is in `b`.
pub open spec fn items_within(a: Seq<Item>, b: Seq<Item>) -> bool {
    forall|y: Item| #[trigger] a.contains(y) ==> b.contains(y)
}

/// Moving to a chart that agrees up to position `m` and holds more at
/// `m + 1` keeps position `m` closed.
pub proof fn lemma_closed_grow(
    g: Seq<(char, Seq<char>)>, h: nat, w: Seq<char>, c0: Seq<Seq<Item>>, c1: Seq<Seq<Item>>, m: int,
)
    requires
        0 <= m,
        m + 1 < c0.len(),
        m + 1 < c1.len(),
        closed_at(g, h, w, c0, m),
        forall|k: int| 0 <= k <= m ==> c1[k] == c0[k],
        items_within(c0[m + 1], c1[m + 1]),
        forall|y: Item| #[trigger] c0[m].contains(y) ==> y.f <= m,
    ensures
        closed_at(g, h, w, c1, m),
{
    assert forall|s: Item, t: Item| #[trigger] c1[m].contains(s) && #[trigger] c1[s.f as int].contains(t)
        && is_final(g, s) && la_ok(w, h, m, s.alpha) && waiting_on(g, t, g[s.p as int].0)
        implies c1[m].contains(advance(t)) by {
        assert(c0[m].contains(s));
        assert(c0[s.f as int].contains(t));
    }
}

/// Code of a lookahead string, for counting items.
pub open spec fn la_code(a: Option<char>) -> int {
    match a {
        None => 0,
        Some(c) => c as u32 as int + 1,
    }
}

pub open spec fn la_codes() -> int {
    0x1_0000_0001
}

pub open spec fn item_key(x: Item, pn: int, mn: int, fnum: int) -> int {
    x.p + pn * (x.j + mn * (x.f + fnum * la_code(x.alpha)))
}

/// Number of items with production below `pn`, dot below `mn` and origin
/// below `fnum`.
pub open spec fn item_space(pn: int, mn: int, fnum: int) -> int {
    pn * (mn * (fnum * la_codes()))
}

proof fn lemma_radix(a1: int, r1: int, a2: int, r2: int, b: int)
    requires
        0 <= a1 < b,
        0 <= a2 < b,
        a1 + b * r1 == a2 + b * r2,
    ensures
        a1 == a2,
        r1 == r2,
{
    assert(a1 == a2 && r1 == r2) by (nonlinear_arith)
        requires
            0 <= a1 < b,
            0 <= a2 < b,
            a1 + b * r1 == a2 + b * r2;
}

proof fn lemma_radix_bound(a: int, r: int, b: int, rb: int)
    requires
        0 <= a < b,
        0 <= r < rb,
    ensures
        a + b * r < b * rb,
{
    assert(a + b * r < b * rb) by (nonlinear_arith)
        requires
            0 <= a < b,
            0 <= r < rb;
}

pub open spec fn item_in_space(x: Item, pn: int, mn: int, fnum: int) -> bool {
    x.p < pn && x.j < mn && x.f < fnum
}

proof fn lemma_key_range(x: Item, pn: int, mn: int, fnum: int)
    requires
        item_in_space(x, pn, mn, fnum),
    ensures
        0 <= item_key(x, pn, mn, fnum) < item_space(pn, mn, fnum),
{
    let c = la_code(x.alpha);
    assert(0 <= c < la_codes());
    lemma_radix_bound(x.f as int, c, fnum, la_codes());
    let r2 = x.f + fnum * c;
    lemma_radix_bound(x.j as int, r2, mn, fnum * la_codes());
    let r1 = x.j + mn * r2;
    lemma_radix_bound(x.p as int, r1, pn, mn * (fnum * la_codes()));
}

proof fn lemma_key_injective(x: Item, y: Item, pn: int, mn: int, fnum: int)
    requires
        item_in_space(x, pn, mn, fnum),
        item_in_space(y, pn, mn, fnum),
        item_key(x, pn, mn, fnum) == item_key(y, pn, mn, fnum),
    ensures
        x == y,
{
    let cx = la_code(x.alpha);
    let cy = la_code(y.alpha);
    assert(0 <= cx && 0 <= cy);
    assert(0 <= x.f + fnum * cx) by (nonlinear_arith)
        requires 0 <= x.f, 0 < fnum, 0 <= cx;
    assert(0 <= y.f + fnum * cy) by (nonlinear_arith)
        requires 0 <= y.f, 0 < fnum, 0 <= cy;
    lemma_radix(x.p as int, x.j + mn * (x.f + fnum * cx), y.p as int, y.j + mn * (y.f + fnum * cy), pn);
    lemma_radix(x.j as int, x.f + fnum * cx, y.j as int, y.f + fnum * cy, mn);
    lemma_radix(x.f as int, cx, y.f as int, cy, fnum);
    match (x.alpha, y.alpha) {
        (Some(a), Some(b)) => {
            vstd::utf8::char_u32_cast(a, a as u32);
            vstd::utf8::char_u32_cast(b, b as u32);
        },
        _ => {},
    }
}

/// A sequence of distinct items from a bounded space is no longer than the
/// space.
pub proof fn lemma_count_items(v: Seq<Item>, pn: int, mn: int, fnum: int)
    requires
        0 < pn && 0 < mn && 0 < fnum,
        v.no_duplicates(),
        forall|m: int| 0 <= m < v.len() ==> item_in_space(#[trigger] v[m], pn, mn, fnum),
    ensures
        v.len() <= item_space(pn, mn, fnum),
{
    let ks = v.map_values(|x: Item| item_key(x, pn, mn, fnum));
    assert forall|a: int, b: int| 0 <= a < ks.len() && 0 <= b < ks.len() && a != b
        implies ks[a] != ks[b] by {
        if ks[a] == ks[b] {
            lemma_key_injective(v[a], v[b], pn, mn, fnum);
        }
    }
    assert(ks.no_duplicates());
    ks.unique_seq_to_set();
    if v.len() > 0 {
        lemma_key_range(v[0], pn, mn, fnum);
        let range = vstd::set_lib::set_int_range(0, item_space(pn, mn, fnum));
        vstd::set_lib::lemma_int_range(0, item_space(pn, mn, fnum));
        assert forall|k: int| ks.to_set().contains(k) implies range.contains(k) by {
            let m = choose|m: int| 0 <= m < ks.len() && ks[m] == k;
            lemma_key_range(v[m], pn, mn, fnum);
        }
        vstd::set_lib::lemma_len_subset(ks.to_set(), range);
    } else {
        assert(0 <= item_space(pn, mn, fnum)) by (nonlinear_arith)
            requires 0 < pn && 0 < mn && 0 < fnum;
    }
}

} // verus!
