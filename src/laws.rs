use vstd::prelude::*;
use crate::symbol::{END_MARKER, nonterminal};
use crate::grammar::root_production;
use crate::item::{
    Derivation, Item, accepts, accept_item, advance, body, derives, dot, is_final, la_ok,
    padded, predicted, seed_item, waiting_on,
};
use crate::recognizer::Recognizer;

verus! {

/// State set `i` of plain Earley recognition, whose items carry no
/// lookahead and whose completer checks none, over grammar `g` and the
/// input `w` (ending in one end marker) of an input of length `n`.
pub open spec fn earley_derives(
    g: Seq<(char, Seq<char>)>, w: Seq<char>, n: nat, tr: Derivation, i: int, x: Item,
) -> bool
    decreases tr,
{
    &&& x.alpha is None
    &&& x.p < g.len()
    &&& x.j <= body(g, x).len()
    &&& x.f <= i
    &&& 0 <= i <= n + 1
    &&& match tr {
        Derivation::Seed => i == 0 && x == (Item { p: 0, j: 0, f: 0, alpha: None }),
        Derivation::Predict { s, from } => {
            &&& i <= n
            &&& earley_derives(g, w, n, *from, i, s)
            &&& waiting_on(g, s, dot(g, s))
            &&& g[x.p as int].0 == dot(g, s)
            &&& x == (Item { p: x.p, j: 0, f: i as usize, alpha: None })
        },
        Derivation::Scan { s, from } => {
            &&& 0 < i
            &&& earley_derives(g, w, n, *from, i - 1, s)
            &&& !is_final(g, s)
            &&& !nonterminal(dot(g, s))
            &&& dot(g, s) == w[i - 1]
            &&& x == advance(s)
        },
        Derivation::Complete { s, from_s, t, from_t } => {
            &&& i <= n
            &&& earley_derives(g, w, n, *from_s, i, s)
            &&& earley_derives(g, w, n, *from_t, s.f as int, t)
            &&& is_final(g, s)
            &&& waiting_on(g, t, g[s.p as int].0)
            &&& x == advance(t)
        },
    }
}

/// `x` belongs to state set `i` of plain Earley recognition.
pub open spec fn earley_valid(g: Seq<(char, Seq<char>)>, w: Seq<char>, n: nat, i: int, x: Item) -> bool {
    exists|tr: Derivation| earley_derives(g, w, n, tr, i, x)
}

/// Plain Earley acceptance of `input` over `g`.
pub open spec fn earley_accepts(g: Seq<(char, Seq<char>)>, input: Seq<char>) -> bool {
    earley_valid(
        g, input.push(END_MARKER), input.len(), input.len() + 1 as int,
        Item { p: 0, j: 2, f: 0, alpha: None },
    )
}

proof fn lemma_horizon_zero_same_steps(
    g: Seq<(char, Seq<char>)>, w: Seq<char>, n: nat, tr: Derivation, i: int, x: Item,
)
    ensures
        derives(g, 0, w, n, tr, i, x) == earley_derives(g, w, n, tr, i, x),
    decreases tr,
{
    match tr {
        Derivation::Seed => {},
        Derivation::Predict { s, from } => {
            lemma_horizon_zero_same_steps(g, w, n, *from, i, s);
        },
        Derivation::Scan { s, from } => {
            lemma_horizon_zero_same_steps(g, w, n, *from, i - 1, s);
        },
        Derivation::Complete { s, from_s, t, from_t } => {
            lemma_horizon_zero_same_steps(g, w, n, *from_s, i, s);
            lemma_horizon_zero_same_steps(g, w, n, *from_t, s.f as int, t);
        },
    }
}

/// With horizon 0 the recognizer accepts exactly what plain Earley
/// recognition accepts: every lookahead string is empty and every
/// lookahead check passes.
pub proof fn law_horizon_zero_is_earley(g: Seq<(char, Seq<char>)>, input: Seq<char>)
    ensures
        accepts(g, 0, input) == earley_accepts(g, input),
{
    let n = input.len();
    let w = padded(input, 0);
    assert(w =~= input.push(END_MARKER));
    let last: int = n + 1 as int;
    if accepts(g, 0, input) {
        let tr = choose|tr: Derivation| derives(g, 0, w, n, tr, last, accept_item(0));
        lemma_horizon_zero_same_steps(g, w, n, tr, last, accept_item(0));
    }
    if earley_accepts(g, input) {
        let tr = choose|tr: Derivation| earley_derives(g, w, n, tr, last, accept_item(0));
        lemma_horizon_zero_same_steps(g, w, n, tr, last, accept_item(0));
    }
}

/// When the start symbol, a nonterminal, has a production with an empty
/// body, the empty input is accepted, whatever the horizon.
pub proof fn law_empty_body_accepts_empty_input(
    prods: Seq<(char, Seq<char>)>, root: char, h: nat, q: int,
)
    requires
        0 <= q < prods.len(),
        prods.len() < usize::MAX,
        nonterminal(root),
        prods[q].0 == root,
        prods[q].1.len() == 0,
    ensures
        accepts(seq![root_production(root)] + prods, h, Seq::empty()),
{
    let g = seq![root_production(root)] + prods;
    let w = padded(Seq::<char>::empty(), h);
    let seed = seed_item(h);
    assert(g[0] == root_production(root));
    assert(g[q + 1] == prods[q]);
    assert(derives(g, h, w, 0, Derivation::Seed, 0, seed));
    let qi = (q + 1) as usize;
    let x1 = predicted(g, h, seed, qi, 0);
    let t1 = Derivation::Predict { s: seed, from: Box::new(Derivation::Seed) };
    assert(derives(g, h, w, 0, t1, 0, x1));
    assert(w[0] == END_MARKER);
    assert(la_ok(w, h, 0, x1.alpha));
    let x2 = advance(seed);
    let t2 = Derivation::Complete {
        s: x1, from_s: Box::new(t1), t: seed, from_t: Box::new(Derivation::Seed),
    };
    assert(derives(g, h, w, 0, t2, 0, x2));
    let t3 = Derivation::Scan { s: x2, from: Box::new(t2) };
    assert(dot(g, x2) == END_MARKER);
    assert(advance(x2) == accept_item(h));
    assert(derives(g, h, w, 0, t3, 1, accept_item(h)));
}

/// Without empty bodies, nothing at position 0 of the empty input gets past
/// its first symbol.
proof fn lemma_empty_input_start_items(
    g: Seq<(char, Seq<char>)>, h: nat, w: Seq<char>, tr: Derivation, x: Item,
)
    requires
        g.len() > 0,
        g[0].1.len() == 2,
        forall|q: int| 1 <= q < g.len() ==> #[trigger] g[q].1.len() > 0,
        derives(g, h, w, 0, tr, 0, x),
    ensures
        x.j == 0,
    decreases tr,
{
    match tr {
        Derivation::Complete { s, from_s, t, from_t } => {
            lemma_empty_input_start_items(g, h, w, *from_s, s);
            assert(derives(g, h, w, 0, *from_s, 0, s));
            assert(s.p < g.len());
            if s.p > 0 {
                assert(g[s.p as int].1.len() > 0);
            }
        },
        _ => {},
    }
}

/// When no production has an empty body, the empty input is rejected,
/// whatever the horizon.
pub proof fn law_no_empty_body_rejects_empty_input(prods: Seq<(char, Seq<char>)>, root: char, h: nat)
    requires
        forall|q: int| 0 <= q < prods.len() ==> #[trigger] prods[q].1.len() > 0,
    ensures
        !accepts(seq![root_production(root)] + prods, h, Seq::empty()),
{
    let g = seq![root_production(root)] + prods;
    let w = padded(Seq::<char>::empty(), h);
    assert(g[0] == root_production(root));
    assert forall|q: int| 1 <= q < g.len() implies #[trigger] g[q].1.len() > 0 by {
        assert(g[q] == prods[q - 1]);
    }
    if accepts(g, h, Seq::empty()) {
        let tr = choose|tr: Derivation| derives(g, h, w, 0, tr, 1, accept_item(h));
        match tr {
            Derivation::Scan { s, from } => {
                lemma_empty_input_start_items(g, h, w, *from, s);
            },
            _ => {},
        }
    }
}

/// Recognition is a function of the grammar, the horizon and the input:
/// recognizers that agree on these give the same answer.
pub proof fn law_recognize_deterministic(r1: &Recognizer, r2: &Recognizer, in1: Seq<char>, in2: Seq<char>)
    requires
        r1.grammar@ == r2.grammar@,
        r1.lookahead == r2.lookahead,
        in1 == in2,
    ensures
        accepts(r1.grammar@, r1.lookahead as nat, in1) == accepts(r2.grammar@, r2.lookahead as nat, in2),
{
}

} // verus!
