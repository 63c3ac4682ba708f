use vstd::prelude::*;
use crate::symbol::{END_MARKER, nonterminal, symbol_is_nonterminal};
use crate::grammar::{Grammar, chars_of};
use crate::item::{
    Derivation, Item, accepts, accept_item, advance, closed_at, derives, dot, is_final,
    item_space, item_in_space, items_within, la_ok, la_seq, lemma_closed_complete,
    lemma_closed_grow, lemma_complete_valid, lemma_count_items, lemma_valid_well,
    lemma_predict_valid, lemma_scan_valid, lemma_seed_valid, next_la, padded, predicted,
    seed_item, valid, waiting_on,
};

verus! {

/// Longest production body of `g`.
pub open spec fn max_body(g: Seq<(char, Seq<char>)>) -> nat
    decreases g.len(),
{
    if g.len() == 0 {
        0
    } else {
        let rest = max_body(g.drop_last());
        if g.last().1.len() > rest { g.last().1.len() } else { rest }
    }
}

proof fn lemma_max_body(g: Seq<(char, Seq<char>)>, p: int)
    requires
        0 <= p < g.len(),
    ensures
        g[p].1.len() <= max_body(g),
    decreases g.len(),
{
    if p < g.len() - 1 {
        lemma_max_body(g.drop_last(), p);
    }
}

/// Every item of `v` belongs to state set `i`.
pub open spec fn sound_set(g: Seq<(char, Seq<char>)>, h: nat, w: Seq<char>, n: nat, i: int, v: Seq<Item>) -> bool {
    forall|y: Item| #[trigger] v.contains(y) ==> valid(g, h, w, n, i, y)
}

/// `b` is `a` with items appended.
pub open spec fn extends(a: Seq<Item>, b: Seq<Item>) -> bool {
    &&& a.len() <= b.len()
    &&& forall|m: int| 0 <= m < a.len() ==> #[trigger] b[m] == a[m]
}

/// The state sets: the finished ones, the current one, the next one.
pub open spec fn chart_of(sets: Seq<Vec<Item>>, cur: Seq<Item>, next: Seq<Item>) -> Seq<Seq<Item>> {
    sets.map_values(|v: Vec<Item>| v@).push(cur).push(next)
}

/// The `h` symbols of `input` from `index` on, padded with end markers.
pub open spec fn window(input: Seq<char>, index: int, h: nat) -> Seq<char> {
    Seq::new(h, |k: int| if index + k < input.len() { input[index + k] } else { END_MARKER })
}

/// A state set holds no more items than there are items over the grammar
/// with origin at most `i`.
proof fn lemma_state_set_bounded(
    g: Seq<(char, Seq<char>)>, h: nat, w: Seq<char>, n: nat, i: int, v: Seq<Item>,
)
    requires
        0 <= i,
        g.len() > 0,
        sound_set(g, h, w, n, i, v),
        v.no_duplicates(),
    ensures
        v.len() <= item_space(g.len() as int, max_body(g) + 1 as int, i + 1),
{
    assert forall|m: int| 0 <= m < v.len() implies item_in_space(#[trigger] v[m], g.len() as int, max_body(g) + 1 as int, i + 1) by {
        assert(v.contains(v[m]));
        lemma_valid_well(g, h, w, n, i, v[m]);
        lemma_max_body(g, v[m].p as int);
    }
    lemma_count_items(v, g.len() as int, max_body(g) + 1 as int, i + 1);
}

proof fn lemma_sound_origins(g: Seq<(char, Seq<char>)>, h: nat, w: Seq<char>, n: nat, i: int, v: Seq<Item>)
    requires
        sound_set(g, h, w, n, i, v),
    ensures
        forall|y: Item| #[trigger] v.contains(y) ==> y.f <= i,
{
    assert forall|y: Item| #[trigger] v.contains(y) implies y.f <= i by {
        lemma_valid_well(g, h, w, n, i, y);
    }
}

proof fn lemma_extends_within(a: Seq<Item>, b: Seq<Item>)
    requires
        extends(a, b),
    ensures
        items_within(a, b),
{
    assert forall|y: Item| #[trigger] a.contains(y) implies b.contains(y) by {
        let m = choose|m: int| 0 <= m < a.len() && a[m] == y;
        assert(b[m] == y);
    }
}

/// The input followed by `h + 1` end markers.
fn pad_input(chars: &Vec<char>, h: usize) -> (w: Vec<char>)
    requires
        chars@.len() + h + 1 <= usize::MAX,
    ensures
        w@ == padded(chars@, h as nat),
{
    let mut w: Vec<char> = Vec::new();
    let mut k: usize = 0;
    while k < chars.len()
        invariant
            k <= chars@.len(),
            w@ == chars@.subrange(0, k as int),
        decreases chars@.len() - k,
    {
        w.push(chars[k]);
        k = k + 1;
        assert(w@ =~= chars@.subrange(0, k as int));
    }
    assert(chars@.subrange(0, chars@.len() as int) =~= chars@);
    let mut e: usize = 0;
    while e <= h
        invariant
            e <= h + 1,
            chars@.len() + h + 1 <= usize::MAX,
            w@ == chars@ + Seq::new(e as nat, |k: int| END_MARKER),
        decreases h + 1 - e,
    {
        w.push(END_MARKER);
        e = e + 1;
        assert(w@ =~= chars@ + Seq::new(e as nat, |k: int| END_MARKER));
    }
    w
}

/// `idx` is the completer index of state set `set`: for each production,
/// the items of `set` waiting on its head.
pub open spec fn indexes(g: Seq<(char, Seq<char>)>, set: Seq<Item>, idx: Seq<Vec<Item>>) -> bool {
    &&& idx.len() == g.len()
    &&& forall|p: int, t: Item| #![trigger idx[p]@.contains(t)]
        0 <= p < g.len() ==> (idx[p]@.contains(t) <==> set.contains(t) && waiting_on(g, t, g[p].0))
}

/// What has been done for the first `k` items of state set `i`: their
/// predictions and completions are in `cur`, their scans in `next`.
pub open spec fn processed(
    g: Seq<(char, Seq<char>)>, h: nat, w: Seq<char>, sets: Seq<Vec<Item>>,
    cur: Seq<Item>, next: Seq<Item>, i: int, k: int,
) -> bool {
    &&& forall|a: int, q: usize| #![trigger cur[a], g[q as int]]
        0 <= a < k && waiting_on(g, cur[a], dot(g, cur[a])) && q < g.len() && g[q as int].0 == dot(g, cur[a])
            ==> cur.contains(predicted(g, h, cur[a], q, i))
    &&& forall|a: int| #![trigger cur[a]]
        0 <= a < k && !is_final(g, cur[a]) && !nonterminal(dot(g, cur[a])) && dot(g, cur[a]) == w[i]
            ==> next.contains(advance(cur[a]))
    &&& forall|a: int, t: Item| #![trigger cur[a], sets[cur[a].f as int]@.contains(t)]
        0 <= a < k && is_final(g, cur[a]) && la_ok(w, h, i, cur[a].alpha) && cur[a].f < i
            && sets[cur[a].f as int]@.contains(t) && waiting_on(g, t, g[cur[a].p as int].0)
            ==> cur.contains(advance(t))
    &&& forall|a: int, b: int| #![trigger cur[a], cur[b]]
        0 <= a < k && 0 <= b < k && is_final(g, cur[a]) && la_ok(w, h, i, cur[a].alpha) && cur[a].f == i
            && waiting_on(g, cur[b], g[cur[a].p as int].0)
            ==> cur.contains(advance(cur[b]))
}

fn contains_item(v: &Vec<Item>, x: Item) -> (r: bool)
    ensures
        r == v@.contains(x),
{
    let mut k: usize = 0;
    while k < v.len()
        invariant
            k <= v@.len(),
            forall|m: int| 0 <= m < k ==> v@[m] != x,
        decreases v@.len() - k,
    {
        if v[k] == x {
            return true;
        }
        k = k + 1;
    }
    false
}

/// Adds `x` to the set held in `v` unless it is there already.
fn insert_item(v: &mut Vec<Item>, x: Item)
    ensures
        final(v)@ == if old(v)@.contains(x) { old(v)@ } else { old(v)@.push(x) },
        extends(old(v)@, final(v)@),
        final(v)@.contains(x),
        forall|y: Item| #[trigger] final(v)@.contains(y) <==> old(v)@.contains(y) || y == x,
        old(v)@.no_duplicates() ==> final(v)@.no_duplicates(),
{
    if !contains_item(v, x) {
        v.push(x);
        assert(final(v)@[old(v)@.len() as int] == x);
        assert forall|y: Item| #[trigger] final(v)@.contains(y) implies old(v)@.contains(y) || y == x by {
            let m = choose|m: int| 0 <= m < final(v)@.len() && final(v)@[m] == y;
            if m < old(v)@.len() {
                assert(old(v)@[m] == y);
            }
        }
        assert forall|y: Item| old(v)@.contains(y) implies #[trigger] final(v)@.contains(y) by {
            let m = choose|m: int| 0 <= m < old(v)@.len() && old(v)@[m] == y;
            assert(final(v)@[m] == y);
        }
    }
}

/// Whether the lookahead string `a` occurs in the window of `h + 1`
/// symbols of `w` that starts at `i`.
fn lookahead_fits(w: &Vec<char>, h: usize, i: usize, a: Option<char>) -> (r: bool)
    requires
        i + h < w@.len(),
        i + h + 1 <= usize::MAX,
    ensures
        r == la_ok(w@, h as nat, i as int, a),
{
    match a {
        None => true,
        Some(c) => {
            let mut m: usize = i;
            while m <= i + h
                invariant
                    i <= m <= i + h + 1,
                    i + h < w@.len(),
                    i + h + 1 <= usize::MAX,
                    a == Some(c),
                    forall|k: int| i <= k < m ==> w@[k] != c,
                decreases i + h + 1 - m,
            {
                if w[m] == c {
                    assert(w@[m as int] == c);
                    assert(la_ok(w@, h as nat, i as int, a));
                    return true;
                }
                m = m + 1;
            }
            false
        },
    }
}

/// A recognizer: a grammar and a lookahead horizon.
///
/// Each item carries a lookahead string of at most one symbol: the symbol
/// that follows it (see `next_la`), or none under horizon 0. The root item
/// starts with one end marker under any positive horizon. The completer
/// looks for that string in the window of `lookahead + 1` input symbols at
/// the current position, so a horizon above 1 widens the window and keeps
/// the string at one symbol. This is a deliberate choice: a longer string
/// would need a composition rule across nested predictions.
pub struct Recognizer {
    pub grammar: Grammar,
    pub lookahead: usize,
}

impl Recognizer {
    pub fn new(grammar: Grammar, lookahead: usize) -> (r: Recognizer)
        ensures
            r.grammar@ == grammar@,
            r.lookahead == lookahead,
    {
        Recognizer { grammar, lookahead }
    }

    /// The `lookahead` symbols of `input` from `index` on, padded with end
    /// markers past the end of `input`.
    pub fn slice_with_lookahead(&self, input: &[char], index: usize) -> (r: Vec<char>)
        requires
            index <= input@.len(),
            index + self.lookahead <= usize::MAX,
        ensures
            r@ == window(input@, index as int, self.lookahead as nat),
    {
        let mut r: Vec<char> = Vec::new();
        let mut k: usize = 0;
        while k < self.lookahead
            invariant
                k <= self.lookahead,
                index + self.lookahead <= usize::MAX,
                r@ == window(input@, index as int, k as nat),
            decreases self.lookahead - k,
        {
            if index + k < input.len() {
                r.push(input[index + k]);
            } else {
                r.push(END_MARKER);
            }
            k = k + 1;
            assert(r@ =~= window(input@, index as int, k as nat));
        }
        r
    }

    /// Whether `input` is in the language of the grammar, under this
    /// recognizer's lookahead horizon: whether the root production,
    /// completed over the whole input with its one-symbol (or, under
    /// horizon 0, empty) lookahead string, has a derivation. See the notes
    /// on `Recognizer` for horizons above 1.
    pub fn recognize(&self, input: &str) -> (r: bool)
        requires
            input@.len() + self.lookahead + 3 <= usize::MAX,
        ensures
            r == accepts(self.grammar@, self.lookahead as nat, input@),
    {
        let ghost g = self.grammar@;
        let ghost h = self.lookahead as nat;
        let chars = chars_of(input);
        let n = chars.len();
        let w = pad_input(&chars, self.lookahead);
        if self.grammar.productions.len() == 0 {
            proof {
                if accepts(g, h, input@) {
                    let last: int = n + 1;
                    lemma_valid_well(g, h, w@, n as nat, last, accept_item(h));
                }
            }
            return false;
        }
        let mut sets: Vec<Vec<Item>> = Vec::new();
        let mut completer: Vec<Vec<Vec<Item>>> = Vec::new();
        let mut cur: Vec<Item> = Vec::new();
        let mut next: Vec<Item> = Vec::new();
        let seed_la = if self.lookahead == 0 { None } else { Some(END_MARKER) };
        let seed = Item { p: 0, j: 0, f: 0, alpha: seed_la };
        proof {
            lemma_seed_valid(g, h, w@, n as nat);
        }
        cur.push(seed);
        proof {
            assert(cur@[0] == seed);
            assert forall|y: Item| #[trigger] cur@.contains(y) implies valid(g, h, w@, n as nat, 0, y) by {
                let m = choose|m: int| 0 <= m < cur@.len() && cur@[m] == y;
            }
        }
        let mut i: usize = 0;
        while i <= n
            invariant
                g == self.grammar@,
                h == self.lookahead as nat,
                g.len() > 0,
                n == input@.len(),
                n + h + 3 <= usize::MAX,
                w@ == padded(input@, h),
                i <= n + 1,
                sets@.len() == i,
                forall|m: int| 0 <= m < i ==> sound_set(g, h, w@, n as nat, m, #[trigger] sets@[m]@),
                completer@.len() == i,
                forall|m: int| 0 <= m < i ==> indexes(g, sets@[m]@, #[trigger] completer@[m]@),
                sound_set(g, h, w@, n as nat, i as int, cur@),
                cur@.no_duplicates(),
                next@ == Seq::<Item>::empty(),
                chart_of(sets@, cur@, next@)[0].contains(seed_item(h)),
                forall|m: int| 0 <= m < i ==> closed_at(g, h, w@, chart_of(sets@, cur@, next@), m),
            decreases n + 1 - i,
        {
            let ghost chart0 = chart_of(sets@, cur@, next@);
            let ghost cur0 = cur@;
            let ghost bound = item_space(g.len() as int, max_body(g) + 1 as int, i + 1);
            proof {
                lemma_state_set_bounded(g, h, w@, n as nat, i as int, cur@);
            }
            let mut k: usize = 0;
            while k < cur.len()
                invariant
                    g == self.grammar@,
                    h == self.lookahead as nat,
                    g.len() > 0,
                    n == input@.len(),
                    n + h + 3 <= usize::MAX,
                    w@ == padded(input@, h),
                    i <= n,
                    sets@.len() == i,
                    forall|m: int| 0 <= m < i ==> sound_set(g, h, w@, n as nat, m, #[trigger] sets@[m]@),
                    completer@.len() == i,
                    forall|m: int| 0 <= m < i ==> indexes(g, sets@[m]@, #[trigger] completer@[m]@),
                    sound_set(g, h, w@, n as nat, i as int, cur@),
                    cur@.no_duplicates(),
                    sound_set(g, h, w@, n as nat, i + 1, next@),
                    next@.no_duplicates(),
                    extends(cur0, cur@),
                    chart0 == chart_of(sets@, cur0, Seq::<Item>::empty()),
                    chart0[0].contains(seed_item(h)),
                    forall|m: int| 0 <= m < i ==> closed_at(g, h, w@, chart0, m),
                    bound == item_space(g.len() as int, max_body(g) + 1 as int, i + 1),
                    cur@.len() <= bound,
                    k <= cur@.len(),
                    processed(g, h, w@, sets@, cur@, next@, i as int, k as int),
                decreases bound - k,
            {
                let ghost before = cur@;
                let ghost next_before = next@;
                let s = cur[k];
                assert(cur@.contains(s));
                proof {
                    lemma_valid_well(g, h, w@, n as nat, i as int, s);
                }
                let c = self.dot_symbol(s);
                let nonfinal = self.grammar.is_nonfinal(&s);
                if nonfinal && self.grammar.is_nonterminal(c) {
                    self.predict(&w, n, &mut cur, s, i);
                    let ghost after_predict = cur@;
                    self.complete_nullable(&w, n, &mut cur, s, i, k);
                    proof {
                        lemma_extends_within(after_predict, cur@);
                        assert forall|q: usize| #![trigger g[q as int]]
                            q < g.len() && g[q as int].0 == dot(g, s)
                            implies cur@.contains(predicted(g, h, s, q, i as int)) by {
                            assert(after_predict.contains(predicted(g, h, s, q, i as int)));
                        }
                        assert forall|a: int| #![trigger before[a]]
                            0 <= a < k && is_final(g, before[a]) && before[a].f == i
                            && la_ok(w@, h, i as int, before[a].alpha) && g[before[a].p as int].0 == dot(g, s)
                            implies cur@.contains(advance(s)) by {
                            assert(after_predict[a] == before[a]);
                        }
                    }
                }
                let ghost after_waiting = cur@;
                if self.grammar.is_final(&s) && lookahead_fits(&w, self.lookahead, i, s.alpha) {
                    self.complete(&w, n, &sets, &completer, &mut cur, s, i, k);
                }
                if nonfinal && self.grammar.is_terminal(c) && c == w[i] {
                    proof {
                        lemma_scan_valid(g, h, w@, n as nat, i as int, s);
                    }
                    insert_item(&mut next, self.advanced(s));
                }
                proof {
                    assert(cur@[k as int] == s);
                    lemma_state_set_bounded(g, h, w@, n as nat, i as int, cur@);
                    lemma_extends_within(before, cur@);
                    lemma_extends_within(next_before, next@);
                    assert forall|a: int, q: usize| #![trigger cur@[a], g[q as int]]
                        0 <= a < k + 1 && waiting_on(g, cur@[a], dot(g, cur@[a])) && q < g.len()
                        && g[q as int].0 == dot(g, cur@[a])
                        implies cur@.contains(predicted(g, h, cur@[a], q, i as int)) by {
                        if a < k {
                            assert(before[a] == cur@[a]);
                            assert(before.contains(predicted(g, h, before[a], q, i as int)));
                        }
                    }
                    assert forall|a: int| #![trigger cur@[a]]
                        0 <= a < k + 1 && !is_final(g, cur@[a]) && !nonterminal(dot(g, cur@[a]))
                        && dot(g, cur@[a]) == w@[i as int]
                        implies next@.contains(advance(cur@[a])) by {
                        if a < k {
                            assert(before[a] == cur@[a]);
                            assert(next_before.contains(advance(before[a])));
                        }
                    }
                    assert forall|a: int, t: Item| #![trigger cur@[a], sets@[cur@[a].f as int]@.contains(t)]
                        0 <= a < k + 1 && is_final(g, cur@[a]) && la_ok(w@, h, i as int, cur@[a].alpha)
                        && cur@[a].f < i && sets@[cur@[a].f as int]@.contains(t)
                        && waiting_on(g, t, g[cur@[a].p as int].0)
                        implies cur@.contains(advance(t)) by {
                        if a < k {
                            assert(before[a] == cur@[a]);
                            assert(before.contains(advance(t)));
                        }
                    }
                    assert forall|a: int, b: int| #![trigger cur@[a], cur@[b]]
                        0 <= a < k + 1 && 0 <= b < k + 1 && is_final(g, cur@[a])
                        && la_ok(w@, h, i as int, cur@[a].alpha) && cur@[a].f == i
                        && waiting_on(g, cur@[b], g[cur@[a].p as int].0)
                        implies cur@.contains(advance(cur@[b])) by {
                        if a < k && b < k {
                            assert(before[a] == cur@[a]);
                            assert(before[b] == cur@[b]);
                            assert(before.contains(advance(before[b])));
                        } else if a < k {
                            assert(before[a] == cur@[a]);
                            assert(after_waiting.contains(advance(s)));
                            lemma_extends_within(after_waiting, cur@);
                        } else if b < k {
                            assert(before[b] == cur@[b]);
                        }
                    }
                    assert(processed(g, h, w@, sets@, cur@, next@, i as int, k + 1));
                }
                k = k + 1;
            }
            let ghost chart1 = chart_of(sets@, cur@, next@);
            proof {
                assert(chart1[i as int] == cur@);
                assert(chart1[i + 1] == next@);
                assert forall|s2: Item, q: usize| #![trigger chart1[i as int].contains(s2), g[q as int]]
                    chart1[i as int].contains(s2) && waiting_on(g, s2, dot(g, s2)) && q < g.len()
                    && g[q as int].0 == dot(g, s2)
                    implies chart1[i as int].contains(predicted(g, h, s2, q, i as int)) by {
                    let a = choose|a: int| 0 <= a < cur@.len() && cur@[a] == s2;
                }
                assert forall|s2: Item| #[trigger] chart1[i as int].contains(s2)
                    && !is_final(g, s2) && !nonterminal(dot(g, s2)) && dot(g, s2) == w@[i as int]
                    implies chart1[i + 1].contains(advance(s2)) by {
                    let a = choose|a: int| 0 <= a < cur@.len() && cur@[a] == s2;
                }
                assert forall|s2: Item, t: Item| #[trigger] chart1[i as int].contains(s2)
                    && #[trigger] chart1[s2.f as int].contains(t)
                    && is_final(g, s2) && la_ok(w@, h, i as int, s2.alpha) && waiting_on(g, t, g[s2.p as int].0)
                    implies chart1[i as int].contains(advance(t)) by {
                    let a = choose|a: int| 0 <= a < cur@.len() && cur@[a] == s2;
                    lemma_valid_well(g, h, w@, n as nat, i as int, s2);
                    if s2.f < i {
                        assert(chart1[s2.f as int] == sets@[s2.f as int]@);
                    } else {
                        let b = choose|b: int| 0 <= b < cur@.len() && cur@[b] == t;
                    }
                }
                assert(closed_at(g, h, w@, chart1, i as int));
                lemma_extends_within(cur0, cur@);
                assert forall|m: int| 0 <= m < i implies closed_at(g, h, w@, chart1, m) by {
                    lemma_sound_origins(g, h, w@, n as nat, m, sets@[m]@);
                    assert(chart0[m] == sets@[m]@);
                    if m + 1 < i {
                        assert(chart1[m + 1] == chart0[m + 1]);
                    } else {
                        assert(chart0[m + 1] == cur0);
                    }
                    lemma_closed_grow(g, h, w@, chart0, chart1, m);
                }
                if i == 0 {
                    assert(chart1[0] == cur@);
                    assert(chart0[0] == cur0);
                }
                assert(chart1[0].contains(seed_item(h)));
            }
            proof {
                assert forall|y: Item| #[trigger] cur@.contains(y)
                    implies y.p < g.len() && y.j <= g[y.p as int].1.len() by {
                    lemma_valid_well(g, h, w@, n as nat, i as int, y);
                }
            }
            let index = self.index_waiting(&cur);
            let ghost completer1 = completer@;
            completer.push(index);
            let ghost sets1 = sets@;
            let ghost cur1 = cur@;
            sets.push(cur);
            cur = next;
            next = Vec::new();
            proof {
                let chart2 = chart_of(sets@, cur@, next@);
                assert(sets@.map_values(|v: Vec<Item>| v@) =~= sets1.map_values(|v: Vec<Item>| v@).push(cur1));
                assert(sets@[i as int]@ == cur1);
                assert forall|k2: int| 0 <= k2 <= i + 1 implies #[trigger] chart2[k2] == chart1[k2] by {}
                assert forall|m: int| 0 <= m <= i implies closed_at(g, h, w@, chart2, m) by {
                    assert(chart2[m] == chart1[m]);
                    assert(chart2[m + 1] == chart1[m + 1]);
                    if m < i {
                        lemma_sound_origins(g, h, w@, n as nat, m, sets@[m]@);
                    } else {
                        lemma_sound_origins(g, h, w@, n as nat, m, cur1);
                    }
                    lemma_closed_grow(g, h, w@, chart1, chart2, m);
                }
                assert(chart2[0] == chart1[0]);
                assert forall|m: int| 0 <= m < i + 1 implies sound_set(g, h, w@, n as nat, m, #[trigger] sets@[m]@) by {
                    if m < i {
                        assert(sets@[m] == sets1[m]);
                    }
                }
                assert forall|m: int| 0 <= m < i + 1 implies indexes(g, sets@[m]@, #[trigger] completer@[m]@) by {
                    if m < i {
                        assert(sets@[m] == sets1[m]);
                        assert(completer@[m] == completer1[m]);
                    }
                }
            }
            i = i + 1;
        }
        let acc = Item { p: 0, j: 2, f: 0, alpha: seed_la };
        let r = contains_item(&cur, acc);
        proof {
            let chart = chart_of(sets@, cur@, next@);
            assert(chart[n + 1] == cur@);
            assert(acc == accept_item(h));
            if accepts(g, h, input@) {
                let last: int = n + 1;
                let tr = choose|tr: Derivation| derives(g, h, w@, n as nat, tr, last, accept_item(h));
                lemma_closed_complete(g, h, w@, n as nat, chart, tr, last, acc);
            }
        }
        r
    }

    fn body_len(&self, p: usize) -> (r: usize)
        requires
            p < self.grammar@.len(),
        ensures
            r == self.grammar@[p as int].1.len(),
    {
        self.grammar.productions[p].p_bar()
    }

    fn head(&self, p: usize) -> (r: char)
        requires
            p < self.grammar@.len(),
        ensures
            r == self.grammar@[p as int].0,
    {
        self.grammar.productions[p].nonterminal
    }

    /// `s` with its dot moved past one symbol.
    fn advanced(&self, s: Item) -> (r: Item)
        requires
            s.p < self.grammar@.len(),
            s.j < self.grammar@[s.p as int].1.len(),
        ensures
            r == advance(s),
    {
        // The body's length is a usize, so `s.j + 1` does not overflow.
        let _ = self.body_len(s.p);
        Item { p: s.p, j: s.j + 1, f: s.f, alpha: s.alpha }
    }

    fn dot_symbol(&self, s: Item) -> (c: char)
        requires
            s.p < self.grammar@.len(),
            s.j <= self.grammar@[s.p as int].1.len(),
        ensures
            c == dot(self.grammar@, s),
    {
        let ctx = vec![END_MARKER];
        assert(ctx@ =~= seq![END_MARKER]);
        self.grammar.index_production(s.p, s.j, ctx.as_slice())
    }

    fn next_lookahead(&self, s: Item) -> (r: Option<char>)
        requires
            s.p < self.grammar@.len(),
            s.j < self.grammar@[s.p as int].1.len(),
            s.alpha is Some <==> self.lookahead > 0,
        ensures
            r == next_la(self.grammar@, self.lookahead as nat, s),
    {
        match s.alpha {
            None => None,
            Some(a) => {
                // The body's length is a usize, so `s.j + 1` does not overflow.
                let _ = self.body_len(s.p);
                let ctx = vec![a];
                assert(ctx@ =~= la_seq(s.alpha));
                Some(self.grammar.index_production(s.p, s.j + 1, ctx.as_slice()))
            },
        }
    }

    /// Predictor: adds to state set `i` an item for each production headed
    /// by the nonterminal at `s`'s dot.
    fn predict(&self, w: &Vec<char>, n: usize, cur: &mut Vec<Item>, s: Item, i: usize)
        requires
            i <= n,
            valid(self.grammar@, self.lookahead as nat, w@, n as nat, i as int, s),
            waiting_on(self.grammar@, s, dot(self.grammar@, s)),
            sound_set(self.grammar@, self.lookahead as nat, w@, n as nat, i as int, old(cur)@),
            old(cur)@.no_duplicates(),
        ensures
            sound_set(self.grammar@, self.lookahead as nat, w@, n as nat, i as int, final(cur)@),
            final(cur)@.no_duplicates(),
            extends(old(cur)@, final(cur)@),
            forall|q: usize| #![trigger self.grammar@[q as int]]
                q < self.grammar@.len() && self.grammar@[q as int].0 == dot(self.grammar@, s)
                ==> final(cur)@.contains(predicted(self.grammar@, self.lookahead as nat, s, q, i as int)),
    {
        let ghost g = self.grammar@;
        let ghost h = self.lookahead as nat;
        let ghost start = cur@;
        let c = self.dot_symbol(s);
        let la = self.next_lookahead(s);
        let mut q: usize = 0;
        while q < self.grammar.productions.len()
            invariant
                g == self.grammar@,
                h == self.lookahead as nat,
                i <= n,
                c == dot(g, s),
                la == next_la(g, h, s),
                valid(g, h, w@, n as nat, i as int, s),
                waiting_on(g, s, dot(g, s)),
                q <= g.len(),
                sound_set(g, h, w@, n as nat, i as int, cur@),
                cur@.no_duplicates(),
                extends(start, cur@),
                forall|q2: usize| #![trigger g[q2 as int]]
                    q2 < q && g[q2 as int].0 == c ==> cur@.contains(predicted(g, h, s, q2, i as int)),
            decreases g.len() - q,
        {
            if self.grammar.productions[q].nonterminal == c {
                let x = Item { p: q, j: 0, f: i, alpha: la };
                proof {
                    lemma_predict_valid(g, h, w@, n as nat, i as int, s, q);
                    assert(x == predicted(g, h, s, q, i as int));
                }
                insert_item(cur, x);
            }
            q = q + 1;
        }
    }

    /// Completions at the current position that `s` missed: `s` waits on a
    /// nonterminal that an earlier final item of this position, begun here,
    /// has already finished.
    fn complete_nullable(&self, w: &Vec<char>, n: usize, cur: &mut Vec<Item>, s: Item, i: usize, k: usize)
        requires
            i <= n,
            w@.len() == n + self.lookahead + 1,
            n + self.lookahead + 3 <= usize::MAX,
            valid(self.grammar@, self.lookahead as nat, w@, n as nat, i as int, s),
            waiting_on(self.grammar@, s, dot(self.grammar@, s)),
            k <= old(cur)@.len(),
            sound_set(self.grammar@, self.lookahead as nat, w@, n as nat, i as int, old(cur)@),
            old(cur)@.no_duplicates(),
        ensures
            sound_set(self.grammar@, self.lookahead as nat, w@, n as nat, i as int, final(cur)@),
            final(cur)@.no_duplicates(),
            extends(old(cur)@, final(cur)@),
            forall|a: int| #![trigger old(cur)@[a]]
                0 <= a < k && is_final(self.grammar@, old(cur)@[a]) && old(cur)@[a].f == i
                && la_ok(w@, self.lookahead as nat, i as int, old(cur)@[a].alpha)
                && self.grammar@[old(cur)@[a].p as int].0 == dot(self.grammar@, s)
                ==> final(cur)@.contains(advance(s)),
    {
        let ghost g = self.grammar@;
        let ghost h = self.lookahead as nat;
        let ghost start = cur@;
        let c = self.dot_symbol(s);
        let moved = self.advanced(s);
        let mut a: usize = 0;
        while a < k
            invariant
                g == self.grammar@,
                h == self.lookahead as nat,
                i <= n,
                w@.len() == n + h + 1,
                c == dot(g, s),
                moved == advance(s),
                n + h + 3 <= usize::MAX,
                valid(g, h, w@, n as nat, i as int, s),
                waiting_on(g, s, dot(g, s)),
                a <= k,
                k <= start.len(),
                sound_set(g, h, w@, n as nat, i as int, cur@),
                cur@.no_duplicates(),
                extends(start, cur@),
                forall|a2: int| #![trigger start[a2]]
                    0 <= a2 < a && is_final(g, start[a2]) && start[a2].f == i
                    && la_ok(w@, h, i as int, start[a2].alpha) && g[start[a2].p as int].0 == c
                    ==> cur@.contains(advance(s)),
            decreases k - a,
        {
            let t = cur[a];
            assert(t == start[a as int]);
            assert(cur@.contains(t));
            proof {
                lemma_valid_well(g, h, w@, n as nat, i as int, t);
            }
            if t.j == self.body_len(t.p) && t.f == i && self.head(t.p) == c
                && lookahead_fits(w, self.lookahead, i, t.alpha) {
                proof {
                    lemma_complete_valid(g, h, w@, n as nat, i as int, t, s);
                }
                insert_item(cur, moved);
            }
            a = a + 1;
        }
    }

    /// The items of `v` waiting on nonterminal `nt`.
    fn waiting_on_symbol(&self, v: &Vec<Item>, nt: char) -> (r: Vec<Item>)
        requires
            forall|y: Item| #[trigger] v@.contains(y)
                ==> y.p < self.grammar@.len() && y.j <= self.grammar@[y.p as int].1.len(),
        ensures
            forall|t: Item| #[trigger] r@.contains(t) <==> v@.contains(t) && waiting_on(self.grammar@, t, nt),
    {
        let ghost g = self.grammar@;
        let mut r: Vec<Item> = Vec::new();
        let mut b: usize = 0;
        while b < v.len()
            invariant
                g == self.grammar@,
                forall|y: Item| #[trigger] v@.contains(y) ==> y.p < g.len() && y.j <= g[y.p as int].1.len(),
                b <= v@.len(),
                forall|t: Item| #[trigger] r@.contains(t) ==> v@.contains(t) && waiting_on(g, t, nt),
                forall|b2: int| #![trigger v@[b2]] 0 <= b2 < b && waiting_on(g, v@[b2], nt) ==> r@.contains(v@[b2]),
            decreases v@.len() - b,
        {
            let t = v[b];
            assert(v@.contains(t));
            if t.j < self.body_len(t.p) {
                let c = self.dot_symbol(t);
                if c == nt && symbol_is_nonterminal(c) {
                    let ghost r0 = r@;
                    r.push(t);
                    proof {
                        assert(r@[r0.len() as int] == t);
                        assert forall|y: Item| #[trigger] r@.contains(y) implies v@.contains(y) && waiting_on(g, y, nt) by {
                            let m = choose|m: int| 0 <= m < r@.len() && r@[m] == y;
                            if m < r0.len() {
                                assert(r0[m] == y);
                                assert(r0.contains(y));
                            } else {
                                assert(y == t);
                            }
                        }
                        assert forall|b2: int| #![trigger v@[b2]] 0 <= b2 < b && waiting_on(g, v@[b2], nt)
                            implies r@.contains(v@[b2]) by {
                            assert(r0.contains(v@[b2]));
                            let m = choose|m: int| 0 <= m < r0.len() && r0[m] == v@[b2];
                            assert(r@[m] == v@[b2]);
                        }
                    }
                }
            }
            b = b + 1;
        }
        assert forall|t: Item| v@.contains(t) && waiting_on(g, t, nt) implies #[trigger] r@.contains(t) by {
            let b2 = choose|b2: int| 0 <= b2 < v@.len() && v@[b2] == t;
        }
        r
    }

    /// The completer index of a finished state set: for each production,
    /// the items of `v` waiting on its head.
    fn index_waiting(&self, v: &Vec<Item>) -> (r: Vec<Vec<Item>>)
        requires
            forall|y: Item| #[trigger] v@.contains(y)
                ==> y.p < self.grammar@.len() && y.j <= self.grammar@[y.p as int].1.len(),
        ensures
            indexes(self.grammar@, v@, r@),
    {
        let ghost g = self.grammar@;
        let mut r: Vec<Vec<Item>> = Vec::new();
        let mut p: usize = 0;
        while p < self.grammar.productions.len()
            invariant
                g == self.grammar@,
                forall|y: Item| #[trigger] v@.contains(y) ==> y.p < g.len() && y.j <= g[y.p as int].1.len(),
                p <= g.len(),
                r@.len() == p,
                forall|p2: int, t: Item| #![trigger r@[p2]@.contains(t)]
                    0 <= p2 < p ==> (r@[p2]@.contains(t) <==> v@.contains(t) && waiting_on(g, t, g[p2].0)),
            decreases g.len() - p,
        {
            let nt = self.head(p);
            let bucket = self.waiting_on_symbol(v, nt);
            r.push(bucket);
            p = p + 1;
        }
        r
    }

    /// Completer: `s` is final and its lookahead fits; advances every item
    /// that waited at `s`'s origin on `s`'s head.
    fn complete(
        &self, w: &Vec<char>, n: usize, sets: &Vec<Vec<Item>>, completer: &Vec<Vec<Vec<Item>>>,
        cur: &mut Vec<Item>, s: Item, i: usize, k: usize,
    )
        requires
            i <= n,
            sets@.len() == i,
            completer@.len() == i,
            forall|m: int| 0 <= m < i ==> indexes(self.grammar@, sets@[m]@, #[trigger] completer@[m]@),
            forall|m: int| 0 <= m < i ==> sound_set(self.grammar@, self.lookahead as nat, w@, n as nat, m, #[trigger] sets@[m]@),
            valid(self.grammar@, self.lookahead as nat, w@, n as nat, i as int, s),
            is_final(self.grammar@, s),
            la_ok(w@, self.lookahead as nat, i as int, s.alpha),
            k <= old(cur)@.len(),
            sound_set(self.grammar@, self.lookahead as nat, w@, n as nat, i as int, old(cur)@),
            old(cur)@.no_duplicates(),
        ensures
            sound_set(self.grammar@, self.lookahead as nat, w@, n as nat, i as int, final(cur)@),
            final(cur)@.no_duplicates(),
            extends(old(cur)@, final(cur)@),
            s.f < i ==> forall|t: Item| #[trigger] sets@[s.f as int]@.contains(t)
                && waiting_on(self.grammar@, t, self.grammar@[s.p as int].0)
                ==> final(cur)@.contains(advance(t)),
            s.f == i ==> forall|b: int| #![trigger old(cur)@[b]] 0 <= b < k
                && waiting_on(self.grammar@, old(cur)@[b], self.grammar@[s.p as int].0)
                ==> final(cur)@.contains(advance(old(cur)@[b])),
    {
        let ghost g = self.grammar@;
        let ghost h = self.lookahead as nat;
        let ghost start = cur@;
        proof {
            lemma_valid_well(g, h, w@, n as nat, i as int, s);
        }
        let nt = self.head(s.p);
        if s.f < i {
            let src = &completer[s.f][s.p];
            assert(indexes(g, sets@[s.f as int]@, completer@[s.f as int]@));
            let mut b: usize = 0;
            while b < src.len()
                invariant
                    g == self.grammar@,
                    h == self.lookahead as nat,
                    i <= n,
                    s.f < i,
                    sets@.len() == i,
                    sound_set(g, h, w@, n as nat, s.f as int, sets@[s.f as int]@),
                    forall|t: Item| #[trigger] src@.contains(t)
                        ==> sets@[s.f as int]@.contains(t) && waiting_on(g, t, g[s.p as int].0),
                    valid(g, h, w@, n as nat, i as int, s),
                    is_final(g, s),
                    la_ok(w@, h, i as int, s.alpha),
                    b <= src@.len(),
                    sound_set(g, h, w@, n as nat, i as int, cur@),
                    cur@.no_duplicates(),
                    extends(start, cur@),
                    forall|b2: int| #![trigger src@[b2]] 0 <= b2 < b ==> cur@.contains(advance(src@[b2])),
                decreases src@.len() - b,
            {
                let t = src[b];
                assert(src@.contains(t));
                assert(sets@[s.f as int]@.contains(t));
                proof {
                    lemma_complete_valid(g, h, w@, n as nat, i as int, s, t);
                    lemma_valid_well(g, h, w@, n as nat, s.f as int, t);
                }
                insert_item(cur, self.advanced(t));
                b = b + 1;
            }
            assert forall|t: Item| #[trigger] sets@[s.f as int]@.contains(t) && waiting_on(g, t, g[s.p as int].0)
                implies cur@.contains(advance(t)) by {
                assert(completer@[s.f as int]@[s.p as int]@.contains(t));
                let b2 = choose|b2: int| 0 <= b2 < src@.len() && src@[b2] == t;
            }
        } else {
            let mut b: usize = 0;
            while b < k
                invariant
                    g == self.grammar@,
                    h == self.lookahead as nat,
                    i <= n,
                    s.f == i,
                    nt == g[s.p as int].0,
                    valid(g, h, w@, n as nat, i as int, s),
                    is_final(g, s),
                    la_ok(w@, h, i as int, s.alpha),
                    b <= k,
                    k <= start.len(),
                    sound_set(g, h, w@, n as nat, i as int, cur@),
                    cur@.no_duplicates(),
                    extends(start, cur@),
                    forall|b2: int| #![trigger start[b2]]
                        0 <= b2 < b && waiting_on(g, start[b2], nt) ==> cur@.contains(advance(start[b2])),
                decreases k - b,
            {
                let t = cur[b];
                assert(t == start[b as int]);
                assert(cur@.contains(t));
                if t.j < self.body_len(t.p) {
                    let c = self.dot_symbol(t);
                    if c == nt && symbol_is_nonterminal(c) {
                        proof {
                            lemma_complete_valid(g, h, w@, n as nat, i as int, s, t);
                        }
                        insert_item(cur, self.advanced(t));
                    }
                }
                b = b + 1;
            }
        }
    }
}

} // verus!
