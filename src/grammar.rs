use vstd::prelude::*;
use crate::symbol::{END_MARKER, ROOT_HEAD, nonterminal, symbol_is_nonterminal};
use crate::item::{Item, is_final};

verus! {

/// Copies the characters of `s` into a vector.
pub fn chars_of(s: &str) -> (r: Vec<char>)
    ensures
        r@ == s@,
{
    let n = s.unicode_len();
    let mut r: Vec<char> = Vec::new();
    let mut k: usize = 0;
    while k < n
        invariant
            n == s@.len(),
            k <= n,
            r@ == s@.subrange(0, k as int),
        decreases n - k,
    {
        r.push(s.get_char(k));
        k = k + 1;
        assert(r@ =~= s@.subrange(0, k as int));
    }
    assert(r@ =~= s@);
    r
}

/// A production `nonterminal -> alternative`.
#[derive(Clone, Debug)]
pub struct Production {
    pub nonterminal: char,
    pub alternative: Vec<char>,
}

impl View for Production {
    type V = (char, Seq<char>);

    open spec fn view(&self) -> (char, Seq<char>) {
        (self.nonterminal, self.alternative@)
    }
}

impl Production {
    pub fn new(nonterminal: char, alternative: &str) -> (r: Production)
        ensures
            r@ == (nonterminal, alternative@),
    {
        Production { nonterminal, alternative: chars_of(alternative) }
    }

    /// Length of the body.
    pub fn p_bar(&self) -> (r: usize)
        ensures
            r == self.alternative@.len(),
    {
        self.alternative.len()
    }
}

/// Symbol at body position `j` of `body`, read on into `context` once the
/// body is exhausted.
pub open spec fn symbol_at(body: Seq<char>, j: int, context: Seq<char>) -> char {
    if j < body.len() {
        body[j]
    } else {
        context[j - body.len()]
    }
}

/// Bodies of the productions of `g` headed by `nt`, in grammar order.
pub open spec fn bodies_for(g: Seq<(char, Seq<char>)>, nt: char) -> Seq<Seq<char>>
    decreases g.len(),
{
    if g.len() == 0 {
        Seq::empty()
    } else {
        let rest = bodies_for(g.drop_last(), nt);
        if g.last().0 == nt {
            rest.push(g.last().1)
        } else {
            rest
        }
    }
}

/// Production `pr` uses symbol `c`, as its head or in its body.
pub open spec fn mentions(pr: (char, Seq<char>), c: char) -> bool {
    pr.0 == c || pr.1.contains(c)
}

/// The root production for start symbol `root`.
pub open spec fn root_production(root: char) -> (char, Seq<char>) {
    (ROOT_HEAD, seq![root, END_MARKER])
}

/// A grammar: the root production at index 0, then the given productions
/// in order. Production indices are stable identities.
#[derive(Clone, Debug)]
pub struct Grammar {
    pub productions: Vec<Production>,
}

impl View for Grammar {
    type V = Seq<(char, Seq<char>)>;

    open spec fn view(&self) -> Seq<(char, Seq<char>)> {
        self.productions@.map_values(|p: Production| p@)
    }
}

impl Grammar {
    /// The root head is reserved: neither the start symbol nor any given
    /// production may use it.
    pub fn new(productions: Vec<Production>, root: char) -> (r: Grammar)
        requires
            root != ROOT_HEAD,
            forall|q: int| 0 <= q < productions@.len() ==> !mentions(#[trigger] productions@[q]@, ROOT_HEAD),
        ensures
            r@ == seq![root_production(root)] + productions@.map_values(|p: Production| p@),
            r@[0].0 != root,
            forall|q: int| 1 <= q < r@.len() ==> !mentions(#[trigger] r@[q], r@[0].0),
    {
        let ghost given = productions@;
        let mut productions = productions;
        let mut body: Vec<char> = Vec::new();
        body.push(root);
        body.push(END_MARKER);
        assert(body@ =~= seq![root, END_MARKER]);
        let mut prod: Vec<Production> = Vec::new();
        prod.push(Production { nonterminal: ROOT_HEAD, alternative: body });
        prod.append(&mut productions);
        let r = Grammar { productions: prod };
        assert(r@ =~= seq![root_production(root)] + given.map_values(|p: Production| p@));
        assert forall|q: int| 1 <= q < r@.len() implies !mentions(#[trigger] r@[q], r@[0].0) by {
            assert(r@[q] == given[q - 1]@);
        }
        r
    }

    /// The symbol at position `j` of production `p`'s body, read on into
    /// `alpha` past the body's end.
    pub fn index_production(&self, p: usize, j: usize, alpha: &[char]) -> (r: char)
        requires
            p < self@.len(),
            j < self@[p as int].1.len() + alpha@.len(),
        ensures
            r == symbol_at(self@[p as int].1, j as int, alpha@),
    {
        let body = &self.productions[p].alternative;
        if j >= body.len() {
            alpha[j - body.len()]
        } else {
            body[j]
        }
    }

    pub fn is_nonterminal(&self, c: char) -> (r: bool)
        ensures
            r == nonterminal(c),
    {
        symbol_is_nonterminal(c)
    }

    pub fn is_terminal(&self, c: char) -> (r: bool)
        ensures
            r == !nonterminal(c),
    {
        !self.is_nonterminal(c)
    }

    /// The bodies of the productions headed by `nt`, in grammar order.
    pub fn by_nonterminal(&self, nt: char) -> (r: Vec<Vec<char>>)
        requires
            nonterminal(nt),
        ensures
            r@.map_values(|b: Vec<char>| b@) == bodies_for(self@, nt),
    {
        let mut r: Vec<Vec<char>> = Vec::new();
        let mut k: usize = 0;
        while k < self.productions.len()
            invariant
                k <= self@.len(),
                r@.map_values(|b: Vec<char>| b@) == bodies_for(self@.subrange(0, k as int), nt),
            decreases self@.len() - k,
        {
            let ghost before = r@;
            assert(self@.subrange(0, k + 1).drop_last() =~= self@.subrange(0, k as int));
            if self.productions[k].nonterminal == nt {
                r.push(copy_body(&self.productions[k].alternative));
                assert(r@.map_values(|b: Vec<char>| b@) =~= before.map_values(|b: Vec<char>| b@).push(self@[k as int].1));
            }
            k = k + 1;
        }
        assert(self@.subrange(0, self@.len() as int) =~= self@);
        r
    }

    /// Whether the dot of `state` stands before the end of its body.
    pub fn is_nonfinal(&self, state: &Item) -> (r: bool)
        requires
            state.p < self@.len(),
        ensures
            r == !is_final(self@, *state),
    {
        state.j != self.productions[state.p].p_bar()
    }

    /// Whether the dot of `state` stands at the end of its body.
    pub fn is_final(&self, state: &Item) -> (r: bool)
        requires
            state.p < self@.len(),
        ensures
            r == is_final(self@, *state),
    {
        !self.is_nonfinal(state)
    }
}

/// A fresh copy of a production body.
fn copy_body(b: &Vec<char>) -> (r: Vec<char>)
    ensures
        r@ == b@,
{
    let mut r: Vec<char> = Vec::new();
    let mut k: usize = 0;
    while k < b.len()
        invariant
            k <= b@.len(),
            r@ == b@.subrange(0, k as int),
        decreases b@.len() - k,
    {
        r.push(b[k]);
        k = k + 1;
        assert(r@ =~= b@.subrange(0, k as int));
    }
    assert(r@ =~= b@);
    r
}

} // verus!
