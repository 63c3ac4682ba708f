use lookahead_earley::item::Item;
use lookahead_earley::{Grammar, Production, Recognizer, END_MARKER, ROOT_HEAD};

fn expression_grammar() -> Grammar {
    let p1 = Production::new('E', "T");
    let p2 = Production::new('E', "E+T");
    let p3 = Production::new('T', "P");
    let p4 = Production::new('T', "T*P");
    let p5 = Production::new('P', "a");
    Grammar::new(vec![p1, p2, p3, p4, p5], 'E')
}

#[test]
fn it_works() {
    let p1 = Production::new('E', "T");
    let p2 = Production::new('E', "E+T");
    let p3 = Production::new('T', "P");
    let p4 = Production::new('T', "T*P");
    let p5 = Production::new('P', "a");

    let g = Grammar::new(vec![p1, p2, p3, p4, p5], 'E');

    let r = Recognizer::new(g, 1);

    assert!(r.recognize("a+a*a"));
}

#[test]
fn horizon_one_scenarios() {
    let r = Recognizer::new(expression_grammar(), 1);
    assert!(r.recognize("a+a*a"));
    assert!(!r.recognize("a+"));
    assert!(!r.recognize(""));
    assert!(r.recognize("a"));
}

#[test]
fn horizon_one_more_inputs() {
    let r = Recognizer::new(expression_grammar(), 1);
    assert!(r.recognize("a*a+a"));
    assert!(r.recognize("a+a+a"));
    assert!(!r.recognize("aa"));
    assert!(!r.recognize("+a"));
    assert!(!r.recognize("a*"));
    assert!(!r.recognize("b"));
    assert!(!r.recognize("A"));
}

#[test]
fn horizon_zero_scenario() {
    let r = Recognizer::new(expression_grammar(), 0);
    assert!(r.recognize("a+a*a"));
    assert!(r.recognize("a"));
    assert!(!r.recognize("a+"));
    assert!(!r.recognize(""));
}

#[test]
fn horizon_two_accepts_same_sentences() {
    let r = Recognizer::new(expression_grammar(), 2);
    assert!(r.recognize("a+a*a"));
    assert!(!r.recognize("a+"));
}

#[test]
fn repeated_calls_agree() {
    let r = Recognizer::new(expression_grammar(), 1);
    let first = r.recognize("a+a*a");
    let second = r.recognize("a+a*a");
    assert_eq!(first, second);
    assert_eq!(r.recognize("a+"), r.recognize("a+"));
}

#[test]
fn empty_production_of_start_accepts_empty_input() {
    for h in 0..3 {
        let g = Grammar::new(vec![Production::new('S', ""), Production::new('S', "x")], 'S');
        let r = Recognizer::new(g, h);
        assert!(r.recognize(""));
        assert!(r.recognize("x"));
        assert!(!r.recognize("xx"));
    }
}

#[test]
fn one_grammar_many_recognizers() {
    let g = expression_grammar();
    let r0 = Recognizer::new(g.clone(), 0);
    let r1 = Recognizer::new(g.clone(), 1);
    assert!(r0.recognize("a*a"));
    assert!(r1.recognize("a*a"));
    assert!(!r0.recognize("*"));
    assert!(!r1.recognize("*"));
    assert_eq!(g.productions.len(), 6);
    assert_eq!(g.productions[2].alternative, vec!['E', '+', 'T']);
    assert_eq!(r0.grammar.productions.len(), 6);
    assert_eq!(r1.lookahead, 1);
}

#[test]
fn grammar_prepends_root_production() {
    let g = expression_grammar();
    assert_eq!(g.productions.len(), 6);
    assert_eq!(g.productions[0].nonterminal, ROOT_HEAD);
    assert_eq!(g.productions[0].alternative, vec!['E', END_MARKER]);
    assert_eq!(g.productions[1].nonterminal, 'E');
    assert_eq!(g.productions[1].alternative, vec!['T']);
    assert_eq!(g.productions[5].nonterminal, 'P');
    assert_eq!(g.productions[5].alternative, vec!['a']);
}

#[test]
fn production_body_length() {
    assert_eq!(Production::new('E', "E+T").p_bar(), 3);
    assert_eq!(Production::new('E', "").p_bar(), 0);
    assert_eq!(Production::new('X', "ab").alternative, vec!['a', 'b']);
}

#[test]
fn index_production_reads_body_then_context() {
    let g = expression_grammar();
    assert_eq!(g.index_production(2, 0, &[]), 'E');
    assert_eq!(g.index_production(2, 2, &[]), 'T');
    assert_eq!(g.index_production(2, 3, &['x', 'y']), 'x');
    assert_eq!(g.index_production(2, 4, &['x', 'y']), 'y');
    assert_eq!(g.index_production(0, 1, &[]), END_MARKER);
}

#[test]
fn symbol_classification() {
    let g = expression_grammar();
    assert!(g.is_nonterminal('E'));
    assert!(g.is_nonterminal('Z'));
    assert!(g.is_nonterminal('\u{00C9}'));
    assert!(!g.is_nonterminal('a'));
    assert!(!g.is_nonterminal('\u{00E9}'));
    assert!(!g.is_nonterminal('+'));
    assert!(!g.is_nonterminal(END_MARKER));
    assert!(g.is_terminal('a'));
    assert!(g.is_terminal(END_MARKER));
    assert!(!g.is_terminal('T'));
}

#[test]
fn bodies_by_nonterminal() {
    let g = expression_grammar();
    assert_eq!(g.by_nonterminal('E'), vec![vec!['T'], vec!['E', '+', 'T']]);
    assert_eq!(g.by_nonterminal('P'), vec![vec!['a']]);
    assert_eq!(g.by_nonterminal('Q'), Vec::<Vec<char>>::new());
    assert_eq!(g.by_nonterminal(ROOT_HEAD), vec![vec!['E', END_MARKER]]);
}

#[test]
fn lookahead_slices_pad_with_end_marker() {
    let r = Recognizer::new(expression_grammar(), 2);
    assert_eq!(r.slice_with_lookahead(&['a', 'b', 'c'], 0), vec!['a', 'b']);
    assert_eq!(r.slice_with_lookahead(&['a', 'b', 'c'], 2), vec!['c', END_MARKER]);
    assert_eq!(r.slice_with_lookahead(&['a', 'b', 'c'], 3), vec![END_MARKER, END_MARKER]);
    let r0 = Recognizer::new(expression_grammar(), 0);
    assert_eq!(r0.slice_with_lookahead(&['a'], 0), Vec::<char>::new());
}

#[test]
fn nullable_chain_and_left_recursion() {
    let g0 = Grammar::new(
        vec![
            Production::new('S', "AB"),
            Production::new('A', ""),
            Production::new('A', "Aa"),
            Production::new('B', "b"),
        ],
        'S',
    );
    let r0 = Recognizer::new(g0.clone(), 0);
    assert!(r0.recognize("b"));
    assert!(r0.recognize("aab"));
    assert!(!r0.recognize("aa"));
    assert!(!r0.recognize("ba"));
    // Under horizon 1 the lookahead of `A` is the nonterminal `B`, which
    // never occurs in the input, so `A` is never completed.
    let r1 = Recognizer::new(g0, 1);
    assert!(!r1.recognize("b"));
    assert!(!r1.recognize("aab"));
}

#[test]
fn final_and_nonfinal_items() {
    let g = expression_grammar();
    let mid = Item { p: 2, j: 1, f: 0, alpha: Some('+') };
    let end = Item { p: 2, j: 3, f: 0, alpha: Some('+') };
    let root_done = Item { p: 0, j: 2, f: 0, alpha: Some(END_MARKER) };
    assert!(g.is_nonfinal(&mid));
    assert!(!g.is_final(&mid));
    assert!(g.is_final(&end));
    assert!(!g.is_nonfinal(&end));
    assert!(g.is_final(&root_done));
}

#[test]
fn nullable_start_accepts_empty_input() {
    let g = Grammar::new(vec![Production::new('S', "A"), Production::new('A', "")], 'S');
    let r = Recognizer::new(g, 1);
    assert!(r.recognize(""));
    assert!(!r.recognize("a"));
}

#[test]
fn no_empty_body_rejects_empty_input() {
    for h in 0..3 {
        let g = Grammar::new(vec![Production::new('S', "x"), Production::new('S', "SS")], 'S');
        let r = Recognizer::new(g, h);
        assert!(!r.recognize(""));
        assert!(r.recognize("x"));
    }
}
