use trigram_index::query::Ast;
use trigram_index::query::Op;
use trigram_index::query::Repeater;
use trigram_index::query::render_grams_in;

fn lit(s: &str) -> Ast {
    Ast::Literal { chars: s.chars().collect(), casei: false }
}

#[test]
fn literal_compiles_to_sorted_trigram_and() {
    let op = lit("foo").compile().unwrap();
    assert_eq!(op, Op::And(vec![Op::Lit(38), Op::Lit(2477), Op::Lit(158573)]));
}

#[test]
fn zero_min_repeats_compile_to_any() {
    // "a?"
    let e = Ast::Repeat { e: Box::new(lit("a")), r: Repeater::ZeroOrOne, greedy: true };
    assert_eq!(e.compile().unwrap(), Op::Any);
    // "a{0,5}"
    let e = Ast::Repeat {
        e: Box::new(lit("a")),
        r: Repeater::Range { min: 0, max: Some(5) },
        greedy: true,
    };
    assert_eq!(e.compile().unwrap(), Op::Any);
    // "a*"
    let e = Ast::Repeat { e: Box::new(lit("a")), r: Repeater::ZeroOrMore, greedy: true };
    assert_eq!(e.compile().unwrap(), Op::Any);
}

#[test]
fn one_or_more_inherits_body() {
    // "a+" compiles to the padded trigram set of "a"
    let e = Ast::Repeat { e: Box::new(lit("a")), r: Repeater::OneOrMore, greedy: true };
    assert_eq!(e.compile().unwrap(), Op::And(vec![Op::Lit(33)]));
    // "a{2,7}" likewise
    let e = Ast::Repeat {
        e: Box::new(lit("a")),
        r: Repeater::Range { min: 2, max: Some(7) },
        greedy: true,
    };
    assert_eq!(e.compile().unwrap(), Op::And(vec![Op::Lit(33)]));
}

#[test]
fn alternation_and_concatenation() {
    let e = Ast::Alternate(vec![lit("a"), lit("b")]);
    assert_eq!(
        e.compile().unwrap(),
        Op::Or(vec![Op::And(vec![Op::Lit(33)]), Op::And(vec![Op::Lit(34)])])
    );
    let e = Ast::Concat(vec![lit("a"), lit("b")]);
    assert_eq!(
        e.compile().unwrap(),
        Op::And(vec![Op::And(vec![Op::Lit(33)]), Op::And(vec![Op::Lit(34)])])
    );
}

#[test]
fn group_is_transparent() {
    let e = Ast::Group(Box::new(lit("a")));
    assert_eq!(e.compile().unwrap(), Op::And(vec![Op::Lit(33)]));
}

#[test]
fn case_insensitive_literal_rejected() {
    let e = Ast::Literal { chars: vec!['a', 'b'], casei: true };
    let err = e.compile().unwrap_err();
    assert_eq!(err, "unsupported: case insensitive matching on 'ab'");
}

#[test]
fn unknown_nodes_rejected() {
    // The character-class node of "foo|bar[0-9]+" arrives as an
    // opaque node, and the whole compilation reports it.
    let class = Ast::Other("[0-9]+".to_string());
    let e = Ast::Alternate(vec![
        lit("foo"),
        Ast::Concat(vec![
            lit("bar"),
            Ast::Repeat { e: Box::new(class), r: Repeater::OneOrMore, greedy: true },
        ]),
    ]);
    let err = e.compile().unwrap_err();
    assert_eq!(err, "unimplemented: [0-9]+");
    // an empty regex is likewise not supported
    assert_eq!(Ast::Empty.compile().unwrap_err(), "unimplemented: ");
}

#[test]
fn nul_in_literal_rejected() {
    let e = Ast::Literal { chars: vec!['a', '\0'], casei: false };
    let err = e.compile().unwrap_err();
    assert_eq!(err, "line 1: null found: not a text file");
}

#[test]
fn rendering() {
    assert_eq!(Op::Any.render(), "FUUUU");
    assert_eq!(Op::Lit(158573).render(), "foo");
    assert_eq!(Op::And(vec![Op::Lit(38), Op::Lit(2477)]).render(), "and(XXf Xfo)");
    assert_eq!(Op::Or(vec![Op::Any, Op::Lit(33)]).render(), "or(FUUUU XXa)");
    assert_eq!(Op::And(vec![]).render(), "and()");
    assert_eq!(render_grams_in(&vec![Op::Lit(38)]), "XXf");
    assert_eq!(render_grams_in(&vec![]), "");
}
