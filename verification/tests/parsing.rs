use truth_tables::expr::{Expr, Operation};
use truth_tables::lexer::{Lexer, Token};
use truth_tables::parser::Parser;

fn parse_str(s: &str) -> Option<Expr> {
    let lexer = Lexer::new(s.to_string());
    let mut parser = Parser::from_lexer(lexer);
    parser.parse()
}

fn tokens_of(s: &str) -> Vec<Token> {
    let mut lexer = Lexer::new(s.to_string());
    let mut out = Vec::new();
    while let Some(t) = lexer.next() {
        out.push(t);
    }
    out
}

fn var(c: char) -> Expr {
    Expr::Variable(c)
}

fn op(o: Operation, l: Expr, r: Expr) -> Expr {
    Expr::Operation(o, Box::new(l), Box::new(r))
}

fn neg(e: Expr) -> Expr {
    Expr::Negate(Box::new(e))
}

#[test]
fn single_variable() {
    assert_eq!(parse_str("p"), Some(var('p')));
}

#[test]
fn lowercase_t_and_f_are_variables() {
    assert_eq!(parse_str("t"), Some(var('t')));
    assert_eq!(parse_str("f"), Some(var('f')));
}

#[test]
fn constants() {
    assert_eq!(parse_str("T"), Some(Expr::True));
    assert_eq!(parse_str("F"), Some(Expr::False));
    assert_eq!(
        parse_str("T ∧ F"),
        Some(op(Operation::Conjunction, Expr::True, Expr::False))
    );
}

#[test]
fn uppercase_letter_fails_to_parse() {
    assert_eq!(parse_str("X"), None);
    assert_eq!(parse_str("p ∧ Q"), None);
}

#[test]
fn uppercase_letter_still_tokenizes() {
    assert_eq!(tokens_of("X"), vec![Token::Uppercase('X')]);
}

#[test]
fn bang_equals_is_inequality() {
    assert_eq!(
        parse_str("p!=q"),
        Some(op(Operation::Inequality, var('p'), var('q')))
    );
}

#[test]
fn bang_equals_tokens() {
    assert_eq!(
        tokens_of("p!=q"),
        vec![
            Token::Lowercase('p'),
            Token::NotEquals,
            Token::Lowercase('q')
        ]
    );
}

#[test]
fn bang_alone_negates() {
    assert_eq!(tokens_of("!a"), vec![Token::Negate, Token::Lowercase('a')]);
    assert_eq!(parse_str("!a"), Some(neg(var('a'))));
}

#[test]
fn or_aliases_agree() {
    let expected = Some(op(Operation::Disjunction, var('a'), var('b')));
    assert_eq!(parse_str("a|b"), expected);
    assert_eq!(parse_str("a+b"), expected);
    assert_eq!(parse_str("a∨b"), expected);
}

#[test]
fn and_aliases_agree() {
    let expected = Some(op(Operation::Conjunction, var('a'), var('b')));
    assert_eq!(parse_str("a&b"), expected);
    assert_eq!(parse_str("a*b"), expected);
    assert_eq!(parse_str("a∧b"), expected);
}

#[test]
fn negate_aliases_agree() {
    let expected = Some(neg(var('a')));
    assert_eq!(parse_str("-a"), expected);
    assert_eq!(parse_str("¬a"), expected);
}

#[test]
fn equals_aliases_agree() {
    let expected = Some(op(Operation::Equality, var('a'), var('b')));
    assert_eq!(parse_str("a=b"), expected);
    assert_eq!(parse_str("a≡b"), expected);
}

#[test]
fn biconditional_and_equals_make_the_same_tree() {
    let bicond = parse_str("a ↔ b");
    let equals = parse_str("a = b");
    assert!(bicond.is_some());
    assert_eq!(bicond, equals);
    assert_eq!(
        bicond,
        Some(op(Operation::Equality, var('a'), var('b')))
    );
}

#[test]
fn not_equals_symbol() {
    assert_eq!(
        parse_str("a≢b"),
        Some(op(Operation::Inequality, var('a'), var('b')))
    );
}

#[test]
fn conditional_symbol() {
    assert_eq!(
        parse_str("a→b"),
        Some(op(Operation::Conditional, var('a'), var('b')))
    );
}

#[test]
fn conjunction_binds_tighter_than_disjunction() {
    assert_eq!(
        parse_str("a | b & c"),
        Some(op(
            Operation::Disjunction,
            var('a'),
            op(Operation::Conjunction, var('b'), var('c'))
        ))
    );
    assert_eq!(
        parse_str("a & b | c"),
        Some(op(
            Operation::Disjunction,
            op(Operation::Conjunction, var('a'), var('b')),
            var('c')
        ))
    );
}

#[test]
fn negation_binds_tightest() {
    assert_eq!(
        parse_str("-a & b"),
        Some(op(Operation::Conjunction, neg(var('a')), var('b')))
    );
    assert_eq!(parse_str("--a"), Some(neg(neg(var('a')))));
}

#[test]
fn parentheses_group() {
    assert_eq!(
        parse_str("(a | b) & c"),
        Some(op(
            Operation::Conjunction,
            op(Operation::Disjunction, var('a'), var('b')),
            var('c')
        ))
    );
}

#[test]
fn equality_chain_associates_right() {
    assert_eq!(
        parse_str("a = b = c"),
        Some(op(
            Operation::Equality,
            var('a'),
            op(Operation::Equality, var('b'), var('c'))
        ))
    );
}

#[test]
fn conditional_chain_associates_right() {
    assert_eq!(
        parse_str("a → b → c"),
        Some(op(
            Operation::Conditional,
            var('a'),
            op(Operation::Conditional, var('b'), var('c'))
        ))
    );
}

#[test]
fn whitespace_is_skipped() {
    assert_eq!(parse_str("  a \t &\n b  "), parse_str("a&b"));
}

#[test]
fn grammar_violations_fail() {
    assert_eq!(parse_str(""), None);
    assert_eq!(parse_str("(a"), None);
    assert_eq!(parse_str("a &"), None);
    assert_eq!(parse_str(")a"), None);
    assert_eq!(parse_str("&"), None);
}

#[test]
fn unknown_character_stops_the_scan() {
    assert_eq!(tokens_of("a & 3b"), vec![Token::Lowercase('a'), Token::And]);
    assert_eq!(parse_str("a & 3b"), None);
    assert_eq!(parse_str("3"), None);
}

#[test]
fn tokens_past_the_expression_are_ignored() {
    assert_eq!(parse_str("p q"), Some(var('p')));
    assert_eq!(parse_str("a ) b"), Some(var('a')));
}

#[test]
fn operation_symbols() {
    assert_eq!(Operation::Conjunction.symbol(), '∧');
    assert_eq!(Operation::Disjunction.symbol(), '∨');
    assert_eq!(Operation::Equality.symbol(), '≡');
    assert_eq!(Operation::Inequality.symbol(), '≢');
    assert_eq!(Operation::Conditional.symbol(), '→');
}

#[test]
fn render_is_fully_parenthesized() {
    let e = parse_str("a&b").unwrap();
    let rendered: String = e.render().into_iter().collect();
    assert_eq!(rendered, "(a ∧ b)");
}

#[test]
fn render_then_parse_gives_the_tree_back() {
    for text in ["a → b ∧ ¬c", "¬¬(x | y) = z", "T ∧ F | p", "a = b = c"] {
        let e = parse_str(text).unwrap();
        let rendered: String = e.render().into_iter().collect();
        let again = parse_str(&rendered);
        assert_eq!(again, Some(e));
    }
}

#[test]
fn parser_over_handmade_tokens() {
    let mut parser = Parser::new(vec![
        Token::Lowercase('a'),
        Token::Biconditional,
        Token::Lowercase('b'),
    ]);
    assert_eq!(
        parser.parse(),
        Some(op(Operation::Equality, var('a'), var('b')))
    );
}
