//! The operator-precedence (precedence-climbing) parser: tokens in,
//! expression tree or undifferentiated failure out.
//!
//! Binding powers, higher binding tighter: negation 40, conjunction
//! 30, disjunction 20, and the bottom tier of 10 shared by equality,
//! inequality and the conditional. The right-hand side of a binary
//! operator is parsed with the *same* minimum power, so operators of
//! one tier associate to the right: `a → b → c` is `a → (b → c)`.

use vstd::prelude::*;
use crate::expr::Expr;
use crate::expr::Operation;
use crate::lexer::Lexer;
use crate::lexer::Token;
use crate::lexer::spec_lex;
use crate::lexer::wf_tokens;
use crate::lexer::wf_token;

verus! {

/// The binding power and operation of an infix token, `None` for a
/// token that is no binary operator. `↔` and `=`/`≡` make the same
/// `Equality` operation.
pub open spec fn spec_binop_of(t: Token) -> Option<(u32, Operation)> {
    match t {
        Token::And => Some((30u32, Operation::Conjunction)),
        Token::Or => Some((20u32, Operation::Disjunction)),
        Token::NotEquals => Some((10u32, Operation::Inequality)),
        Token::Equals => Some((10u32, Operation::Equality)),
        Token::Biconditional => Some((10u32, Operation::Equality)),
        Token::LeadsTo => Some((10u32, Operation::Conditional)),
        _ => None,
    }
}

/// Parse one atom from the front of `ts`: a variable, a constant, a
/// negation (binding its operand at power 40), or a parenthesized
/// expression with its required closing parenthesis. Yields the tree
/// and the tokens left over.
pub open spec fn spec_parse_atom(ts: Seq<Token>) -> Option<(Expr, Seq<Token>)>
    decreases ts.len(), 0nat,
{
    if ts.len() == 0 {
        None
    } else {
        match ts[0] {
            Token::Lowercase(c) => Some((Expr::Variable(c), ts.skip(1))),
            Token::True => Some((Expr::True, ts.skip(1))),
            Token::False => Some((Expr::False, ts.skip(1))),
            Token::Negate => match spec_parse_expr(ts.skip(1), 40) {
                Some((u, rest)) => Some((Expr::Negate(Box::new(u)), rest)),
                None => None,
            },
            Token::Open => match spec_parse_expr(ts.skip(1), 0) {
                Some((e, rest)) => if rest.len() > 0 && rest[0] == Token::Close {
                    Some((e, rest.skip(1)))
                } else {
                    None
                },
                None => None,
            },
            _ => None,
        }
    }
}

/// The infix loop: with `acc` parsed so far, as long as the next
/// token is a binary operator whose power is not below `min`, consume
/// it, parse the right-hand side at that same power, and fold the two
/// sides into one node. The length tests only rule out a parse that
/// consumed nothing, which none does ([`lemma_parse_consumes`]).
pub open spec fn spec_parse_loop(acc: Expr, ts: Seq<Token>, min: u32) -> Option<(Expr, Seq<Token>)>
    decreases ts.len(), 1nat,
{
    if ts.len() == 0 {
        Some((acc, ts))
    } else {
        match spec_binop_of(ts[0]) {
            None => Some((acc, ts)),
            Some((power, op)) => if power < min {
                Some((acc, ts))
            } else {
                match spec_parse_expr(ts.skip(1), power) {
                    None => None,
                    Some((right, rest)) => if rest.len() < ts.len() {
                        spec_parse_loop(
                            Expr::Operation(op, Box::new(acc), Box::new(right)),
                            rest,
                            min,
                        )
                    } else {
                        None
                    },
                }
            },
        }
    }
}

/// Parse an expression from the front of `ts` with minimum binding
/// power `min`: one atom, then the infix loop.
pub open spec fn spec_parse_expr(ts: Seq<Token>, min: u32) -> Option<(Expr, Seq<Token>)>
    decreases ts.len(), 2nat,
{
    match spec_parse_atom(ts) {
        None => None,
        Some((a, rest)) => if rest.len() < ts.len() {
            spec_parse_loop(a, rest, min)
        } else {
            None
        },
    }
}

/// The tree of a whole token sequence: an expression parsed at
/// minimum power 0. Tokens past the parsed expression are ignored,
/// as the reference grammar ignores them.
pub open spec fn spec_parse(ts: Seq<Token>) -> Option<Expr> {
    match spec_parse_expr(ts, 0) {
        Some(pair) => Some(pair.0),
        None => None,
    }
}

/// The infix loop never leaves more tokens over than it was given.
proof fn lemma_loop_result_len(acc: Expr, ts: Seq<Token>, min: u32)
    ensures
        spec_parse_loop(acc, ts, min) matches Some(pair) ==> pair.1.len() <= ts.len(),
    decreases ts.len(),
{
    if ts.len() > 0 {
        match spec_binop_of(ts[0]) {
            None => {},
            Some((power, op)) => {
                if power >= min {
                    match spec_parse_expr(ts.skip(1), power) {
                        None => {},
                        Some((right, rest)) => {
                            if rest.len() < ts.len() {
                                lemma_loop_result_len(
                                    Expr::Operation(op, Box::new(acc), Box::new(right)),
                                    rest,
                                    min,
                                );
                            }
                        },
                    }
                }
            },
        }
    }
}

/// A successful parse consumes at least one token.
pub proof fn lemma_parse_consumes(ts: Seq<Token>, min: u32)
    ensures
        spec_parse_expr(ts, min) matches Some(pair) ==> pair.1.len() < ts.len(),
{
    match spec_parse_atom(ts) {
        None => {},
        Some((a, rest)) => {
            if rest.len() < ts.len() {
                lemma_loop_result_len(a, rest, min);
            }
        },
    }
}

/// A suffix of well-formed tokens is well formed.
proof fn lemma_wf_tokens_skip(ts: Seq<Token>, n: int)
    requires
        wf_tokens(ts),
        0 <= n <= ts.len(),
    ensures
        wf_tokens(ts.skip(n)),
{
    assert forall|i: int| 0 <= i < ts.skip(n).len() implies wf_token(ts.skip(n)[i]) by {
        assert(ts.skip(n)[i] == ts[i + n]);
    }
}

proof fn lemma_parse_atom_wf(ts: Seq<Token>)
    requires
        wf_tokens(ts),
    ensures
        spec_parse_atom(ts) matches Some(p) ==> p.0.wf() && wf_tokens(p.1),
    decreases ts.len(), 0nat,
{
    if ts.len() > 0 {
        lemma_wf_tokens_skip(ts, 1);
        match ts[0] {
            Token::Lowercase(c) => {
                assert(wf_token(ts[0]));
            },
            Token::Negate => {
                lemma_parse_expr_wf(ts.skip(1), 40);
            },
            Token::Open => {
                lemma_parse_expr_wf(ts.skip(1), 0);
                match spec_parse_expr(ts.skip(1), 0) {
                    Some((e, rest)) => {
                        if rest.len() > 0 && rest[0] == Token::Close {
                            lemma_wf_tokens_skip(rest, 1);
                        }
                    },
                    None => {},
                }
            },
            _ => {},
        }
    }
}

proof fn lemma_parse_loop_wf(acc: Expr, ts: Seq<Token>, min: u32)
    requires
        wf_tokens(ts),
        acc.wf(),
    ensures
        spec_parse_loop(acc, ts, min) matches Some(p) ==> p.0.wf() && wf_tokens(p.1),
    decreases ts.len(), 1nat,
{
    if ts.len() > 0 {
        match spec_binop_of(ts[0]) {
            None => {},
            Some((power, op)) => {
                if power >= min {
                    lemma_wf_tokens_skip(ts, 1);
                    lemma_parse_expr_wf(ts.skip(1), power);
                    match spec_parse_expr(ts.skip(1), power) {
                        None => {},
                        Some((right, rest)) => {
                            if rest.len() < ts.len() {
                                lemma_parse_loop_wf(
                                    Expr::Operation(op, Box::new(acc), Box::new(right)),
                                    rest,
                                    min,
                                );
                            }
                        },
                    }
                }
            },
        }
    }
}

proof fn lemma_parse_expr_wf(ts: Seq<Token>, min: u32)
    requires
        wf_tokens(ts),
    ensures
        spec_parse_expr(ts, min) matches Some(p) ==> p.0.wf() && wf_tokens(p.1),
    decreases ts.len(), 2nat,
{
    lemma_parse_atom_wf(ts);
    match spec_parse_atom(ts) {
        None => {},
        Some((a, rest)) => {
            if rest.len() < ts.len() {
                lemma_parse_loop_wf(a, rest, min);
            }
        },
    }
}

/// A tree parsed from well-formed tokens is well formed: its
/// variables are ASCII lowercase letters.
pub proof fn lemma_parse_wf(ts: Seq<Token>)
    requires
        wf_tokens(ts),
    ensures
        spec_parse(ts) matches Some(e) ==> e.wf(),
{
    lemma_parse_expr_wf(ts, 0);
}

/// The parser: the token sequence and how far the parse has come.
pub struct Parser {
    tokens: Vec<Token>,
    ptr: usize,
}

impl Parser {
    /// The parse never stands past the end of the tokens.
    pub closed spec fn wf(self) -> bool {
        self.ptr <= self.tokens@.len()
    }

    /// The tokens the parse has not consumed yet.
    pub closed spec fn remaining(self) -> Seq<Token> {
        self.tokens@.skip(self.ptr as int)
    }

    /// A parser over the given tokens.
    pub fn new(tokens: Vec<Token>) -> (p: Parser)
        ensures
            p.wf(),
            p.remaining() == tokens@,
    {
        let p = Parser { tokens, ptr: 0 };
        assert(p.remaining() =~= p.tokens@);
        p
    }

    /// A parser over every token the scanner yields.
    pub fn from_lexer(lexer: Lexer) -> (p: Parser)
        requires
            lexer.wf(),
        ensures
            p.wf(),
            p.remaining() == spec_lex(lexer.remaining()),
    {
        let mut lx = lexer;
        let mut tokens: Vec<Token> = Vec::new();
        let mut done = false;
        while !done
            invariant
                lx.wf(),
                tokens@ + spec_lex(lx.remaining()) == spec_lex(lexer.remaining()),
                done ==> spec_lex(lx.remaining()) == Seq::<Token>::empty(),
            decreases lx.remaining().len(), (if done { 0int } else { 1int }),
        {
            match lx.next() {
                Some(t) => {
                    let ghost before = tokens@;
                    tokens.push(t);
                    assert(tokens@ + spec_lex(lx.remaining()) =~= before + (seq![t] + spec_lex(
                        lx.remaining(),
                    )));
                },
                None => {
                    done = true;
                },
            }
        }
        assert(tokens@ =~= tokens@ + spec_lex(lx.remaining()));
        Parser::new(tokens)
    }

    /// The next token without consuming it.
    fn peek(&self) -> (t: Option<Token>)
        requires
            self.wf(),
        ensures
            match t {
                Some(tok) => self.remaining().len() > 0 && tok == self.remaining()[0],
                None => self.remaining().len() == 0,
            },
    {
        if self.ptr < self.tokens.len() {
            Some(self.tokens[self.ptr])
        } else {
            None
        }
    }

    /// The next token, consumed.
    fn next(&mut self) -> (t: Option<Token>)
        requires
            old(self).wf(),
        ensures
            final(self).wf(),
            match t {
                Some(tok) => old(self).remaining().len() > 0 && tok == old(self).remaining()[0]
                    && final(self).remaining() == old(self).remaining().skip(1),
                None => old(self).remaining().len() == 0 && *final(self) == *old(self),
            },
    {
        let t = self.peek();
        if t.is_some() {
            self.skip();
        }
        t
    }

    /// Consume one token.
    fn skip(&mut self)
        requires
            old(self).wf(),
            old(self).remaining().len() > 0,
        ensures
            final(self).wf(),
            final(self).remaining() == old(self).remaining().skip(1),
    {
        proof {
            assert(old(self).remaining().len() == old(self).tokens@.len() - old(self).ptr);
            assert(old(self).tokens@.skip(old(self).ptr as int + 1) =~= old(self).remaining().skip(
                1,
            ));
        }
        let n = self.tokens.len();
        assert(self.ptr < n);
        self.ptr = self.ptr + 1;
    }

    /// Parse the tokens into a tree, or fail on any grammar
    /// violation: a missing atom, an unmatched parenthesis, a letter
    /// that is not lowercase where an atom is owed.
    pub fn parse(&mut self) -> (r: Option<Expr>)
        requires
            old(self).wf(),
        ensures
            final(self).wf(),
            r == spec_parse(old(self).remaining()),
    {
        self.parse_expr(0)
    }

    fn parse_expr(&mut self, last_power: u32) -> (r: Option<Expr>)
        requires
            old(self).wf(),
        ensures
            final(self).wf(),
            match spec_parse_expr(old(self).remaining(), last_power) {
                Some(pair) => r == Some(pair.0) && final(self).remaining() == pair.1
                    && final(self).remaining().len() < old(self).remaining().len(),
                None => r is None,
            },
        decreases self.remaining().len(), 1nat,
    {
        let ghost entry: Seq<Token> = self.remaining();
        let mut expr = match self.parse_atom() {
            None => {
                return None;
            },
            Some(e) => e,
        };
        let mut stop = false;
        #[verifier::loop_isolation(false)]
        while !stop
            invariant
                self.wf(),
                self.remaining().len() < entry.len(),
                spec_parse_expr(entry, last_power) == spec_parse_loop(
                    expr,
                    self.remaining(),
                    last_power,
                ),
                stop ==> spec_parse_loop(expr, self.remaining(), last_power) == Some(
                    (expr, self.remaining()),
                ),
            decreases self.remaining().len(), (if stop { 0int } else { 1int }),
        {
            let next_c = match self.peek() {
                Some(c) => c,
                None => {
                    stop = true;
                    continue ;
                },
            };
            let pw_op = match binop_of(next_c) {
                Some(p) => p,
                None => {
                    stop = true;
                    continue ;
                },
            };
            let power = pw_op.0;
            let op = pw_op.1;
            if power < last_power {
                stop = true;
                continue ;
            }
            let ghost ts_iter: Seq<Token> = self.remaining();
            proof {
                assert(ts_iter.len() > 0 && ts_iter.len() < entry.len());
            }
            self.skip();
            proof {
                assert(self.remaining() == ts_iter.skip(1));
                assert(self.remaining().len() < entry.len());
            }
            let right = match self.parse_expr(power) {
                None => {
                    assert(spec_parse_loop(expr, ts_iter, last_power) is None);
                    return None;
                },
                Some(rv) => rv,
            };
            proof {
                assert(self.remaining().len() < ts_iter.len());
            }
            expr = Expr::Operation(op, Box::new(expr), Box::new(right));
        }
        Some(expr)
    }

    fn parse_atom(&mut self) -> (r: Option<Expr>)
        requires
            old(self).wf(),
        ensures
            final(self).wf(),
            match spec_parse_atom(old(self).remaining()) {
                Some(pair) => r == Some(pair.0) && final(self).remaining() == pair.1
                    && final(self).remaining().len() < old(self).remaining().len(),
                None => r is None,
            },
        decreases self.remaining().len(), 0nat,
    {
        let t = match self.peek() {
            Some(t) => t,
            None => {
                return None;
            },
        };
        match t {
            Token::Lowercase(c) => {
                self.skip();
                Some(Expr::Variable(c))
            },
            Token::True => {
                self.skip();
                Some(Expr::True)
            },
            Token::False => {
                self.skip();
                Some(Expr::False)
            },
            Token::Negate => {
                self.skip();
                match self.parse_expr(40) {
                    None => None,
                    Some(unit) => Some(Expr::Negate(Box::new(unit))),
                }
            },
            Token::Open => {
                self.skip();
                let e = match self.parse_expr(0) {
                    None => {
                        return None;
                    },
                    Some(e) => e,
                };
                match self.next() {
                    Some(tok) => match tok {
                        Token::Close => Some(e),
                        _ => None,
                    },
                    None => None,
                }
            },
            _ => None,
        }
    }
}

/// The binding power and operation of an infix token, as
/// [`spec_binop_of`] gives them.
fn binop_of(t: Token) -> (r: Option<(u32, Operation)>)
    ensures
        r == spec_binop_of(t),
{
    match t {
        Token::And => Some((30, Operation::Conjunction)),
        Token::Or => Some((20, Operation::Disjunction)),
        Token::NotEquals => Some((10, Operation::Inequality)),
        Token::Equals => Some((10, Operation::Equality)),
        Token::Biconditional => Some((10, Operation::Equality)),
        Token::LeadsTo => Some((10, Operation::Conditional)),
        _ => None,
    }
}

} // verus!
