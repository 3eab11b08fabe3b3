//! The laws the pipeline obeys, proved once and for all: rendering a
//! tree and parsing the text back yields the same tree, and the row
//! enumeration is exactly the descending count from all-true to
//! all-false, without repetition.

use vstd::prelude::*;
use vstd::arithmetic::power2::pow2;
use vstd::arithmetic::power2::lemma_pow2_pos;
use vstd::arithmetic::power2::lemma_pow2_unfold;
use vstd::arithmetic::power2::lemma_pow2_adds;
use vstd::arithmetic::div_mod::lemma_div_denominator;
use vstd::arithmetic::div_mod::lemma_fundamental_div_mod_converse;
use vstd::arithmetic::div_mod::lemma_mod_breakdown;
use vstd::arithmetic::div_mod::lemma_small_mod;
use crate::expr::Expr;
use crate::expr::Operation;
use crate::expr::spec_render;
use crate::expr::spec_symbol;
use crate::lexer::Token;
use crate::lexer::spec_lex;
use crate::lexer::spec_token_of;
use crate::lexer::is_white;
use crate::parser::spec_binop_of;
use crate::parser::spec_parse;
use crate::parser::spec_parse_atom;
use crate::parser::spec_parse_expr;
use crate::parser::spec_parse_loop;
use crate::table::nth_bit;
use crate::table::spec_bits;
use crate::table::spec_row;

verus! {

// ------------------------------------------------------------------
// Rendering and parsing back
// ------------------------------------------------------------------

/// The canonical token of each connective: the one its display
/// symbol scans to.
pub open spec fn op_token(op: Operation) -> Token {
    match op {
        Operation::Conjunction => Token::And,
        Operation::Disjunction => Token::Or,
        Operation::Equality => Token::Equals,
        Operation::Inequality => Token::NotEquals,
        Operation::Conditional => Token::LeadsTo,
    }
}

/// The token sequence of a tree's canonical textual form.
pub open spec fn spec_tok(e: Expr) -> Seq<Token>
    decreases e,
{
    match e {
        Expr::Variable(c) => seq![Token::Lowercase(c)],
        Expr::True => seq![Token::True],
        Expr::False => seq![Token::False],
        Expr::Operation(op, l, r) => seq![Token::Open] + spec_tok(*l) + seq![op_token(op)]
            + spec_tok(*r) + seq![Token::Close],
        Expr::Negate(u) => seq![Token::Negate] + spec_tok(*u),
    }
}

proof fn lemma_tok_len(e: Expr)
    ensures
        spec_tok(e).len() >= 1,
{
    match e {
        Expr::Variable(_) => {},
        Expr::True => {},
        Expr::False => {},
        Expr::Operation(_, _, _) => {},
        Expr::Negate(_) => {},
    }
}

/// Scanning a rendered tree, whatever follows it, yields the tree's
/// tokens and then the scan of what follows.
#[verifier::rlimit(100)]
proof fn lemma_lex_render(e: Expr, rest: Seq<char>)
    requires
        e.wf(),
    ensures
        spec_lex(spec_render(e) + rest) == spec_tok(e) + spec_lex(rest),
    decreases e,
{
    let cs = spec_render(e) + rest;
    match e {
        Expr::Variable(c) => {
            assert(cs[0] == c);
            assert(spec_token_of(c) == Some(Token::Lowercase(c)));
            assert(cs.skip(1) =~= rest);
            assert(spec_lex(cs) =~= spec_tok(e) + spec_lex(rest));
        },
        Expr::True => {
            assert(cs[0] == 'T');
            assert(cs.skip(1) =~= rest);
            assert(spec_lex(cs) =~= spec_tok(e) + spec_lex(rest));
        },
        Expr::False => {
            assert(cs[0] == 'F');
            assert(cs.skip(1) =~= rest);
            assert(spec_lex(cs) =~= spec_tok(e) + spec_lex(rest));
        },
        Expr::Negate(u) => {
            assert(cs[0] == '¬');
            assert(cs.skip(1) =~= spec_render(*u) + rest);
            lemma_lex_render(*u, rest);
            assert(spec_lex(cs) =~= spec_tok(e) + spec_lex(rest));
        },
        Expr::Operation(op, l, r) => {
            let sym = spec_symbol(op);
            let tail_r = seq![')'] + rest;
            let tail_sym = seq![' ', sym, ' '] + spec_render(*r) + tail_r;
            assert(cs[0] == '(');
            assert(cs.skip(1) =~= spec_render(*l) + tail_sym);
            assert(spec_lex(cs) == seq![Token::Open] + spec_lex(spec_render(*l) + tail_sym));
            lemma_lex_render(*l, tail_sym);
            // after the left side: a space, the symbol, a space
            assert(is_white(tail_sym[0]));
            let cs2 = seq![sym, ' '] + spec_render(*r) + tail_r;
            assert(tail_sym.skip(1) =~= cs2);
            assert(spec_lex(tail_sym) == spec_lex(cs2));
            assert(!is_white(sym) && sym != '!');
            assert(spec_token_of(sym) == Some(op_token(op)));
            let cs3 = seq![' '] + spec_render(*r) + tail_r;
            assert(cs2.skip(1) =~= cs3);
            assert(spec_lex(cs2) == seq![op_token(op)] + spec_lex(cs3));
            assert(is_white(cs3[0]));
            assert(cs3.skip(1) =~= spec_render(*r) + tail_r);
            assert(spec_lex(cs3) == spec_lex(spec_render(*r) + tail_r));
            lemma_lex_render(*r, tail_r);
            // the closing parenthesis, then whatever follows
            assert(tail_r[0] == ')');
            assert(tail_r.skip(1) =~= rest);
            assert(spec_lex(tail_r) =~= seq![Token::Close] + spec_lex(rest));
            assert(spec_lex(cs) =~= seq![Token::Open] + (spec_tok(*l) + (seq![op_token(op)] + (
            spec_tok(*r) + (seq![Token::Close] + spec_lex(rest))))));
            assert(spec_lex(cs) =~= spec_tok(e) + spec_lex(rest));
        },
    }
}

/// No token binds at power 40, so the infix loop at the negation
/// power consumes nothing.
proof fn lemma_loop_stop(acc: Expr, ts: Seq<Token>)
    ensures
        spec_parse_loop(acc, ts, 40) == Some((acc, ts)),
{
    if ts.len() > 0 {
        match ts[0] {
            Token::Lowercase(_) => {},
            Token::Uppercase(_) => {},
            Token::True => {},
            Token::False => {},
            Token::Negate => {},
            Token::Or => {},
            Token::And => {},
            Token::Equals => {},
            Token::NotEquals => {},
            Token::LeadsTo => {},
            Token::Biconditional => {},
            Token::Open => {},
            Token::Close => {},
        }
    }
}

/// Parsing an atom from a tree's tokens, whatever follows them,
/// gives back the tree and leaves exactly what follows. Every
/// rendered tree is one atom, parentheses included.
proof fn lemma_parse_tok(e: Expr, rest: Seq<Token>)
    ensures
        spec_parse_atom(spec_tok(e) + rest) == Some((e, rest)),
    decreases e,
{
    let ts = spec_tok(e) + rest;
    match e {
        Expr::Variable(c) => {
            assert(ts[0] == Token::Lowercase(c));
            assert(ts.skip(1) =~= rest);
        },
        Expr::True => {
            assert(ts[0] == Token::True);
            assert(ts.skip(1) =~= rest);
        },
        Expr::False => {
            assert(ts[0] == Token::False);
            assert(ts.skip(1) =~= rest);
        },
        Expr::Negate(u) => {
            assert(ts[0] == Token::Negate);
            assert(ts.skip(1) =~= spec_tok(*u) + rest);
            lemma_parse_tok(*u, rest);
            lemma_tok_len(*u);
            lemma_loop_stop(*u, rest);
            assert(spec_parse_expr(ts.skip(1), 40) == Some((*u, rest)));
            assert(Expr::Negate(Box::new(*u)) == e);
        },
        Expr::Operation(op, l, r) => {
            let tail_r = seq![Token::Close] + rest;
            let tail_op = seq![op_token(op)] + spec_tok(*r) + tail_r;
            assert(ts[0] == Token::Open);
            assert(ts.skip(1) =~= spec_tok(*l) + tail_op);
            lemma_parse_tok(*l, tail_op);
            lemma_tok_len(*l);
            // the infix loop takes the one operator of this node
            let power = match op {
                Operation::Conjunction => 30u32,
                Operation::Disjunction => 20u32,
                Operation::Equality => 10u32,
                Operation::Inequality => 10u32,
                Operation::Conditional => 10u32,
            };
            match op {
                Operation::Conjunction => {},
                Operation::Disjunction => {},
                Operation::Equality => {},
                Operation::Inequality => {},
                Operation::Conditional => {},
            }
            assert(spec_binop_of(op_token(op)) == Some((power, op)));
            assert(tail_op[0] == op_token(op));
            assert(tail_op.skip(1) =~= spec_tok(*r) + tail_r);
            lemma_parse_tok(*r, tail_r);
            lemma_tok_len(*r);
            assert(tail_r[0] == Token::Close);
            assert(spec_binop_of(Token::Close) is None);
            assert(spec_parse_loop(*r, tail_r, power) == Some((*r, tail_r)));
            assert(spec_parse_expr(tail_op.skip(1), power) == Some((*r, tail_r)));
            let folded = Expr::Operation(op, Box::new(*l), Box::new(*r));
            assert(spec_parse_loop(folded, tail_r, 0) == Some((folded, tail_r)));
            assert(spec_parse_loop(*l, tail_op, 0) == Some((folded, tail_r)));
            assert(spec_parse_expr(ts.skip(1), 0) == Some((folded, tail_r)));
            assert(tail_r.skip(1) =~= rest);
            assert(folded == e);
        },
    }
}

/// Rendering a well-formed tree and scanning the text back gives
/// exactly the tree's tokens.
pub proof fn lemma_lex_of_render(e: Expr)
    requires
        e.wf(),
    ensures
        spec_lex(spec_render(e)) == spec_tok(e),
{
    lemma_lex_render(e, Seq::empty());
    assert(spec_render(e) + Seq::<char>::empty() =~= spec_render(e));
    assert(spec_lex(Seq::<char>::empty()) =~= Seq::<Token>::empty());
    assert(spec_tok(e) + Seq::<Token>::empty() =~= spec_tok(e));
}

/// Round trip: parsing the canonical textual form of any well-formed
/// tree yields a tree equal to the original. Rendering is fully
/// parenthesized, so the aliases and the precedence scheme collapse
/// to the same structure again.
pub proof fn lemma_render_parse_round_trip(e: Expr)
    requires
        e.wf(),
    ensures
        spec_parse(spec_lex(spec_render(e))) == Some(e),
{
    lemma_lex_of_render(e);
    lemma_parse_tok(e, Seq::empty());
    lemma_tok_len(e);
    assert(spec_tok(e) + Seq::<Token>::empty() =~= spec_tok(e));
    assert(spec_parse_atom(spec_tok(e)) == Some((e, Seq::<Token>::empty())));
    assert(spec_parse_expr(spec_tok(e), 0) == Some((e, Seq::<Token>::empty())));
}

// ------------------------------------------------------------------
// The enumeration
// ------------------------------------------------------------------

/// The numeric value of a big-endian bit vector.
pub open spec fn bits_val(s: Seq<bool>) -> nat
    decreases s.len(),
{
    if s.len() == 0 {
        0
    } else {
        2 * bits_val(s.drop_last()) + (if s.last() {
            1nat
        } else {
            0nat
        })
    }
}

/// The value of the bits of `v` is `v` itself, up to the width.
proof fn lemma_bits_val(v: nat, w: nat)
    ensures
        bits_val(spec_bits(v, w)) == v % pow2(w),
    decreases w,
{
    if w == 0 {
        assert(pow2(0) == 1) by {
            vstd::arithmetic::power2::lemma2_to64();
        }
        lemma_small_mod(0, 1);
        assert(v % 1 == 0) by {
            lemma_fundamental_div_mod_converse(v as int, 1, v as int, 0);
        }
    } else {
        lemma_bits_val(v / 2, (w - 1) as nat);
        assert forall|i: int| 0 <= i < w - 1 implies spec_bits(v, w).drop_last()[i] == spec_bits(
            v / 2,
            (w - 1) as nat,
        )[i] by {
            let j = (w - 2 - i) as nat;
            lemma_pow2_pos(j);
            lemma_pow2_unfold(j + 1);
            lemma_div_denominator(v as int, 2, pow2(j) as int);
            assert((v / 2) / pow2(j) == v / pow2(j + 1));
            assert(spec_bits(v / 2, (w - 1) as nat)[i] == nth_bit(v / 2, j));
            assert(spec_bits(v, w).drop_last()[i] == nth_bit(v, j + 1));
        }
        assert(spec_bits(v, w).drop_last() =~= spec_bits(v / 2, (w - 1) as nat));
        assert(pow2(0) == 1) by {
            vstd::arithmetic::power2::lemma2_to64();
        }
        assert(spec_bits(v, w).last() == nth_bit(v, 0));
        assert(nth_bit(v, 0) == (v % 2 == 1));
        lemma_pow2_pos((w - 1) as nat);
        lemma_pow2_unfold(w);
        lemma_mod_breakdown(v as int, 2, pow2((w - 1) as nat) as int);
        assert(v % pow2(w) == 2 * ((v / 2) % pow2((w - 1) as nat)) + v % 2);
        assert(bits_val(spec_bits(v, w)) == 2 * bits_val(spec_bits(v / 2, (w - 1) as nat)) + (
        if nth_bit(v, 0) {
            1nat
        } else {
            0nat
        }));
    }
}

/// Every bit of `2^n - 1` is set, down the whole width.
proof fn lemma_all_ones(n: nat, j: nat)
    requires
        j < n,
    ensures
        nth_bit((pow2(n) - 1) as nat, j),
{
    lemma_pow2_pos(j);
    lemma_pow2_pos(n);
    lemma_pow2_pos((n - j) as nat);
    lemma_pow2_adds(j, (n - j) as nat);
    let q = (pow2((n - j) as nat) - 1) as int;
    assert((pow2((n - j) as nat) as int - 1) * pow2(j) as int == pow2((n - j) as nat) as int
        * pow2(j) as int - pow2(j) as int) by (nonlinear_arith);
    lemma_fundamental_div_mod_converse(
        pow2(n) as int - 1,
        pow2(j) as int,
        q,
        pow2(j) as int - 1,
    );
    assert((pow2(n) - 1) as nat / pow2(j) == q);
    lemma_pow2_unfold((n - j) as nat);
    lemma_fundamental_div_mod_converse(q, 2, pow2((n - j - 1) as nat) as int - 1, 1);
    assert(q % 2 == 1);
}

/// No bit of zero is set.
proof fn lemma_all_zeros(j: nat)
    ensures
        !nth_bit(0, j),
{
    lemma_pow2_pos(j);
    lemma_fundamental_div_mod_converse(0, pow2(j) as int, 0, 0);
    lemma_fundamental_div_mod_converse(0, 2, 0, 0);
}

/// The enumeration of `2^n` rows over `n` variables: every row
/// distinct, the first all-true, the last all-false, and the numeric
/// values of the rows counting strictly down.
pub proof fn lemma_enumeration(n: nat)
    ensures
        forall|i: int| 0 <= i < pow2(n) ==> #[trigger] bits_val(spec_row(n, i)) == pow2(n) - 1
            - i,
        forall|i: int, j: int|
            0 <= i < pow2(n) && 0 <= j < pow2(n) && i != j ==> spec_row(n, i) != spec_row(n, j),
        forall|k: int| 0 <= k < n ==> #[trigger] spec_row(n, 0)[k] == true,
        forall|k: int| 0 <= k < n ==> #[trigger] spec_row(n, pow2(n) - 1)[k] == false,
{
    lemma_pow2_pos(n);
    assert forall|i: int| 0 <= i < pow2(n) implies #[trigger] bits_val(spec_row(n, i)) == pow2(n)
        - 1 - i by {
        let v = (pow2(n) - 1 - i) as nat;
        lemma_bits_val(v, n);
        lemma_small_mod(v, pow2(n));
    }
    assert forall|k: int| 0 <= k < n implies #[trigger] spec_row(n, 0)[k] == true by {
        lemma_all_ones(n, (n - 1 - k) as nat);
    }
    assert forall|k: int| 0 <= k < n implies #[trigger] spec_row(n, pow2(n) - 1)[k] == false by {
        lemma_all_zeros((n - 1 - k) as nat);
    }
    assert forall|i: int, j: int|
        0 <= i < pow2(n) && 0 <= j < pow2(n) && i != j implies spec_row(n, i) != spec_row(
        n,
        j,
    ) by {
        assert(bits_val(spec_row(n, i)) == pow2(n) - 1 - i);
        assert(bits_val(spec_row(n, j)) == pow2(n) - 1 - j);
    }
}

} // verus!
