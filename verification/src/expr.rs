//! The expression tree: a closed set of node variants forming an
//! immutable propositional formula, together with its canonical
//! textual rendering.

use vstd::prelude::*;

verus! {

/// The binary connectives of the grammar.
#[derive(Debug, Clone, Copy, PartialEq, Eq)]
pub enum Operation {
    Conjunction,
    Disjunction,
    Equality,
    Inequality,
    Conditional,
}

/// A propositional formula. Each node owns its children exclusively,
/// so a value is strictly a tree; nothing mutates a node once built.
#[derive(Debug, PartialEq, Eq)]
pub enum Expr {
    Variable(char),
    True,
    False,
    Operation(Operation, Box<Expr>, Box<Expr>),
    Negate(Box<Expr>),
}

/// Whether `c` may stand as a variable symbol: an ASCII lowercase letter.
pub open spec fn is_variable_char(c: char) -> bool {
    97 <= c as int <= 122
}

/// The canonical display symbol of each connective.
pub open spec fn spec_symbol(op: Operation) -> char {
    match op {
        Operation::Conjunction => '∧',
        Operation::Disjunction => '∨',
        Operation::Equality => '≡',
        Operation::Inequality => '≢',
        Operation::Conditional => '→',
    }
}

impl Operation {
    /// The canonical display symbol of this connective.
    pub fn symbol(&self) -> (c: char)
        ensures
            c == spec_symbol(*self),
    {
        match self {
            Operation::Conjunction => '∧',
            Operation::Disjunction => '∨',
            Operation::Equality => '≡',
            Operation::Inequality => '≢',
            Operation::Conditional => '→',
        }
    }
}

impl Expr {
    /// A well-formed tree names its variables by ASCII lowercase letters
    /// only; every tree a successful parse returns is of this shape.
    pub open spec fn wf(self) -> bool
        decreases self,
    {
        match self {
            Expr::Variable(c) => is_variable_char(c),
            Expr::True => true,
            Expr::False => true,
            Expr::Operation(_, l, r) => (*l).wf() && (*r).wf(),
            Expr::Negate(u) => (*u).wf(),
        }
    }
}

/// The canonical textual form of a tree: binary nodes fully
/// parenthesized with the connective's symbol between spaces,
/// negation prefixed without parentheses.
pub open spec fn spec_render(e: Expr) -> Seq<char>
    decreases e,
{
    match e {
        Expr::Variable(c) => seq![c],
        Expr::True => seq!['T'],
        Expr::False => seq!['F'],
        Expr::Operation(op, l, r) => seq!['(']
            + spec_render(*l)
            + seq![' ', spec_symbol(op), ' ']
            + spec_render(*r)
            + seq![')'],
        Expr::Negate(u) => seq!['¬'] + spec_render(*u),
    }
}

impl Expr {
    /// Render the canonical textual form of this tree.
    pub fn render(&self) -> (out: Vec<char>)
        ensures
            out@ == spec_render(*self),
    {
        let mut out: Vec<char> = Vec::new();
        self.render_into(&mut out);
        assert(out@ =~= spec_render(*self));
        out
    }

    fn render_into(&self, out: &mut Vec<char>)
        ensures
            final(out)@ == old(out)@ + spec_render(*self),
        decreases *self,
    {
        match self {
            Expr::Variable(c) => {
                out.push(*c);
                assert(out@ =~= old(out)@ + spec_render(*self));
            },
            Expr::True => {
                out.push('T');
                assert(out@ =~= old(out)@ + spec_render(*self));
            },
            Expr::False => {
                out.push('F');
                assert(out@ =~= old(out)@ + spec_render(*self));
            },
            Expr::Operation(op, l, r) => {
                out.push('(');
                l.render_into(out);
                out.push(' ');
                out.push(op.symbol());
                out.push(' ');
                r.render_into(out);
                out.push(')');
                assert(out@ =~= old(out)@ + spec_render(*self));
            },
            Expr::Negate(u) => {
                out.push('¬');
                u.render_into(out);
                assert(out@ =~= old(out)@ + spec_render(*self));
            },
        }
    }
}

} // verus!
