//! The lexical scanner: a single forward pass that turns raw text
//! into tokens, skipping whitespace and collapsing the aliases of
//! each operator onto one canonical token.

use vstd::prelude::*;
use vstd::string::StrSliceExecFns;
use crate::expr::is_variable_char;

verus! {

/// One token of the grammar.
#[derive(Debug, Clone, Copy, PartialEq, Eq)]
pub enum Token {
    Lowercase(char),
    Uppercase(char),
    True,
    False,
    Negate,
    Or,
    And,
    Equals,
    NotEquals,
    LeadsTo,
    Biconditional,
    Open,
    Close,
}

/// Whether the scanner skips `c` silently between tokens: the
/// characters with the Unicode `White_Space` property.
pub open spec fn is_white(c: char) -> bool {
    let u = c as int;
    (9 <= u && u <= 13) || u == 32 || u == 133 || u == 160 || u == 0x1680 || (0x2000 <= u && u
        <= 0x200A) || u == 0x2028 || u == 0x2029 || u == 0x202F || u == 0x205F || u == 0x3000
}

/// The token of a single character, for every character whose meaning
/// needs no lookahead (`!` is the one exception, handled by the scan
/// itself). Constants `T` and `F` come before the letter classes, so
/// every other lowercase letter is a variable and every other
/// uppercase letter the reserved `Uppercase` token.
pub open spec fn spec_token_of(c: char) -> Option<Token> {
    if c == '|' || c == '+' || c == '∨' {
        Some(Token::Or)
    } else if c == '&' || c == '*' || c == '∧' {
        Some(Token::And)
    } else if c == '-' || c == '¬' {
        Some(Token::Negate)
    } else if c == '=' || c == '≡' {
        Some(Token::Equals)
    } else if c == '≢' {
        Some(Token::NotEquals)
    } else if c == '→' {
        Some(Token::LeadsTo)
    } else if c == '↔' {
        Some(Token::Biconditional)
    } else if c == 'T' {
        Some(Token::True)
    } else if c == 'F' {
        Some(Token::False)
    } else if c == '(' {
        Some(Token::Open)
    } else if c == ')' {
        Some(Token::Close)
    } else if is_variable_char(c) {
        Some(Token::Lowercase(c))
    } else if 65 <= c as int && c as int <= 90 {
        Some(Token::Uppercase(c))
    } else {
        None
    }
}

/// The whole token sequence of a text. Whitespace is skipped; `!`
/// immediately followed by `=` makes one `NotEquals` token, `!`
/// otherwise stands for negation; at the first character that fits no
/// token the scan stops, and the tokens before it are all it yields.
pub open spec fn spec_lex(cs: Seq<char>) -> Seq<Token>
    decreases cs.len(),
{
    if cs.len() == 0 {
        Seq::empty()
    } else if is_white(cs[0]) {
        spec_lex(cs.skip(1))
    } else if cs[0] == '!' {
        if cs.len() >= 2 && cs[1] == '=' {
            seq![Token::NotEquals] + spec_lex(cs.skip(2))
        } else {
            seq![Token::Negate] + spec_lex(cs.skip(1))
        }
    } else {
        match spec_token_of(cs[0]) {
            Some(t) => seq![t] + spec_lex(cs.skip(1)),
            None => Seq::empty(),
        }
    }
}

/// The scanner: the text as characters, and how far the scan has come.
pub struct Lexer {
    chars: Vec<char>,
    pointer: usize,
}

impl Lexer {
    /// The scan never stands past the end of the text.
    pub closed spec fn wf(self) -> bool {
        self.pointer <= self.chars@.len()
    }

    /// The characters the scan has not consumed yet.
    pub closed spec fn remaining(self) -> Seq<char> {
        self.chars@.skip(self.pointer as int)
    }

    /// A scanner over the whole of `equation`.
    pub fn new(equation: String) -> (lx: Lexer)
        ensures
            lx.wf(),
            lx.remaining() == equation@,
    {
        let n: usize = equation.as_str().unicode_len();
        let mut chars: Vec<char> = Vec::new();
        let mut i: usize = 0;
        while i < n
            invariant
                i <= n,
                n == equation@.len(),
                chars@ == equation@.subrange(0, i as int),
            decreases n - i,
        {
            chars.push(equation.as_str().get_char(i));
            assert(chars@ =~= equation@.subrange(0, i + 1 as int));
            i = i + 1;
        }
        assert(chars@ =~= equation@);
        let lx = Lexer { chars, pointer: 0 };
        assert(lx.remaining() =~= lx.chars@);
        lx
    }

    /// A scanner over a text already held as characters.
    pub fn from_chars(chars: &Vec<char>) -> (lx: Lexer)
        ensures
            lx.wf(),
            lx.remaining() == chars@,
    {
        let mut owned: Vec<char> = Vec::new();
        let mut i: usize = 0;
        while i < chars.len()
            invariant
                i <= chars@.len(),
                owned@ == chars@.subrange(0, i as int),
            decreases chars@.len() - i,
        {
            owned.push(chars[i]);
            assert(owned@ =~= chars@.subrange(0, i + 1 as int));
            i = i + 1;
        }
        assert(owned@ =~= chars@);
        let lx = Lexer { chars: owned, pointer: 0 };
        assert(lx.remaining() =~= lx.chars@);
        lx
    }

    /// Advance past whitespace; the tokens of the rest do not change.
    fn skip_space(&mut self)
        requires
            old(self).wf(),
        ensures
            final(self).wf(),
            final(self).chars == old(self).chars,
            final(self).pointer >= old(self).pointer,
            spec_lex(final(self).remaining()) == spec_lex(old(self).remaining()),
            final(self).remaining().len() > 0 ==> !is_white(final(self).remaining()[0]),
    {
        while self.pointer < self.chars.len() && white(self.chars[self.pointer])
            invariant
                self.wf(),
                self.chars == old(self).chars,
                self.pointer >= old(self).pointer,
                spec_lex(self.remaining()) == spec_lex(old(self).remaining()),
            decreases self.chars@.len() - self.pointer,
        {
            proof {
                assert(self.remaining().skip(1) =~= self.chars@.skip(self.pointer + 1 as int));
            }
            self.pointer = self.pointer + 1;
        }
    }

    /// The next token, or `None` once the text is exhausted or an
    /// unrecognized character stops the scan for good.
    pub fn next(&mut self) -> (t: Option<Token>)
        requires
            old(self).wf(),
        ensures
            final(self).wf(),
            final(self).remaining().len() <= old(self).remaining().len(),
            match t {
                Some(tok) => spec_lex(old(self).remaining()) == seq![tok] + spec_lex(
                    final(self).remaining(),
                ) && final(self).remaining().len() < old(self).remaining().len(),
                None => spec_lex(old(self).remaining()) == Seq::<Token>::empty() && spec_lex(
                    final(self).remaining(),
                ) == Seq::<Token>::empty(),
            },
    {
        self.skip_space();
        if self.pointer >= self.chars.len() {
            assert(self.remaining().len() == 0);
            return None;
        }
        let c = self.chars[self.pointer];
        let ghost rem: Seq<char> = self.remaining();
        assert(rem[0] == c);
        if c == '!' {
            self.pointer = self.pointer + 1;
            assert(self.remaining() =~= rem.skip(1));
            if self.pointer < self.chars.len() && self.chars[self.pointer] == '=' {
                assert(rem.len() >= 2 && rem[1] == '=');
                self.pointer = self.pointer + 1;
                assert(self.remaining() =~= rem.skip(2));
                return Some(Token::NotEquals);
            }
            assert(!(rem.len() >= 2 && rem[1] == '='));
            return Some(Token::Negate);
        }
        match token_of(c) {
            Some(t) => {
                self.pointer = self.pointer + 1;
                assert(self.remaining() =~= rem.skip(1));
                Some(t)
            },
            None => {
                assert(spec_lex(rem) == Seq::<Token>::empty());
                None
            },
        }
    }
}

/// Whether `c` has the Unicode `White_Space` property.
fn white(c: char) -> (b: bool)
    ensures
        b == is_white(c),
{
    let u = c as u32;
    (9 <= u && u <= 13) || u == 32 || u == 133 || u == 160 || u == 0x1680 || (0x2000 <= u && u
        <= 0x200A) || u == 0x2028 || u == 0x2029 || u == 0x202F || u == 0x205F || u == 0x3000
}

/// A token never carries an ill-formed variable symbol: `Lowercase`
/// holds an ASCII lowercase letter and nothing else does.
pub open spec fn wf_token(t: Token) -> bool {
    match t {
        Token::Lowercase(c) => is_variable_char(c),
        _ => true,
    }
}

/// Every token of the sequence is well formed.
pub open spec fn wf_tokens(ts: Seq<Token>) -> bool {
    forall|i: int| 0 <= i < ts.len() ==> wf_token(ts[i])
}

/// A well-formed token in front of well-formed tokens leaves them all
/// well formed.
proof fn lemma_wf_cons(t: Token, ts: Seq<Token>)
    requires
        wf_token(t),
        wf_tokens(ts),
    ensures
        wf_tokens(seq![t] + ts),
{
    assert forall|i: int| 0 <= i < (seq![t] + ts).len() implies wf_token((seq![t] + ts)[i]) by {
        if i > 0 {
            assert((seq![t] + ts)[i] == ts[i - 1]);
        }
    }
}

/// Whatever the text, the scan yields well-formed tokens only.
pub proof fn lemma_lex_wf(cs: Seq<char>)
    ensures
        wf_tokens(spec_lex(cs)),
    decreases cs.len(),
{
    if cs.len() == 0 {
    } else if is_white(cs[0]) {
        lemma_lex_wf(cs.skip(1));
    } else if cs[0] == '!' {
        if cs.len() >= 2 && cs[1] == '=' {
            lemma_lex_wf(cs.skip(2));
            lemma_wf_cons(Token::NotEquals, spec_lex(cs.skip(2)));
        } else {
            lemma_lex_wf(cs.skip(1));
            lemma_wf_cons(Token::Negate, spec_lex(cs.skip(1)));
        }
    } else {
        match spec_token_of(cs[0]) {
            Some(t) => {
                lemma_lex_wf(cs.skip(1));
                lemma_wf_cons(t, spec_lex(cs.skip(1)));
            },
            None => {},
        }
    }
}

/// The token of one character, as [`spec_token_of`] gives it.
fn token_of(c: char) -> (t: Option<Token>)
    ensures
        t == spec_token_of(c),
{
    if c == '|' || c == '+' || c == '∨' {
        Some(Token::Or)
    } else if c == '&' || c == '*' || c == '∧' {
        Some(Token::And)
    } else if c == '-' || c == '¬' {
        Some(Token::Negate)
    } else if c == '=' || c == '≡' {
        Some(Token::Equals)
    } else if c == '≢' {
        Some(Token::NotEquals)
    } else if c == '→' {
        Some(Token::LeadsTo)
    } else if c == '↔' {
        Some(Token::Biconditional)
    } else if c == 'T' {
        Some(Token::True)
    } else if c == 'F' {
        Some(Token::False)
    } else if c == '(' {
        Some(Token::Open)
    } else if c == ')' {
        Some(Token::Close)
    } else {
        let u = c as u32;
        if 97 <= u && u <= 122 {
            Some(Token::Lowercase(c))
        } else if 65 <= u && u <= 90 {
            Some(Token::Uppercase(c))
        } else {
            None
        }
    }
}

} // verus!
