//! The state machine behind the interactive front end: an input line
//! built keystroke by keystroke, with ASCII shortcuts rewritten to
//! the symbolic operators, and a submitted line turned into a truth
//! table. The front end only reads keys, draws the fields, and runs
//! the loop; every decision stands here.

use vstd::prelude::*;
use crate::lexer::Lexer;
use crate::lexer::spec_lex;
use crate::lexer::lemma_lex_wf;
use crate::parser::Parser;
use crate::parser::spec_parse;
use crate::parser::lemma_parse_wf;
use crate::solver::TruthTable;
use crate::solver::solve_for_table;
use crate::solver::table_for;

verus! {

/// Which screen the session shows.
#[derive(Debug, Clone, Copy, PartialEq, Eq)]
pub enum State {
    Input,
    Display,
    Closed,
}

/// One keystroke, as the front end hands it over: a printable
/// character, the few keys the session reacts to, or anything else.
#[derive(Debug, Clone, Copy, PartialEq, Eq)]
pub enum Key {
    Char(char),
    Enter,
    Backspace,
    Quit,
    Other,
}

/// The interactive session: the current screen, the last two raw
/// characters typed (the shortcut memory), the input line in its
/// symbolic form, and the table of the last submitted line.
pub struct App {
    pub state: State,
    pub last2: char,
    pub last: char,
    pub input: Vec<char>,
    pub truth_table: Option<TruthTable>,
}

/// `s` with its final character removed; an empty line stays empty.
pub open spec fn chop(s: Seq<char>) -> Seq<char> {
    if s.len() == 0 {
        s
    } else {
        s.drop_last()
    }
}

/// The symbolic character an ASCII shortcut stands for; a character
/// with no shortcut stands for itself.
pub open spec fn spec_adjust(c: char) -> char {
    if c == '|' || c == '+' {
        '∨'
    } else if c == '&' || c == '*' {
        '∧'
    } else if c == '!' || c == '-' {
        '¬'
    } else if c == '=' {
        '≡'
    } else {
        c
    }
}

/// Whether `c` completes a multi-character shortcut after the raw
/// characters `last2`, `last`: `!=`, `<->` or `->`.
pub open spec fn spec_special(last2: char, last: char, c: char) -> bool {
    (last == '!' && c == '=') || (last2 == '<' && last == '-' && c == '>') || (last == '-' && c
        == '>')
}

/// The input line after typing `c`: a completed shortcut rewrites
/// the tail of the line into one symbolic operator; any other
/// character is appended in its symbolic form.
pub open spec fn spec_input_after(last2: char, last: char, input: Seq<char>, c: char) -> Seq<
    char,
> {
    if last == '!' && c == '=' {
        chop(input) + seq!['≢']
    } else if last2 == '<' && last == '-' && c == '>' {
        chop(chop(input)) + seq!['↔']
    } else if last == '-' && c == '>' {
        chop(input) + seq!['→']
    } else {
        input + seq![spec_adjust(c)]
    }
}

/// What one typed character does to the session: the line changes as
/// [`spec_input_after`] says, and the shortcut memory shifts only
/// when no shortcut completed.
pub open spec fn input_char_rel(pre: App, c: char, post: App) -> bool {
    &&& post.input@ == spec_input_after(pre.last2, pre.last, pre.input@, c)
    &&& post.last == (if spec_special(pre.last2, pre.last, c) {
        pre.last
    } else {
        c
    })
    &&& post.last2 == (if spec_special(pre.last2, pre.last, c) {
        pre.last2
    } else {
        pre.last
    })
    &&& post.state == pre.state
    &&& post.truth_table == pre.truth_table
}

/// What submitting the line does: a line that parses gets its truth
/// table and the display screen; one that does not is discarded
/// whole, and nothing else changes.
pub open spec fn submit_rel(pre: App, post: App) -> bool {
    &&& post.last == pre.last
    &&& post.last2 == pre.last2
    &&& match spec_parse(spec_lex(pre.input@)) {
        Some(e) => {
            &&& post.truth_table matches Some(t) && table_for(e, t)
            &&& post.state == State::Display
            &&& post.input@ == pre.input@
        },
        None => {
            &&& post.input@ == Seq::<char>::empty()
            &&& post.state == pre.state
            &&& post.truth_table == pre.truth_table
        },
    }
}

/// What a keystroke does on the input screen.
pub open spec fn input_key_rel(pre: App, key: Key, post: App) -> bool {
    match key {
        Key::Enter => submit_rel(pre, post),
        Key::Char(c) => input_char_rel(pre, c, post),
        Key::Backspace => {
            &&& post.input@ == chop(pre.input@)
            &&& post.last == pre.last
            &&& post.last2 == pre.last2
            &&& post.state == pre.state
            &&& post.truth_table == pre.truth_table
        },
        _ => post == pre,
    }
}

/// What a keystroke does on the display screen: the line clears and
/// the session returns to the input screen; a typed character starts
/// the next line, with the shortcut memory kept.
pub open spec fn display_key_rel(pre: App, key: Key, post: App) -> bool {
    &&& post.truth_table == pre.truth_table
    &&& post.state == State::Input
    &&& match key {
        Key::Char(c) => {
            &&& post.input@ == spec_input_after(pre.last2, pre.last, Seq::empty(), c)
            &&& post.last == (if spec_special(pre.last2, pre.last, c) {
                pre.last
            } else {
                c
            })
            &&& post.last2 == (if spec_special(pre.last2, pre.last, c) {
                pre.last2
            } else {
                pre.last
            })
        },
        _ => {
            &&& post.input@ == Seq::<char>::empty()
            &&& post.last == pre.last
            &&& post.last2 == pre.last2
        },
    }
}

/// What one keystroke does to the whole session: quitting closes it,
/// and otherwise the current screen decides.
pub open spec fn process_rel(pre: App, key: Key, post: App) -> bool {
    if key == Key::Quit {
        &&& post.state == State::Closed
        &&& post.input@ == pre.input@
        &&& post.last == pre.last
        &&& post.last2 == pre.last2
        &&& post.truth_table == pre.truth_table
    } else {
        match pre.state {
            State::Input => input_key_rel(pre, key, post),
            State::Display => display_key_rel(pre, key, post),
            State::Closed => post == pre,
        }
    }
}

impl Default for App {
    /// A fresh session: the input screen, an empty line, a blank
    /// shortcut memory, and no table yet.
    fn default() -> (a: App)
        ensures
            a.state == State::Input,
            a.last == ' ',
            a.last2 == ' ',
            a.input@ == Seq::<char>::empty(),
            a.truth_table is None,
    {
        App { state: State::Input, last: ' ', last2: ' ', input: Vec::new(), truth_table: None }
    }
}

/// The symbolic character of an ASCII shortcut, as [`spec_adjust`]
/// gives it.
fn adjust(c: char) -> (r: char)
    ensures
        r == spec_adjust(c),
{
    if c == '|' || c == '+' {
        '∨'
    } else if c == '&' || c == '*' {
        '∧'
    } else if c == '!' || c == '-' {
        '¬'
    } else if c == '=' {
        '≡'
    } else {
        c
    }
}

impl App {
    /// Take one typed character into the input line.
    pub fn input_char(&mut self, c: char)
        ensures
            input_char_rel(*old(self), c, *final(self)),
    {
        if self.last == '!' && c == '=' {
            self.input.pop();
            self.input.push('≢');
            assert(self.input@ =~= spec_input_after(
                old(self).last2,
                old(self).last,
                old(self).input@,
                c,
            ));
        } else if self.last2 == '<' && self.last == '-' && c == '>' {
            self.input.pop();
            self.input.pop();
            self.input.push('↔');
            assert(self.input@ =~= spec_input_after(
                old(self).last2,
                old(self).last,
                old(self).input@,
                c,
            ));
        } else if self.last == '-' && c == '>' {
            self.input.pop();
            self.input.push('→');
            assert(self.input@ =~= spec_input_after(
                old(self).last2,
                old(self).last,
                old(self).input@,
                c,
            ));
        } else {
            self.last2 = self.last;
            self.last = c;
            let r = adjust(c);
            self.input.push(r);
            assert(self.input@ =~= spec_input_after(
                old(self).last2,
                old(self).last,
                old(self).input@,
                c,
            ));
        }
    }

    /// Submit the input line: parse it and, if it parses, show its
    /// truth table; else discard it.
    pub fn submit(&mut self)
        ensures
            submit_rel(*old(self), *final(self)),
    {
        let lexer = Lexer::from_chars(&self.input);
        let mut parser = Parser::from_lexer(lexer);
        match parser.parse() {
            Some(expr) => {
                proof {
                    lemma_lex_wf(old(self).input@);
                    lemma_parse_wf(spec_lex(old(self).input@));
                }
                self.truth_table = Some(solve_for_table(expr));
                self.state = State::Display;
            },
            None => {
                self.input.clear();
            },
        }
    }

    /// React to one keystroke, whatever screen the session shows.
    pub fn process_input(&mut self, key: Key)
        ensures
            process_rel(*old(self), key, *final(self)),
    {
        if let Key::Quit = key {
            self.state = State::Closed;
            return ;
        }
        match self.state {
            State::Input => self.process_input_input(key),
            State::Display => self.process_input_display(key),
            State::Closed => {},
        }
    }

    /// React to one keystroke on the input screen.
    pub fn process_input_input(&mut self, key: Key)
        ensures
            input_key_rel(*old(self), key, *final(self)),
    {
        match key {
            Key::Enter => {
                self.submit();
            },
            Key::Char(c) => {
                self.input_char(c);
            },
            Key::Backspace => {
                self.input.pop();
                assert(self.input@ =~= chop(old(self).input@));
            },
            _ => {},
        }
    }

    /// React to one keystroke on the display screen.
    pub fn process_input_display(&mut self, key: Key)
        ensures
            display_key_rel(*old(self), key, *final(self)),
    {
        self.input.clear();
        self.state = State::Input;
        match key {
            Key::Char(c) => {
                self.input_char(c);
            },
            _ => {},
        }
    }
}

} // verus!
