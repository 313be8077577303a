//! Pattern parser: turns a pattern string into an abstract syntax tree.
//!
//! Grammar, lowest to highest binding:
//! - `regex := concat ('|' concat)*` (left-associative alternation)
//! - `concat := symbol+` (stops at `|`, `)`, or end of input)
//! - `symbol := atom ('?' | '+' | '*')*` (postfix quantifiers may stack)
//! - `atom := '(' regex ')' | '\' any-character | any-other-character`
//!
//! The spec functions `sp_atom` .. `sp_regex` state the grammar as a
//! recursive descent over the character sequence and a position; the
//! executable parser is proved to return exactly their result.  The
//! position guards `pos < p2 <= s.len()` inside them only make the
//! termination of the definitions evident; every successful step does end
//! within those bounds (`lemma_atom_props` .. `lemma_regex_props`), so the
//! guarded fallback branches are never taken.

use vstd::prelude::*;
use vstd::string::StringExecFns;
use crate::chars::{chars_of, str_contains_char};

verus! {

/// The abstract syntax tree of a pattern.
#[derive(Debug)]
pub enum AST {
    Letter(char),
    Optional(Box<AST>),
    ZeroOrMore(Box<AST>),
    OneOrMore(Box<AST>),
    Alternate(Box<AST>, Box<AST>),
    Concat(Box<AST>, Box<AST>),
}

/// A parse failure: a human-readable message and the character offset at
/// which the anomaly was detected.
pub type ParseError = (String, usize);

/// The number of nodes of an abstract syntax tree.
pub open spec fn count_nodes(ast: AST) -> nat
    decreases ast,
{
    match ast {
        AST::Letter(_) => 1,
        AST::Optional(e) => 1 + count_nodes(*e),
        AST::ZeroOrMore(e) => 1 + count_nodes(*e),
        AST::OneOrMore(e) => 1 + count_nodes(*e),
        AST::Alternate(a, b) => 1 + count_nodes(*a) + count_nodes(*b),
        AST::Concat(a, b) => 1 + count_nodes(*a) + count_nodes(*b),
    }
}

/// The result of one step of the grammar: the tree parsed and the position
/// after it, or a message and the position of the anomaly.
pub type SpParsed = Result<(AST, int), (Seq<char>, int)>;

/// Whether concatenation stops at `pos`: at `|`, at `)`, or at the end of
/// the input.
pub open spec fn sp_concat_stop(s: Seq<char>, pos: int) -> bool {
    pos >= s.len() || s[pos] == '|' || s[pos] == ')'
}

/// `atom := '(' regex ')' | '\' any-character | any-other-character`.
pub open spec fn sp_atom(s: Seq<char>, pos: int) -> SpParsed
    decreases s.len() - pos, 0int,
{
    if pos < 0 || pos >= s.len() {
        Err(("Missing atom"@, pos))
    } else if s[pos] == '(' {
        match sp_regex(s, pos + 1) {
            Ok((ast, p2)) => if p2 < s.len() && s[p2] == ')' {
                Ok((ast, p2 + 1))
            } else {
                Err(("Unmatched ("@, pos))
            },
            Err(e) => Err(e),
        }
    } else if s[pos] == '\\' {
        if pos + 1 < s.len() {
            Ok((AST::Letter(s[pos + 1]), pos + 2))
        } else {
            Err(("Missing atom"@, pos + 1))
        }
    } else {
        Ok((AST::Letter(s[pos]), pos + 1))
    }
}

/// The quantifier tail of a symbol: each `?`, `+` or `*` wraps the
/// accumulated tree once more.
pub open spec fn sp_symbol_rest(s: Seq<char>, pos: int, lhs: AST) -> SpParsed
    decreases s.len() - pos, 0int,
{
    if 0 <= pos < s.len() && (s[pos] == '?' || s[pos] == '+' || s[pos] == '*') {
        if s[pos] == '+' {
            sp_symbol_rest(s, pos + 1, AST::OneOrMore(Box::new(lhs)))
        } else if s[pos] == '*' {
            sp_symbol_rest(s, pos + 1, AST::ZeroOrMore(Box::new(lhs)))
        } else {
            sp_symbol_rest(s, pos + 1, AST::Optional(Box::new(lhs)))
        }
    } else {
        Ok((lhs, pos))
    }
}

/// `symbol := atom ('?' | '+' | '*')*`.
pub open spec fn sp_symbol(s: Seq<char>, pos: int) -> SpParsed
    decreases s.len() - pos, 1int,
{
    match sp_atom(s, pos) {
        Ok((ast, p2)) => if pos < p2 <= s.len() {
            sp_symbol_rest(s, p2, ast)
        } else {
            arbitrary()
        },
        Err(e) => Err(e),
    }
}

/// `concat := symbol+`: symbols up to a stopping character or the end of
/// the input, right-folded via repeated `Concat` nodes.
pub open spec fn sp_concat(s: Seq<char>, pos: int) -> SpParsed
    decreases s.len() - pos, 4int,
{
    match sp_symbol(s, pos) {
        Ok((lhs, p2)) => if pos < p2 <= s.len() {
            if sp_concat_stop(s, p2) {
                Ok((lhs, p2))
            } else {
                match sp_concat(s, p2) {
                    Ok((rhs, p3)) => Ok((AST::Concat(Box::new(lhs), Box::new(rhs)), p3)),
                    Err(e) => Err(e),
                }
            }
        } else {
            arbitrary()
        },
        Err(e) => Err(e),
    }
}

/// The tail of an alternation: further concatenations joined by `|`,
/// left-associatively.
pub open spec fn sp_regex_rest(s: Seq<char>, pos: int, lhs: AST) -> SpParsed
    decreases s.len() - pos, 6int,
{
    if 0 <= pos < s.len() && s[pos] == '|' {
        match sp_concat(s, pos + 1) {
            Ok((rhs, p2)) => if pos < p2 <= s.len() {
                sp_regex_rest(s, p2, AST::Alternate(Box::new(lhs), Box::new(rhs)))
            } else {
                arbitrary()
            },
            Err(e) => Err(e),
        }
    } else {
        Ok((lhs, pos))
    }
}

/// `regex := concat ('|' concat)*`.
pub open spec fn sp_regex(s: Seq<char>, pos: int) -> SpParsed
    decreases s.len() - pos, 7int,
{
    match sp_concat(s, pos) {
        Ok((lhs, p2)) => if pos < p2 <= s.len() {
            sp_regex_rest(s, p2, lhs)
        } else {
            arbitrary()
        },
        Err(e) => Err(e),
    }
}

/// What parsing a whole pattern yields: the grammar applied at position 0.
/// Input left over after the top-level expression (an unopened `)` and what
/// follows it) is ignored, as the grammar stops there.
pub open spec fn spec_parse(s: Seq<char>) -> SpParsed {
    sp_regex(s, 0)
}

/// A successful atom ends past its start, inside the input, and its tree
/// has fewer than twice as many nodes as it consumed characters.
pub proof fn lemma_atom_props(s: Seq<char>, pos: int)
    requires
        0 <= pos,
    ensures
        sp_atom(s, pos) matches Ok((ast, p2)) ==> pos < p2 <= s.len() && count_nodes(ast) <= 2 * (
        p2 - pos) - 1,
    decreases s.len() - pos, 1int,
{
    if 0 <= pos < s.len() && s[pos] == '(' {
        lemma_regex_props(s, pos + 1);
    }
}

/// As [`lemma_atom_props`], for the quantifier tail of a symbol.
pub proof fn lemma_symbol_rest_props(s: Seq<char>, pos: int, lhs: AST)
    requires
        0 <= pos <= s.len(),
    ensures
        sp_symbol_rest(s, pos, lhs) matches Ok((ast, p2)) ==> pos <= p2 <= s.len() && count_nodes(
            ast,
        ) <= count_nodes(lhs) + 2 * (p2 - pos),
    decreases s.len() - pos, 1int,
{
    if 0 <= pos < s.len() && (s[pos] == '?' || s[pos] == '+' || s[pos] == '*') {
        if s[pos] == '+' {
            lemma_symbol_rest_props(s, pos + 1, AST::OneOrMore(Box::new(lhs)));
        } else if s[pos] == '*' {
            lemma_symbol_rest_props(s, pos + 1, AST::ZeroOrMore(Box::new(lhs)));
        } else {
            lemma_symbol_rest_props(s, pos + 1, AST::Optional(Box::new(lhs)));
        }
    }
}

/// As [`lemma_atom_props`], for a whole symbol.
pub proof fn lemma_symbol_props(s: Seq<char>, pos: int)
    requires
        0 <= pos,
    ensures
        sp_symbol(s, pos) matches Ok((ast, p2)) ==> pos < p2 <= s.len() && count_nodes(ast) <= 2 * (
        p2 - pos) - 1,
    decreases s.len() - pos, 2int,
{
    lemma_atom_props(s, pos);
    match sp_atom(s, pos) {
        Ok(astp) => {
            lemma_symbol_rest_props(s, astp.1, astp.0);
        },
        Err(_) => {},
    }
}

/// As [`lemma_atom_props`], for a whole concatenation.
pub proof fn lemma_concat_props(s: Seq<char>, pos: int)
    requires
        0 <= pos,
    ensures
        sp_concat(s, pos) matches Ok((ast, p2)) ==> pos < p2 <= s.len() && count_nodes(ast) <= 2 * (
        p2 - pos) - 1,
    decreases s.len() - pos, 5int,
{
    lemma_symbol_props(s, pos);
    match sp_symbol(s, pos) {
        Ok(astp) => {
            if !sp_concat_stop(s, astp.1) {
                lemma_concat_props(s, astp.1);
            }
        },
        Err(_) => {},
    }
}

/// As [`lemma_atom_props`], for the tail of an alternation.
pub proof fn lemma_regex_rest_props(s: Seq<char>, pos: int, lhs: AST)
    requires
        0 <= pos <= s.len(),
    ensures
        sp_regex_rest(s, pos, lhs) matches Ok((ast, p2)) ==> pos <= p2 <= s.len() && count_nodes(
            ast,
        ) <= count_nodes(lhs) + 2 * (p2 - pos),
    decreases s.len() - pos, 7int,
{
    if 0 <= pos < s.len() && s[pos] == '|' {
        lemma_concat_props(s, pos + 1);
        match sp_concat(s, pos + 1) {
            Ok(astp) => {
                lemma_regex_rest_props(s, astp.1, AST::Alternate(Box::new(lhs), Box::new(astp.0)));
            },
            Err(_) => {},
        }
    }
}

/// A successful parse of a whole expression ends past its start, inside
/// the input, and its tree has fewer than twice as many nodes as it
/// consumed characters.
pub proof fn lemma_regex_props(s: Seq<char>, pos: int)
    requires
        0 <= pos,
    ensures
        sp_regex(s, pos) matches Ok((ast, p2)) ==> pos < p2 <= s.len() && count_nodes(ast) <= 2 * (
        p2 - pos) - 1,
    decreases s.len() - pos, 8int,
{
    lemma_concat_props(s, pos);
    match sp_concat(s, pos) {
        Ok(astp) => {
            lemma_regex_rest_props(s, astp.1, astp.0);
        },
        Err(_) => {},
    }
}

/// One pass of the parser over a pattern: the character sequence and the
/// current position in it.
pub struct Pass {
    s: Vec<char>,
    pos: usize,
}

impl Pass {
    /// Parses a whole pattern, returning its tree or the first anomaly,
    /// exactly as [`spec_parse`] lays it out.
    pub fn parse(c: &str) -> (r: Result<AST, ParseError>)
        ensures
            match spec_parse(c@) {
                Ok(astp) => r is Ok && r->Ok_0 == astp.0,
                Err(ep) => r is Err && r->Err_0.0@ == ep.0 && r->Err_0.1 as int == ep.1,
            },
    {
        let mut p = Pass { s: chars_of(c), pos: 0 };
        p.parse_regex()
    }

    /// Consumes the next character, failing unless it is `c`.
    fn expect(&mut self, c: char) -> (r: Result<(), ParseError>)
        requires
            old(self).pos <= old(self).s@.len(),
        ensures
            final(self).s@ == old(self).s@,
            old(self).pos < old(self).s@.len() ==> final(self).pos == old(self).pos + 1,
            old(self).pos >= old(self).s@.len() ==> final(self).pos == old(self).pos,
            r is Ok <==> (old(self).pos < old(self).s@.len() && old(self).s@[old(self).pos as int]
                == c),
    {
        if self.pos < self.s.len() {
            let got = self.s[self.pos];
            self.pos = self.pos + 1;
            if got == c {
                Ok(())
            } else {
                Err((String::from_str("unexpected character"), self.pos - 1))
            }
        } else {
            Err((String::from_str("unexpected character"), 0))
        }
    }

    /// Consumes the next character when it is `c`, and reports whether it
    /// did.
    fn next_if(&mut self, c: char) -> (r: bool)
        requires
            old(self).pos <= old(self).s@.len(),
        ensures
            final(self).s@ == old(self).s@,
            r == (old(self).pos < old(self).s@.len() && old(self).s@[old(self).pos as int] == c),
            r ==> final(self).pos == old(self).pos + 1,
            !r ==> final(self).pos == old(self).pos,
    {
        if self.pos < self.s.len() && self.s[self.pos] == c {
            self.pos = self.pos + 1;
            true
        } else {
            false
        }
    }

    /// Reports whether the next character is one of `c`; at the end of the
    /// input it reports true, as every delimiter set also stops there.
    fn within(&mut self, c: &str) -> (r: bool)
        requires
            old(self).pos <= old(self).s@.len(),
            c@.len() > 0,
        ensures
            *final(self) == *old(self),
            r == if old(self).pos < old(self).s@.len() {
                c@.contains(old(self).s@[old(self).pos as int])
            } else {
                true
            },
    {
        if self.pos < self.s.len() {
            str_contains_char(c, self.s[self.pos])
        } else {
            true
        }
    }

    /// `regex := concat ('|' concat)*`, as [`sp_regex`] lays it out.
    fn parse_regex(&mut self) -> (r: Result<AST, ParseError>)
        requires
            old(self).pos <= old(self).s@.len(),
        ensures
            final(self).s@ == old(self).s@,
            final(self).pos <= final(self).s@.len(),
            match sp_regex(old(self).s@, old(self).pos as int) {
                Ok(astp) => r is Ok && r->Ok_0 == astp.0 && final(self).pos as int == astp.1,
                Err(ep) => r is Err && r->Err_0.0@ == ep.0 && r->Err_0.1 as int == ep.1,
            },
        decreases old(self).s@.len() - old(self).pos, 7int,
    {
        let ghost s0 = self.s@;
        let ghost pos0 = self.pos as int;
        proof {
            lemma_concat_props(s0, pos0);
        }
        let mut lhs = match self.parse_concat() {
            Ok(a) => a,
            Err(e) => {
                return Err(e);
            },
        };
        loop
            invariant
                s0 == old(self).s@,
                pos0 == old(self).pos as int,
                self.s@ == s0,
                self.pos <= s0.len(),
                pos0 <= self.pos,
                sp_regex_rest(s0, self.pos as int, lhs) == sp_regex(s0, pos0),
            ensures
                self.s@ == s0,
                self.pos <= s0.len(),
                sp_regex(s0, pos0) == Ok::<(AST, int), (Seq<char>, int)>((lhs, self.pos as int)),
            decreases s0.len() - self.pos,
        {
            proof {
                lemma_concat_props(s0, self.pos as int + 1);
            }
            if !self.next_if('|') {
                break ;
            }
            let rhs = match self.parse_concat() {
                Ok(a) => a,
                Err(e) => {
                    return Err(e);
                },
            };
            lhs = AST::Alternate(Box::new(lhs), Box::new(rhs));
        }
        Ok(lhs)
    }

    /// `concat := symbol+`, as [`sp_concat`] lays it out.
    fn parse_concat(&mut self) -> (r: Result<AST, ParseError>)
        requires
            old(self).pos <= old(self).s@.len(),
        ensures
            final(self).s@ == old(self).s@,
            final(self).pos <= final(self).s@.len(),
            match sp_concat(old(self).s@, old(self).pos as int) {
                Ok(astp) => r is Ok && r->Ok_0 == astp.0 && final(self).pos as int == astp.1,
                Err(ep) => r is Err && r->Err_0.0@ == ep.0 && r->Err_0.1 as int == ep.1,
            },
        decreases old(self).s@.len() - old(self).pos, 4int,
    {
        let ghost s0 = self.s@;
        let ghost pos0 = self.pos as int;
        proof {
            lemma_symbol_props(s0, pos0);
        }
        let lhs = match self.parse_symbol() {
            Ok(a) => a,
            Err(e) => {
                return Err(e);
            },
        };
        proof {
            reveal_strlit("|)");
            assert("|)"@.len() == 2);
        }
        let stop = self.within("|)");
        proof {
            if self.pos < s0.len() {
                let ch = s0[self.pos as int];
                assert("|)"@[0] == '|' && "|)"@[1] == ')');
                if ch == '|' {
                    assert("|)"@.contains(ch));
                }
                if ch == ')' {
                    assert("|)"@.contains(ch));
                }
                assert("|)"@.contains(ch) == sp_concat_stop(s0, self.pos as int));
            }
        }
        if stop {
            return Ok(lhs);
        }
        let rhs = match self.parse_concat() {
            Ok(a) => a,
            Err(e) => {
                return Err(e);
            },
        };
        Ok(AST::Concat(Box::new(lhs), Box::new(rhs)))
    }

    /// `symbol := atom ('?' | '+' | '*')*`, as [`sp_symbol`] lays it out.
    fn parse_symbol(&mut self) -> (r: Result<AST, ParseError>)
        requires
            old(self).pos <= old(self).s@.len(),
        ensures
            final(self).s@ == old(self).s@,
            final(self).pos <= final(self).s@.len(),
            match sp_symbol(old(self).s@, old(self).pos as int) {
                Ok(astp) => r is Ok && r->Ok_0 == astp.0 && final(self).pos as int == astp.1,
                Err(ep) => r is Err && r->Err_0.0@ == ep.0 && r->Err_0.1 as int == ep.1,
            },
        decreases old(self).s@.len() - old(self).pos, 1int,
    {
        let ghost s0 = self.s@;
        let ghost pos0 = self.pos as int;
        proof {
            lemma_atom_props(s0, pos0);
        }
        let mut lhs = match self.parse_atom() {
            Ok(a) => a,
            Err(e) => {
                return Err(e);
            },
        };
        loop
            invariant
                s0 == old(self).s@,
                pos0 == old(self).pos as int,
                self.s@ == s0,
                self.pos <= s0.len(),
                sp_symbol_rest(s0, self.pos as int, lhs) == sp_symbol(s0, pos0),
            ensures
                self.s@ == s0,
                self.pos <= s0.len(),
                sp_symbol(s0, pos0) == Ok::<(AST, int), (Seq<char>, int)>((lhs, self.pos as int)),
            decreases s0.len() - self.pos,
        {
            if self.next_if('+') {
                lhs = AST::OneOrMore(Box::new(lhs));
            } else if self.next_if('*') {
                lhs = AST::ZeroOrMore(Box::new(lhs));
            } else if self.next_if('?') {
                lhs = AST::Optional(Box::new(lhs));
            } else {
                break ;
            }
        }
        Ok(lhs)
    }

    /// `atom := '(' regex ')' | '\' any-character | any-other-character`,
    /// as [`sp_atom`] lays it out.
    fn parse_atom(&mut self) -> (r: Result<AST, ParseError>)
        requires
            old(self).pos <= old(self).s@.len(),
        ensures
            final(self).s@ == old(self).s@,
            final(self).pos <= final(self).s@.len(),
            match sp_atom(old(self).s@, old(self).pos as int) {
                Ok(astp) => r is Ok && r->Ok_0 == astp.0 && final(self).pos as int == astp.1,
                Err(ep) => r is Err && r->Err_0.0@ == ep.0 && r->Err_0.1 as int == ep.1,
            },
        decreases old(self).s@.len() - old(self).pos, 0int,
    {
        let ghost s0 = self.s@;
        let ghost pos0 = self.pos as int;
        if self.pos >= self.s.len() {
            return Err((String::from_str("Missing atom"), self.pos));
        }
        let c = self.s[self.pos];
        if c == '(' {
            let i = self.pos;
            self.pos = self.pos + 1;
            proof {
                lemma_regex_props(s0, pos0 + 1);
            }
            let el = match self.parse_regex() {
                Ok(a) => a,
                Err(e) => {
                    return Err(e);
                },
            };
            match self.expect(')') {
                Ok(_) => Ok(el),
                Err(_) => Err((String::from_str("Unmatched ("), i)),
            }
        } else if c == '\\' {
            if self.pos + 1 < self.s.len() {
                let lit = self.s[self.pos + 1];
                self.pos = self.pos + 2;
                Ok(AST::Letter(lit))
            } else {
                let at = self.pos + 1;
                self.pos = self.s.len();
                Err((String::from_str("Missing atom"), at))
            }
        } else {
            self.pos = self.pos + 1;
            Ok(AST::Letter(c))
        }
    }
}

impl core::str::FromStr for AST {
    type Err = ParseError;

    /// Parses a pattern string, as [`Pass::parse`] does.
    fn from_str(s: &str) -> Result<AST, ParseError> {
        Pass::parse(s)
    }
}

} // verus!
