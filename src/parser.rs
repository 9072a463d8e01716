use vstd::prelude::*;

use crate::lexer::{Lexer, Token, TokenView};
use crate::term::{LambdaTerm, Term};

verus! {

/// Why a text does not parse.
#[derive(Debug, PartialEq, Eq)]
pub enum ParserError {
    PrematureEnd,
    ParenOutOfBounds { paren_index_bound: isize, paren_index: isize },
    ExpectedIdentifierGot(Token),
    ExpectedGot(Token, Token),
    Unexpected(Token),
    UnmatchedParens(isize),
}

/// The mathematical value of a parse error.
pub enum ParseErr {
    PrematureEnd,
    ParenOutOfBounds { bound: int, actual: int },
    ExpectedIdentifierGot(TokenView),
    ExpectedGot(TokenView, TokenView),
    Unexpected(TokenView),
    UnmatchedParens(int),
}

impl View for ParserError {
    type V = ParseErr;

    open spec fn view(&self) -> ParseErr {
        match self {
            ParserError::PrematureEnd => ParseErr::PrematureEnd,
            ParserError::ParenOutOfBounds { paren_index_bound, paren_index } => {
                ParseErr::ParenOutOfBounds { bound: *paren_index_bound as int, actual: *paren_index as int }
            },
            ParserError::ExpectedIdentifierGot(t) => ParseErr::ExpectedIdentifierGot(t@),
            ParserError::ExpectedGot(e, g) => ParseErr::ExpectedGot(e@, g@),
            ParserError::Unexpected(t) => ParseErr::Unexpected(t@),
            ParserError::UnmatchedParens(n) => ParseErr::UnmatchedParens(*n as int),
        }
    }
}

/// The outcome of parsing a prefix of a token sequence: the term, the tokens
/// left over, and the parenthesis depth reached.
pub type Step = Result<(Term, Seq<TokenView>, int), ParseErr>;

/// Parses one term at depth `d`, folding juxtaposed terms onto it while the
/// depth stays at or above `bound`.
pub open spec fn parse_term_spec(toks: Seq<TokenView>, d: int, bound: int) -> Step
    decreases toks.len(), 2nat,
{
    if d < bound {
        Err(ParseErr::ParenOutOfBounds { bound, actual: d })
    } else if toks.len() == 0 {
        Err(ParseErr::PrematureEnd)
    } else {
        let rest = toks.drop_first();
        let head: Step = match toks[0] {
            TokenView::Lambda => parse_abstraction_spec(rest, d, d),
            TokenView::LParen => parse_term_spec(rest, d + 1, d + 1),
            TokenView::Ident(x) => Ok((Term::Var(x), rest, d)),
            TokenView::Eof => Err(ParseErr::PrematureEnd),
            t => Err(ParseErr::Unexpected(t)),
        };
        match head {
            Ok((h, after, d2)) => {
                // every successful step consumes a token
                if after.len() < toks.len() {
                    parse_rest_spec(after, d2, bound, h)
                } else {
                    Err(ParseErr::PrematureEnd)
                }
            },
            Err(e) => Err(e),
        }
    }
}

/// Applies `acc` to the juxtaposed terms that follow, left to right, until the
/// depth drops below `bound` or the tokens run out.
pub open spec fn parse_rest_spec(toks: Seq<TokenView>, d: int, bound: int, acc: Term) -> Step
    decreases toks.len(), 1nat,
{
    if d < bound || toks.len() == 0 {
        Ok((acc, toks, d))
    } else {
        let rest = toks.drop_first();
        match toks[0] {
            TokenView::LParen => match parse_term_spec(rest, d + 1, d + 1) {
                Ok((a, after, d2)) => {
                    if after.len() < toks.len() {
                        parse_rest_spec(after, d2, bound, Term::App(Box::new(acc), Box::new(a)))
                    } else {
                        Err(ParseErr::PrematureEnd)
                    }
                },
                Err(e) => Err(e),
            },
            TokenView::RParen => parse_rest_spec(rest, d - 1, bound, acc),
            TokenView::Lambda => match parse_abstraction_spec(rest, d, d) {
                Ok((a, after, d2)) => {
                    if after.len() < toks.len() {
                        parse_rest_spec(after, d2, bound, Term::App(Box::new(acc), Box::new(a)))
                    } else {
                        Err(ParseErr::PrematureEnd)
                    }
                },
                Err(e) => Err(e),
            },
            TokenView::Ident(x) => parse_rest_spec(
                rest,
                d,
                bound,
                Term::App(Box::new(acc), Box::new(Term::Var(x))),
            ),
            TokenView::Eof => parse_rest_spec(rest, d, bound, acc),
            TokenView::Dot => Err(ParseErr::Unexpected(TokenView::Dot)),
        }
    }
}

/// Parses what follows a lambda marker: a name, a dot, and the body, which
/// extends as far right as the depth allows.
pub open spec fn parse_abstraction_spec(toks: Seq<TokenView>, d: int, bound: int) -> Step
    decreases toks.len(), 0nat,
{
    if d < bound {
        Err(ParseErr::ParenOutOfBounds { bound, actual: d })
    } else if toks.len() == 0 {
        Err(ParseErr::PrematureEnd)
    } else {
        match toks[0] {
            TokenView::Ident(x) => {
                if toks.len() == 1 {
                    Err(ParseErr::PrematureEnd)
                } else if toks[1] is Dot {
                    match parse_term_spec(toks.skip(2), d, d) {
                        Ok((b, after, d2)) => Ok((Term::Abs(x, Box::new(b)), after, d2)),
                        Err(e) => Err(e),
                    }
                } else {
                    Err(ParseErr::ExpectedGot(TokenView::Dot, toks[1]))
                }
            },
            t => Err(ParseErr::ExpectedIdentifierGot(t)),
        }
    }
}

/// A whole program starting at depth `d`: one term, after which the depth must be 0.
pub open spec fn parse_program(toks: Seq<TokenView>, d: int) -> Result<Term, ParseErr> {
    match parse_term_spec(toks, d, d) {
        Ok((t, _, d2)) => {
            if d2 != 0 {
                Err(ParseErr::UnmatchedParens(d2))
            } else {
                Ok(t)
            }
        },
        Err(e) => Err(e),
    }
}

/// The parse of a whole text.
pub open spec fn parse_text(s: Seq<char>) -> Result<Term, ParseErr> {
    parse_program(crate::lexer::lex(s), 0)
}

pub open spec fn result_view(r: Result<LambdaTerm, ParserError>) -> Result<Term, ParseErr> {
    match r {
        Ok(t) => Ok(t@),
        Err(e) => Err(e@),
    }
}

/// A recursive-descent parser that pulls tokens from a lexer and tracks the
/// number of open parentheses.
pub struct Parser {
    lexer: Lexer,
    paren_index: isize,
}

impl Parser {
    /// The tokens not yet read.
    pub closed spec fn tokens(&self) -> Seq<TokenView> {
        self.lexer@
    }

    /// The number of parentheses open.
    pub closed spec fn depth(&self) -> int {
        self.paren_index as int
    }

    pub closed spec fn wf(&self) -> bool {
        &&& self.lexer.wf()
        &&& self.lexer@.len() + (if self.paren_index >= 0 {
            self.paren_index as int
        } else {
            -self.paren_index
        }) <= isize::MAX
    }

    /// The exec outcome `r`, with the parser left as `after`, is the spec outcome `s`.
    pub open spec fn agrees(r: &Result<LambdaTerm, ParserError>, after: &Parser, s: Step) -> bool {
        match s {
            Ok((t, rest, d)) => r is Ok && r->Ok_0@ == t && after.tokens() == rest && after.depth()
                == d,
            Err(e) => r is Err && r->Err_0@ == e,
        }
    }

    pub fn new(lexer: Lexer) -> (r: Parser)
        requires
            lexer.wf(),
            lexer@.len() <= isize::MAX,
        ensures
            r.wf(),
            r.tokens() == lexer@,
            r.depth() == 0,
    {
        Parser { lexer, paren_index: 0 }
    }

    /// Parses one term from the tokens left; it succeeds only if every
    /// parenthesis opened is closed again.
    pub fn parse(&mut self) -> (r: Result<LambdaTerm, ParserError>)
        requires
            old(self).wf(),
        ensures
            final(self).wf(),
            result_view(r) == parse_program(old(self).tokens(), old(self).depth()),
            r is Ok ==> final(self).depth() == 0,
    {
        let bound = self.paren_index;
        let root = match self.parse_term(bound) {
            Ok(t) => t,
            Err(e) => return Err(e),
        };
        if self.paren_index != 0 {
            Err(ParserError::UnmatchedParens(self.paren_index))
        } else {
            Ok(root)
        }
    }

    fn next_token(&mut self) -> (r: Option<Token>)
        requires
            old(self).wf(),
        ensures
            final(self).wf(),
            final(self).depth() == old(self).depth(),
            old(self).tokens().len() == 0 ==> r is None && final(self).tokens() == old(
                self,
            ).tokens(),
            old(self).tokens().len() > 0 ==> r is Some && r->Some_0@ == old(self).tokens()[0]
                && final(self).tokens() == old(self).tokens().drop_first(),
    {
        self.lexer.next()
    }

    fn parse_term(&mut self, paren_index_bound: isize) -> (r: Result<LambdaTerm, ParserError>)
        requires
            old(self).wf(),
        ensures
            final(self).wf(),
            final(self).tokens().len() <= old(self).tokens().len(),
            Self::agrees(
                &r,
                final(self),
                parse_term_spec(old(self).tokens(), old(self).depth(), paren_index_bound as int),
            ),
        decreases old(self).tokens().len(),
    {
        let ghost toks = self.tokens();
        let ghost d0 = self.depth();
        if let Err(e) = self.check_bounds(paren_index_bound) {
            return Err(e);
        }
        let head = match self.next_token() {
            None => Err(ParserError::PrematureEnd),
            Some(token) => match token {
                Token::Lambda => {
                    let b = self.paren_index;
                    self.parse_abstraction(b)
                },
                Token::Dot => Err(ParserError::Unexpected(Token::Dot)),
                Token::RParen => Err(ParserError::Unexpected(Token::RParen)),
                Token::LParen => {
                    self.paren_index += 1;
                    let b = self.paren_index;
                    self.parse_term(b)
                },
                Token::Identifier(id) => Ok(LambdaTerm::Variable(id)),
                Token::Eof => Err(ParserError::PrematureEnd),
            },
        };
        let mut term = match head {
            Ok(t) => t,
            Err(e) => return Err(e),
        };
        while self.paren_index >= paren_index_bound
            invariant
                self.wf(),
                toks == old(self).tokens(),
                d0 == old(self).depth(),
                self.tokens().len() < toks.len(),
                parse_rest_spec(self.tokens(), self.depth(), paren_index_bound as int, term@)
                    == parse_term_spec(toks, d0, paren_index_bound as int),
            ensures
                self.wf(),
                self.tokens().len() < toks.len(),
                parse_term_spec(toks, d0, paren_index_bound as int) == Ok::<_, ParseErr>(
                    (term@, self.tokens(), self.depth()),
                ),
            decreases self.tokens().len(),
        {
            match self.next_token() {
                Some(token) => match token {
                    Token::LParen => {
                        self.paren_index += 1;
                        let b = self.paren_index;
                        let argument = match self.parse_term(b) {
                            Ok(a) => a,
                            Err(e) => return Err(e),
                        };
                        term = LambdaTerm::Application {
                            function: Box::new(term),
                            argument: Box::new(argument),
                        };
                    },
                    Token::RParen => {
                        self.paren_index -= 1;
                    },
                    Token::Lambda => {
                        let b = self.paren_index;
                        let argument = match self.parse_abstraction(b) {
                            Ok(a) => a,
                            Err(e) => return Err(e),
                        };
                        term = LambdaTerm::Application {
                            function: Box::new(term),
                            argument: Box::new(argument),
                        };
                    },
                    Token::Identifier(id) => {
                        let argument = LambdaTerm::Variable(id);
                        assert(argument@ == Term::Var(id@));
                        term = LambdaTerm::Application {
                            function: Box::new(term),
                            argument: Box::new(argument),
                        };
                    },
                    Token::Eof => {},
                    Token::Dot => {
                        return Err(ParserError::Unexpected(Token::Dot));
                    },
                },
                None => break,
            }
        }
        Ok(term)
    }

    fn parse_abstraction(&mut self, paren_index_bound: isize) -> (r: Result<
        LambdaTerm,
        ParserError,
    >)
        requires
            old(self).wf(),
        ensures
            final(self).wf(),
            final(self).tokens().len() <= old(self).tokens().len(),
            Self::agrees(
                &r,
                final(self),
                parse_abstraction_spec(
                    old(self).tokens(),
                    old(self).depth(),
                    paren_index_bound as int,
                ),
            ),
        decreases old(self).tokens().len(),
    {
        let ghost toks = self.tokens();
        if let Err(e) = self.check_bounds(paren_index_bound) {
            return Err(e);
        }
        match self.next_token() {
            Some(expected_identifier) => match expected_identifier {
                Token::Identifier(bound_variable) => match self.next_token() {
                    Some(expected_dot) => match expected_dot {
                        Token::Dot => {
                            assert(toks.skip(2) =~= toks.drop_first().drop_first());
                            let b = self.paren_index;
                            let body = match self.parse_term(b) {
                                Ok(t) => t,
                                Err(e) => return Err(e),
                            };
                            Ok(
                                LambdaTerm::Abstraction {
                                    bound_variable,
                                    return_term: Box::new(body),
                                },
                            )
                        },
                        _ => Err(ParserError::ExpectedGot(Token::Dot, expected_dot)),
                    },
                    None => Err(ParserError::PrematureEnd),
                },
                _ => Err(ParserError::ExpectedIdentifierGot(expected_identifier)),
            },
            None => Err(ParserError::PrematureEnd),
        }
    }

    fn check_bounds(&self, paren_index_bound: isize) -> (r: Result<(), ParserError>)
        ensures
            r is Err <==> self.depth() < paren_index_bound,
            r is Err ==> r->Err_0@ == (ParseErr::ParenOutOfBounds {
                bound: paren_index_bound as int,
                actual: self.depth(),
            }),
    {
        if self.paren_index < paren_index_bound {
            Err(
                ParserError::ParenOutOfBounds {
                    paren_index: self.paren_index,
                    paren_index_bound,
                },
            )
        } else {
            Ok(())
        }
    }
}

} // verus!
