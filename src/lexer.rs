use vstd::prelude::*;

verus! {

/// A lexical token of lambda-calculus source text.
#[derive(Debug, PartialEq, Eq)]
pub enum Token {
    LParen,
    RParen,
    Lambda,
    Dot,
    Identifier(String),
    Eof,
}

/// The mathematical value of a token: identifiers carry their characters.
pub enum TokenView {
    LParen,
    RParen,
    Lambda,
    Dot,
    Ident(Seq<char>),
    Eof,
}

impl View for Token {
    type V = TokenView;

    open spec fn view(&self) -> TokenView {
        match self {
            Token::LParen => TokenView::LParen,
            Token::RParen => TokenView::RParen,
            Token::Lambda => TokenView::Lambda,
            Token::Dot => TokenView::Dot,
            Token::Identifier(s) => TokenView::Ident(s@),
            Token::Eof => TokenView::Eof,
        }
    }
}

/// What `char::is_alphanumeric` answers for a character outside ASCII.
pub uninterp spec fn unicode_alphanumeric(c: char) -> bool;

/// Relies on `char::is_alphanumeric`: whether `c` has the Unicode `Alphabetic`
/// property or a numeric general category.
#[verifier::external_body]
fn is_unicode_alphanumeric(c: char) -> (r: bool)
    ensures
        r == unicode_alphanumeric(c),
{
    c.is_alphanumeric()
}

/// Relies on `String::push`: appends `c` to the end of `s`.
#[verifier::external_body]
fn push_char(s: &mut String, c: char)
    ensures
        final(s)@ == old(s)@.push(c),
{
    s.push(c);
}

pub open spec fn is_ascii_alphanumeric(c: char) -> bool {
    ('a' <= c && c <= 'z') || ('A' <= c && c <= 'Z') || ('0' <= c && c <= '9')
}

/// Alphanumeric in the Unicode sense; on ASCII these are exactly letters and digits.
pub open spec fn alphanumeric(c: char) -> bool {
    if (c as u32) < 128 {
        is_ascii_alphanumeric(c)
    } else {
        unicode_alphanumeric(c)
    }
}

/// A character that starts an identifier (once the punctuation rules did not apply).
pub open spec fn ident_start(c: char) -> bool {
    alphanumeric(c) || c == '_'
}

/// A character that extends an identifier already begun. An underscore can
/// begin an identifier but does not extend one, and the binder glyph, though a
/// letter, always ends one.
pub open spec fn ident_continue(c: char) -> bool {
    alphanumeric(c) && c != 'λ'
}

/// Characters that form a token of their own.
pub open spec fn is_punctuation(c: char) -> bool {
    c == '(' || c == ')' || c == 'λ' || c == '\\' || c == '.' || c == '\0'
}

/// The number of leading characters of `s` that extend an identifier.
pub open spec fn continue_run(s: Seq<char>) -> nat
    decreases s.len(),
{
    if s.len() > 0 && ident_continue(s[0]) {
        1 + continue_run(s.drop_first())
    } else {
        0
    }
}

pub proof fn lemma_continue_run_bound(s: Seq<char>)
    ensures
        continue_run(s) <= s.len(),
        forall|k: int| 0 <= k < continue_run(s) ==> ident_continue(#[trigger] s[k]),
        continue_run(s) < s.len() ==> !ident_continue(s[continue_run(s) as int]),
    decreases s.len(),
{
    if s.len() > 0 && ident_continue(s[0]) {
        lemma_continue_run_bound(s.drop_first());
        assert forall|k: int| 0 <= k < continue_run(s) implies ident_continue(#[trigger] s[k]) by {
            if k > 0 {
                assert(s[k] == s.drop_first()[k - 1]);
            }
        }
    }
}

/// The length of the identifier at the front of `s`, whose first character starts one.
pub open spec fn ident_len(s: Seq<char>) -> nat {
    1 + continue_run(s.drop_first())
}

/// The token that a single punctuation character forms.
pub open spec fn punctuation_token(c: char) -> TokenView {
    if c == '(' {
        TokenView::LParen
    } else if c == ')' {
        TokenView::RParen
    } else if c == '.' {
        TokenView::Dot
    } else if c == '\0' {
        TokenView::Eof
    } else {
        TokenView::Lambda
    }
}

/// The whole token sequence of a text: punctuation characters are tokens of their
/// own, identifiers are read greedily, and every other character is skipped.
pub open spec fn lex(s: Seq<char>) -> Seq<TokenView>
    decreases s.len(),
{
    if s.len() == 0 {
        seq![]
    } else if is_punctuation(s[0]) {
        seq![punctuation_token(s[0])] + lex(s.drop_first())
    } else if ident_start(s[0]) {
        let n = ident_len(s);
        proof {
            lemma_continue_run_bound(s.drop_first());
        }
        seq![TokenView::Ident(s.take(n as int))] + lex(s.skip(n as int))
    } else {
        lex(s.drop_first())
    }
}

/// A pull-based lexer over a text: each call of `next` yields the next token,
/// reading no further than the token's end.
pub struct Lexer {
    chars: Vec<char>,
    pos: usize,
}

impl View for Lexer {
    /// The tokens not yet handed out.
    type V = Seq<TokenView>;

    closed spec fn view(&self) -> Seq<TokenView> {
        lex(self.chars@.skip(self.pos as int))
    }
}

impl Lexer {
    pub closed spec fn wf(&self) -> bool {
        &&& self.pos <= self.chars@.len()
        &&& self.chars@.len() <= isize::MAX
    }

    pub fn new(code: &str) -> (r: Lexer)
        requires
            code@.len() <= isize::MAX,
        ensures
            r.wf(),
            r@ == lex(code@),
            r@.len() <= isize::MAX,
    {
        let mut chars: Vec<char> = Vec::new();
        for c in it: code.chars()
            invariant
                it.seq() == code@,
                chars@ == it.seq().take(it.index() as int),
        {
            chars.push(c);
            assert(chars@ =~= it.seq().take(it.index() + 1));
        }
        assert(chars@ =~= code@.take(code@.len() as int));
        assert(chars@ =~= code@);
        assert(chars@.skip(0) =~= chars@);
        proof {
            lemma_lex_len(code@);
        }
        Lexer { chars, pos: 0 }
    }

    fn is_alphanumeric(c: char) -> (r: bool)
        ensures
            r == alphanumeric(c),
    {
        if (c as u32) < 128 {
            ('a' <= c && c <= 'z') || ('A' <= c && c <= 'Z') || ('0' <= c && c <= '9')
        } else {
            is_unicode_alphanumeric(c)
        }
    }

    /// Hands out the next token, or `None` once the text is exhausted.
    pub fn next(&mut self) -> (r: Option<Token>)
        requires
            old(self).wf(),
        ensures
            final(self).wf(),
            old(self)@.len() == 0 ==> r is None && final(self)@ == old(self)@,
            old(self)@.len() > 0 ==> r is Some && r->Some_0@ == old(self)@[0] && final(self)@
                == old(self)@.drop_first(),
    {
        let ghost s = self.chars@;
        let len = self.chars.len();
        while self.pos < len
            invariant
                self.wf(),
                self.chars@ == s,
                len == s.len(),
                self@ == old(self)@,
            decreases len - self.pos,
        {
            let c = self.chars[self.pos];
            let ghost rest = s.skip(self.pos as int);
            assert(rest[0] == c);
            assert(rest.drop_first() =~= s.skip(self.pos + 1));
            self.pos += 1;
            if c == '(' {
                return Some(Token::LParen);
            } else if c == ')' {
                return Some(Token::RParen);
            } else if c == 'λ' || c == '\\' {
                return Some(Token::Lambda);
            } else if c == '.' {
                return Some(Token::Dot);
            } else if c == '\0' {
                return Some(Token::Eof);
            } else if c == '_' || Self::is_alphanumeric(c) {
                let start = self.pos - 1;
                while self.pos < len && self.continues_identifier()
                    invariant
                        self.wf(),
                        self.chars@ == s,
                        len == s.len(),
                        start < self.pos <= len,
                        forall|k: int| start < k < self.pos ==> ident_continue(#[trigger] s[k]),
                    decreases len - self.pos,
                {
                    self.pos += 1;
                }
                proof {
                    lemma_continue_run_bound(rest.drop_first());
                    let m = (self.pos - start - 1) as int;
                    assert(forall|k: int| 0 <= k < m ==> rest.drop_first()[k] == s[start + 1 + k]);
                    lemma_continue_run_exact(rest.drop_first(), m);
                    assert(s.skip(self.pos as int) =~= rest.skip(ident_len(rest) as int));
                    assert(s.subrange(start as int, self.pos as int) =~= rest.take(
                        ident_len(rest) as int,
                    ));
                }
                return Some(Token::Identifier(self.text_between(start, self.pos)));
            }
        }
        assert(s.skip(self.pos as int) =~= Seq::<char>::empty());
        None
    }

    fn text_between(&self, start: usize, end: usize) -> (r: String)
        requires
            self.wf(),
            start <= end <= self.chars@.len(),
        ensures
            r@ == self.chars@.subrange(start as int, end as int),
    {
        let mut r = String::new();
        let mut i = start;
        while i < end
            invariant
                self.wf(),
                start <= i <= end <= self.chars@.len(),
                r@ == self.chars@.subrange(start as int, i as int),
            decreases end - i,
        {
            push_char(&mut r, self.chars[i]);
            i += 1;
            assert(r@ =~= self.chars@.subrange(start as int, i as int));
        }
        r
    }

    fn continues_identifier(&self) -> (r: bool)
        requires
            self.wf(),
            self.pos < self.chars@.len(),
        ensures
            r == ident_continue(self.chars@[self.pos as int]),
    {
        let c = self.chars[self.pos];
        c != 'λ' && Self::is_alphanumeric(c)
    }
}

/// A run of identifier characters that stops at `m` has length `m`.
pub proof fn lemma_continue_run_exact(s: Seq<char>, m: int)
    requires
        0 <= m <= s.len(),
        forall|k: int| 0 <= k < m ==> ident_continue(#[trigger] s[k]),
        m == s.len() || !ident_continue(s[m]),
    ensures
        continue_run(s) == m,
    decreases m,
{
    if m > 0 {
        assert forall|k: int| 0 <= k < m - 1 implies ident_continue(#[trigger] s.drop_first()[k]) by {
            assert(s.drop_first()[k] == s[k + 1]);
        }
        lemma_continue_run_exact(s.drop_first(), m - 1);
    }
}

pub proof fn lemma_lex_len(s: Seq<char>)
    ensures
        lex(s).len() <= s.len(),
    decreases s.len(),
{
    if s.len() > 0 {
        if is_punctuation(s[0]) {
            lemma_lex_len(s.drop_first());
        } else if ident_start(s[0]) {
            lemma_continue_run_bound(s.drop_first());
            lemma_lex_len(s.skip(ident_len(s) as int));
        } else {
            lemma_lex_len(s.drop_first());
        }
    }
}

} // verus!
