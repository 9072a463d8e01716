use vstd::prelude::*;

use crate::lexer::{
    continue_run, ident_continue, ident_len, ident_start, is_punctuation, lemma_continue_run_bound,
    lemma_continue_run_exact, lex, punctuation_token, TokenView,
};
use crate::parser::{
    parse_abstraction_spec, parse_rest_spec, parse_term_spec, parse_text, ParseErr,
};
use crate::term::{render, Term};

verus! {

/// A name as the lexer reads it: one identifier and nothing else.
pub open spec fn valid_name(x: Seq<char>) -> bool {
    &&& x.len() > 0
    &&& !is_punctuation(x[0])
    &&& ident_start(x[0])
    &&& forall|k: int| 1 <= k < x.len() ==> ident_continue(#[trigger] x[k])
}

/// Every name in the term is a valid name.
pub open spec fn well_named(t: Term) -> bool
    decreases t,
{
    match t {
        Term::Var(x) => valid_name(x),
        Term::App(f, a) => well_named(*f) && well_named(*a),
        Term::Abs(x, b) => valid_name(x) && well_named(*b),
    }
}

/// Every identifier token holds a valid name.
pub open spec fn idents_valid(toks: Seq<TokenView>) -> bool {
    forall|i: int| 0 <= i < toks.len() ==> (#[trigger] toks[i] matches TokenView::Ident(x) ==> valid_name(x))
}

/// The tokens of the canonical text of a term.
pub open spec fn term_tokens(t: Term) -> Seq<TokenView>
    decreases t,
{
    match t {
        Term::Var(x) => seq![TokenView::Ident(x)],
        Term::App(f, a) => {
            let ft = if *f is Abs {
                seq![TokenView::LParen] + term_tokens(*f) + seq![TokenView::RParen]
            } else {
                term_tokens(*f)
            };
            let at = if *a is Var {
                term_tokens(*a)
            } else {
                seq![TokenView::LParen] + term_tokens(*a) + seq![TokenView::RParen]
            };
            ft + at
        },
        Term::Abs(x, b) => seq![TokenView::Lambda, TokenView::Ident(x), TokenView::Dot] + term_tokens(
            *b,
        ),
    }
}

/// The tokens of a term in argument position.
pub open spec fn argument_tokens(a: Term) -> Seq<TokenView> {
    if a is Var {
        term_tokens(a)
    } else {
        seq![TokenView::LParen] + term_tokens(a) + seq![TokenView::RParen]
    }
}

proof fn lemma_continue_run_concat(a: Seq<char>, b: Seq<char>)
    requires
        b.len() == 0 || !ident_continue(b[0]),
    ensures
        continue_run(a + b) == continue_run(a),
    decreases a.len(),
{
    if a.len() == 0 {
        assert(a + b =~= b);
    } else {
        assert((a + b).drop_first() =~= a.drop_first() + b);
        assert((a + b)[0] == a[0]);
        lemma_continue_run_concat(a.drop_first(), b);
    }
}

/// Text that is followed by a character that cannot extend an identifier lexes
/// on its own.
proof fn lemma_lex_concat(a: Seq<char>, b: Seq<char>)
    requires
        b.len() == 0 || !ident_continue(b[0]),
    ensures
        lex(a + b) == lex(a) + lex(b),
    decreases a.len(),
{
    let s = a + b;
    if a.len() == 0 {
        assert(s =~= b);
        assert(lex(a) =~= seq![]);
        assert(lex(a) + lex(b) =~= lex(b));
    } else {
        assert(s[0] == a[0]);
        assert(s.drop_first() =~= a.drop_first() + b);
        if is_punctuation(a[0]) {
            lemma_lex_concat(a.drop_first(), b);
            assert(lex(s) =~= lex(a) + lex(b));
        } else if ident_start(a[0]) {
            lemma_continue_run_concat(a.drop_first(), b);
            lemma_continue_run_bound(a.drop_first());
            let n = ident_len(a) as int;
            assert(ident_len(s) == n);
            assert(s.take(n) =~= a.take(n));
            assert(s.skip(n) =~= a.skip(n) + b);
            lemma_lex_concat(a.skip(n), b);
            assert(lex(s) =~= lex(a) + lex(b));
        } else {
            lemma_lex_concat(a.drop_first(), b);
        }
    }
}

proof fn lemma_lex_cons(c: char, b: Seq<char>)
    requires
        is_punctuation(c) || c == ' ',
    ensures
        is_punctuation(c) ==> lex(seq![c] + b) == seq![punctuation_token(c)] + lex(b),
        c == ' ' ==> lex(seq![c] + b) == lex(b),
{
    let s = seq![c] + b;
    assert(s[0] == c);
    assert(s.drop_first() =~= b);
}

proof fn lemma_lex_name(x: Seq<char>)
    requires
        valid_name(x),
    ensures
        lex(x) == seq![TokenView::Ident(x)],
{
    let m = x.len() - 1;
    assert forall|k: int| 0 <= k < m implies ident_continue(#[trigger] x.drop_first()[k]) by {
        assert(x.drop_first()[k] == x[k + 1]);
    }
    lemma_continue_run_exact(x.drop_first(), m);
    assert(x.take(x.len() as int) =~= x);
    assert(x.skip(x.len() as int) =~= Seq::<char>::empty());
    assert(lex(Seq::<char>::empty()) =~= Seq::<TokenView>::empty());
    assert(ident_len(x) == x.len());
    assert(lex(x) =~= seq![TokenView::Ident(x)]);
}

proof fn lemma_lex_parenthesized(r: Seq<char>, t: Seq<TokenView>)
    requires
        lex(r) == t,
    ensures
        lex(seq!['('] + r + seq![')']) == seq![TokenView::LParen] + t + seq![TokenView::RParen],
{
    assert(seq!['('] + r + seq![')'] =~= seq!['('] + (r + seq![')']));
    lemma_lex_cons('(', r + seq![')']);
    lemma_lex_concat(r, seq![')']);
    lemma_lex_cons(')', Seq::<char>::empty());
    assert(seq![')'] =~= seq![')'] + Seq::<char>::empty());
    assert(lex(Seq::<char>::empty()) =~= Seq::<TokenView>::empty());
    assert(seq![TokenView::LParen] + (t + seq![TokenView::RParen]) =~= seq![TokenView::LParen] + t
        + seq![TokenView::RParen]);
}

/// The canonical text of a well-named term lexes to the term's tokens.
pub proof fn lemma_lex_render(t: Term)
    requires
        well_named(t),
    ensures
        lex(render(t)) == term_tokens(t),
    decreases t,
{
    match t {
        Term::Var(x) => {
            lemma_lex_name(x);
        },
        Term::Abs(x, b) => {
            let rb = render(*b);
            lemma_lex_render(*b);
            let rest = seq!['.'] + (seq![' '] + rb);
            assert(render(t) =~= seq!['λ'] + (x + rest));
            lemma_lex_cons('λ', x + rest);
            lemma_lex_concat(x, rest);
            lemma_lex_name(x);
            lemma_lex_cons('.', seq![' '] + rb);
            lemma_lex_cons(' ', rb);
            assert(lex(render(t)) =~= term_tokens(t));
        },
        Term::App(f, a) => {
            lemma_lex_render(*f);
            lemma_lex_render(*a);
            let fs = if *f is Abs {
                seq!['('] + render(*f) + seq![')']
            } else {
                render(*f)
            };
            let args = if *a is Var {
                render(*a)
            } else {
                seq!['('] + render(*a) + seq![')']
            };
            if *f is Abs {
                lemma_lex_parenthesized(render(*f), term_tokens(*f));
            }
            if !(*a is Var) {
                lemma_lex_parenthesized(render(*a), term_tokens(*a));
            }
            assert(render(t) =~= fs + (seq![' '] + args));
            lemma_lex_concat(fs, seq![' '] + args);
            lemma_lex_cons(' ', args);
        },
    }
}

/// What may follow a term in canonical text: nothing, or a closing parenthesis.
pub open spec fn closes(k: Seq<TokenView>) -> bool {
    k.len() == 0 || k[0] == TokenView::RParen
}

/// After a term and a closer `k`, where the parse stands.
pub open spec fn after_close(k: Seq<TokenView>, d: int) -> (Seq<TokenView>, int) {
    if k.len() == 0 {
        (k, d)
    } else {
        (k.drop_first(), d - 1)
    }
}

/// A term's tokens followed by a closer parse back to the term.
proof fn lemma_parse_closed(t: Term, k: Seq<TokenView>, d: int)
    requires
        closes(k),
    ensures
        parse_term_spec(term_tokens(t) + k, d, d) == Ok::<_, ParseErr>(
            (t, after_close(k, d).0, after_close(k, d).1),
        ),
    decreases t, 1nat,
{
    let toks = term_tokens(t) + k;
    match t {
        Term::Abs(x, b) => {
            lemma_parse_closed(*b, k, d);
            let rest1 = toks.drop_first();
            assert(toks[0] == TokenView::Lambda);
            assert(rest1[0] == TokenView::Ident(x));
            assert(rest1[1] == TokenView::Dot);
            assert(rest1.skip(2) =~= term_tokens(*b) + k);
            assert(parse_abstraction_spec(rest1, d, d) == Ok::<_, ParseErr>(
                (t, after_close(k, d).0, after_close(k, d).1),
            ));
            let k2 = after_close(k, d).0;
            let d2 = after_close(k, d).1;
            if k.len() == 0 {
                assert(k2.len() == 0);
            } else {
                assert(d2 < d);
            }
            assert(parse_rest_spec(k2, d2, d, t) == Ok::<_, ParseErr>((t, k2, d2)));
        },
        _ => {
            lemma_parse_head(t, k, d);
            if k.len() > 0 {
                assert(parse_rest_spec(k.drop_first(), d - 1, d, t) == Ok::<_, ParseErr>(
                    (t, k.drop_first(), d - 1),
                ));
            }
        },
    }
}

/// A term that is no abstraction parses from its tokens and leaves the
/// application loop with the term in hand.
proof fn lemma_parse_head(t: Term, rest: Seq<TokenView>, d: int)
    requires
        !(t is Abs),
    ensures
        parse_term_spec(term_tokens(t) + rest, d, d) == parse_rest_spec(rest, d, d, t),
    decreases t, 0nat,
{
    let toks = term_tokens(t) + rest;
    match t {
        Term::Var(x) => {
            assert(toks[0] == TokenView::Ident(x));
            assert(toks.drop_first() =~= rest);
        },
        Term::App(f, a) => {
            let at = argument_tokens(*a);
            if *f is Abs {
                let inner = seq![TokenView::RParen] + (at + rest);
                assert(toks =~= seq![TokenView::LParen] + (term_tokens(*f) + inner));
                assert(toks[0] == TokenView::LParen);
                assert(toks.drop_first() =~= term_tokens(*f) + inner);
                lemma_parse_closed(*f, inner, d + 1);
                assert(inner.drop_first() =~= at + rest);
            } else {
                assert(toks =~= term_tokens(*f) + (at + rest));
                lemma_parse_head(*f, at + rest, d);
            }
            lemma_parse_argument(*f, *a, rest, d, d);
        },
        Term::Abs(_, _) => {},
    }
}

/// The application loop folds one argument, given in its canonical tokens.
proof fn lemma_parse_argument(acc: Term, a: Term, rest: Seq<TokenView>, d: int, bound: int)
    requires
        d >= bound,
    ensures
        parse_rest_spec(argument_tokens(a) + rest, d, bound, acc) == parse_rest_spec(
            rest,
            d,
            bound,
            Term::App(Box::new(acc), Box::new(a)),
        ),
    decreases a, 2nat,
{
    let toks = argument_tokens(a) + rest;
    match a {
        Term::Var(x) => {
            assert(toks[0] == TokenView::Ident(x));
            assert(toks.drop_first() =~= rest);
        },
        _ => {
            let inner = seq![TokenView::RParen] + rest;
            assert(toks =~= seq![TokenView::LParen] + (term_tokens(a) + inner));
            assert(toks[0] == TokenView::LParen);
            assert(toks.drop_first() =~= term_tokens(a) + inner);
            lemma_parse_closed(a, inner, d + 1);
            assert(inner.drop_first() =~= rest);
        },
    }
}

/// Rendering a well-named term and parsing the text gives the term back.
pub proof fn lemma_render_parse(t: Term)
    requires
        well_named(t),
    ensures
        parse_text(render(t)) == Ok::<Term, ParseErr>(t),
{
    lemma_lex_render(t);
    lemma_parse_closed(t, seq![], 0);
    assert(term_tokens(t) + seq![] =~= term_tokens(t));
}

/// A text opened by one parenthesis that it never closes: the canonical text
/// of a well-named term behind a `(`.
pub proof fn lemma_unclosed_paren(t: Term)
    requires
        well_named(t),
    ensures
        parse_text(seq!['('] + render(t)) == Err::<Term, ParseErr>(ParseErr::UnmatchedParens(1)),
{
    lemma_lex_render(t);
    lemma_lex_cons('(', render(t));
    let toks = seq![TokenView::LParen] + term_tokens(t);
    assert(toks[0] == TokenView::LParen);
    assert(toks.drop_first() =~= term_tokens(t) + seq![]);
    lemma_parse_closed(t, seq![], 1);
    assert(parse_rest_spec(seq![], 1, 0, t) == Ok::<_, ParseErr>((t, Seq::<TokenView>::empty(), 1int)));
}

/// Wrapping the canonical text of a well-named term in parentheses keeps them
/// balanced: it parses back to the term, at depth 0.
pub proof fn lemma_parenthesized_parse(t: Term)
    requires
        well_named(t),
    ensures
        parse_text(seq!['('] + render(t) + seq![')']) == Ok::<Term, ParseErr>(t),
        parse_term_spec(lex(seq!['('] + render(t) + seq![')']), 0, 0) matches Ok((_, _, d)) && d
            == 0,
{
    lemma_lex_render(t);
    lemma_lex_parenthesized(render(t), term_tokens(t));
    let toks = seq![TokenView::LParen] + term_tokens(t) + seq![TokenView::RParen];
    assert(toks[0] == TokenView::LParen);
    assert(toks.drop_first() =~= term_tokens(t) + seq![TokenView::RParen]);
    lemma_parse_closed(t, seq![TokenView::RParen], 1);
    assert(seq![TokenView::RParen].drop_first() =~= Seq::<TokenView>::empty());
    assert(parse_rest_spec(seq![], 0, 0, t) == Ok::<_, ParseErr>((t, Seq::<TokenView>::empty(), 0int)));
}

/// A text whose first character is a closing parenthesis is refused at once.
pub proof fn lemma_leading_close_paren(s: Seq<char>)
    requires
        s.len() > 0,
        s[0] == ')',
    ensures
        parse_text(s) == Err::<Term, ParseErr>(ParseErr::Unexpected(TokenView::RParen)),
{
    assert(lex(s)[0] == TokenView::RParen);
}

/// Every identifier the lexer hands out is a valid name.
pub proof fn lemma_lex_idents_valid(s: Seq<char>)
    ensures
        idents_valid(lex(s)),
    decreases s.len(),
{
    if s.len() > 0 {
        if is_punctuation(s[0]) {
            lemma_lex_idents_valid(s.drop_first());
            let l = lex(s);
            assert forall|i: int| 0 <= i < l.len() implies (#[trigger] l[i] matches TokenView::Ident(
                x,
            ) ==> valid_name(x)) by {
                if i > 0 {
                    assert(l[i] == lex(s.drop_first())[i - 1]);
                }
            }
        } else if ident_start(s[0]) {
            lemma_continue_run_bound(s.drop_first());
            let n = ident_len(s) as int;
            lemma_lex_idents_valid(s.skip(n));
            let x = s.take(n);
            assert forall|k: int| 1 <= k < x.len() implies ident_continue(#[trigger] x[k]) by {
                assert(x[k] == s.drop_first()[k - 1]);
            }
            assert(valid_name(x));
            let l = lex(s);
            assert forall|i: int| 0 <= i < l.len() implies (#[trigger] l[i] matches TokenView::Ident(
                y,
            ) ==> valid_name(y)) by {
                if i > 0 {
                    assert(l[i] == lex(s.skip(n))[i - 1]);
                }
            }
        } else {
            lemma_lex_idents_valid(s.drop_first());
        }
    }
}

proof fn lemma_idents_valid_drop(toks: Seq<TokenView>, n: int)
    requires
        idents_valid(toks),
        0 <= n <= toks.len(),
    ensures
        idents_valid(toks.skip(n)),
{
    assert forall|i: int| 0 <= i < toks.skip(n).len() implies (#[trigger] toks.skip(n)[i] matches TokenView::Ident(
        x,
    ) ==> valid_name(x)) by {
        assert(toks.skip(n)[i] == toks[i + n]);
    }
}

/// A term parsed from tokens with valid names is well named, and what is left
/// still holds valid names.
proof fn lemma_parse_term_names(toks: Seq<TokenView>, d: int, bound: int)
    requires
        idents_valid(toks),
    ensures
        parse_term_spec(toks, d, bound) matches Ok((t, rest, _)) ==> well_named(t) && idents_valid(
            rest,
        ),
    decreases toks.len(), 2nat,
{
    if d >= bound && toks.len() > 0 {
        let rest = toks.drop_first();
        lemma_idents_valid_drop(toks, 1);
        assert(rest =~= toks.skip(1));
        match toks[0] {
            TokenView::Lambda => lemma_parse_abstraction_names(rest, d, d),
            TokenView::LParen => lemma_parse_term_names(rest, d + 1, d + 1),
            _ => {},
        }
        let head: Result<(Term, Seq<TokenView>, int), ParseErr> = match toks[0] {
            TokenView::Lambda => parse_abstraction_spec(rest, d, d),
            TokenView::LParen => parse_term_spec(rest, d + 1, d + 1),
            TokenView::Ident(x) => Ok((Term::Var(x), rest, d)),
            TokenView::Eof => Err(ParseErr::PrematureEnd),
            t => Err(ParseErr::Unexpected(t)),
        };
        if let Ok((h, after, d2)) = head {
            if after.len() < toks.len() {
                lemma_parse_rest_names(after, d2, bound, h);
            }
        }
    }
}

proof fn lemma_parse_rest_names(toks: Seq<TokenView>, d: int, bound: int, acc: Term)
    requires
        idents_valid(toks),
        well_named(acc),
    ensures
        parse_rest_spec(toks, d, bound, acc) matches Ok((t, rest, _)) ==> well_named(t)
            && idents_valid(rest),
    decreases toks.len(), 1nat,
{
    if d >= bound && toks.len() > 0 {
        let rest = toks.drop_first();
        lemma_idents_valid_drop(toks, 1);
        assert(rest =~= toks.skip(1));
        match toks[0] {
            TokenView::LParen => {
                lemma_parse_term_names(rest, d + 1, d + 1);
                if let Ok((a, after, d2)) = parse_term_spec(rest, d + 1, d + 1) {
                    if after.len() < toks.len() {
                        lemma_parse_rest_names(after, d2, bound, Term::App(Box::new(acc), Box::new(a)));
                    }
                }
            },
            TokenView::RParen => lemma_parse_rest_names(rest, d - 1, bound, acc),
            TokenView::Lambda => {
                lemma_parse_abstraction_names(rest, d, d);
                if let Ok((a, after, d2)) = parse_abstraction_spec(rest, d, d) {
                    if after.len() < toks.len() {
                        lemma_parse_rest_names(after, d2, bound, Term::App(Box::new(acc), Box::new(a)));
                    }
                }
            },
            TokenView::Ident(x) => {
                assert(toks[0] matches TokenView::Ident(y) ==> valid_name(y));
                assert(well_named(Term::Var(x)));
                assert(well_named(Term::App(Box::new(acc), Box::new(Term::Var(x)))));
                lemma_parse_rest_names(rest, d, bound, Term::App(Box::new(acc), Box::new(Term::Var(x))));
            },
            TokenView::Eof => lemma_parse_rest_names(rest, d, bound, acc),
            TokenView::Dot => {},
        }
    }
}

proof fn lemma_parse_abstraction_names(toks: Seq<TokenView>, d: int, bound: int)
    requires
        idents_valid(toks),
    ensures
        parse_abstraction_spec(toks, d, bound) matches Ok((t, rest, _)) ==> well_named(t)
            && idents_valid(rest),
    decreases toks.len(), 0nat,
{
    if d >= bound && toks.len() > 1 {
        if let TokenView::Ident(x) = toks[0] {
            assert(toks[0] matches TokenView::Ident(y) ==> valid_name(y));
            lemma_idents_valid_drop(toks, 2);
            lemma_parse_term_names(toks.skip(2), d, d);
        }
    }
}

/// Every term that parses from a text is well named.
pub proof fn lemma_parsed_well_named(s: Seq<char>)
    requires
        parse_text(s) is Ok,
    ensures
        well_named(parse_text(s)->Ok_0),
{
    lemma_lex_idents_valid(s);
    lemma_parse_term_names(lex(s), 0, 0);
}

/// Rendering a parsed term and parsing the text again gives the same term.
pub proof fn lemma_round_trip(s: Seq<char>)
    requires
        parse_text(s) is Ok,
    ensures
        parse_text(render(parse_text(s)->Ok_0)) == parse_text(s),
{
    lemma_parsed_well_named(s);
    lemma_render_parse(parse_text(s)->Ok_0);
}

} // verus!
