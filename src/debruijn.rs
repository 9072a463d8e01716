use vstd::prelude::*;
use vstd::string::*;

use crate::term::{
    distinct_names, insert_name, insert_names, name_set, LambdaTerm, Term,
};

verus! {

/// A nameless lambda term. How a bound variable's number reads depends on the
/// convention of the wrapper that holds the term.
#[derive(Debug, PartialEq, Eq)]
pub enum DBTerm {
    Variable(usize),
    Application { function: Box<DBTerm>, argument: Box<DBTerm> },
    Abstraction(Box<DBTerm>),
    FreeVariable(String),
}

/// A nameless term whose bound variables hold the depth of their binder,
/// counted from the root (the outermost binder is 1).
#[derive(Debug, PartialEq, Eq)]
pub struct DBLevels(pub DBTerm);

/// A nameless term whose bound variables count the binders out to their own,
/// that one included (the nearest binder is 1).
#[derive(Debug, PartialEq, Eq)]
pub struct DBIndices(pub DBTerm);

/// The mathematical value of a nameless term.
pub enum DB {
    Var(int),
    App(Box<DB>, Box<DB>),
    Abs(Box<DB>),
    Free(Seq<char>),
}

impl View for DBTerm {
    type V = DB;

    open spec fn view(&self) -> DB
        decreases self,
    {
        match self {
            DBTerm::Variable(n) => DB::Var(*n as int),
            DBTerm::Application { function, argument } => DB::App(
                Box::new((**function).view()),
                Box::new((**argument).view()),
            ),
            DBTerm::Abstraction(body) => DB::Abs(Box::new((**body).view())),
            DBTerm::FreeVariable(id) => DB::Free(id@),
        }
    }
}

/// The position of the innermost binder of `x` among the binders in scope,
/// which are listed from the root outwards.
pub open spec fn innermost(scope: Seq<Seq<char>>, x: Seq<char>) -> Option<int>
    decreases scope.len(),
{
    if scope.len() == 0 {
        None
    } else if scope.last() == x {
        Some(scope.len() - 1)
    } else {
        innermost(scope.drop_last(), x)
    }
}

/// The nameless term with De Bruijn levels of `t`, under the binders of `scope`.
pub open spec fn to_levels(t: Term, scope: Seq<Seq<char>>) -> DB
    decreases t,
{
    match t {
        Term::Var(x) => match innermost(scope, x) {
            Some(k) => DB::Var(k + 1),
            None => DB::Free(x),
        },
        Term::App(f, a) => DB::App(Box::new(to_levels(*f, scope)), Box::new(to_levels(*a, scope))),
        Term::Abs(x, b) => DB::Abs(Box::new(to_levels(*b, scope.push(x)))),
    }
}

/// Renumbers every bound variable `n` met at abstraction depth `d` to `d - n + 1`:
/// levels to indices, and indices to levels.
pub open spec fn reindex(t: DB, d: int) -> DB
    decreases t,
{
    match t {
        DB::Var(n) => DB::Var(d - n + 1),
        DB::App(f, a) => DB::App(Box::new(reindex(*f, d)), Box::new(reindex(*a, d))),
        DB::Abs(b) => DB::Abs(Box::new(reindex(*b, d + 1))),
        DB::Free(x) => DB::Free(x),
    }
}

/// The largest number of abstractions nested in one another.
pub open spec fn nesting(t: DB) -> nat
    decreases t,
{
    match t {
        DB::Var(_) | DB::Free(_) => 0,
        DB::App(f, a) => if nesting(*f) >= nesting(*a) {
            nesting(*f)
        } else {
            nesting(*a)
        },
        DB::Abs(b) => 1 + nesting(*b),
    }
}

/// Every bound variable met at depth `d` holds at most `d`.
pub open spec fn numbers_within(t: DB, d: int) -> bool
    decreases t,
{
    match t {
        DB::Var(n) => n <= d,
        DB::App(f, a) => numbers_within(*f, d) && numbers_within(*a, d),
        DB::Abs(b) => numbers_within(*b, d + 1),
        DB::Free(_) => true,
    }
}

/// Every bound variable met at depth `d` names one of the `d` binders around it.
pub open spec fn binder_numbers(t: DB, d: int) -> bool
    decreases t,
{
    match t {
        DB::Var(n) => 1 <= n <= d,
        DB::App(f, a) => binder_numbers(*f, d) && binder_numbers(*a, d),
        DB::Abs(b) => binder_numbers(*b, d + 1),
        DB::Free(_) => true,
    }
}

/// The names of the free variables of a nameless term.
pub open spec fn db_free_vars(t: DB) -> Set<Seq<char>>
    decreases t,
{
    match t {
        DB::Free(x) => set![x],
        DB::Var(_) => Set::empty(),
        DB::App(f, a) => db_free_vars(*f).union(db_free_vars(*a)),
        DB::Abs(b) => db_free_vars(*b),
    }
}

/// The largest number of abstractions nested in one another in a named term.
pub open spec fn term_nesting(t: Term) -> nat
    decreases t,
{
    match t {
        Term::Var(_) => 0,
        Term::App(f, a) => if term_nesting(*f) >= term_nesting(*a) {
            term_nesting(*f)
        } else {
            term_nesting(*a)
        },
        Term::Abs(_, b) => 1 + term_nesting(*b),
    }
}

pub open spec fn names(v: Seq<String>) -> Seq<Seq<char>> {
    v.map_values(|s: String| s@)
}

fn innermost_binder(scope: &Vec<String>, x: &String) -> (r: Option<usize>)
    ensures
        r matches Some(k) ==> k < scope@.len() && innermost(names(scope@), x@) == Some(k as int),
        r is None ==> innermost(names(scope@), x@) is None,
{
    let ghost all = names(scope@);
    let mut i = scope.len();
    assert(all.take(i as int) =~= all);
    while i > 0
        invariant
            i <= scope@.len(),
            all == names(scope@),
            innermost(all.take(i as int), x@) == innermost(all, x@),
        decreases i,
    {
        assert(all.take(i as int).last() == scope@[i - 1]@);
        if scope[i - 1] == *x {
            return Some(i - 1);
        }
        assert(all.take(i as int).drop_last() =~= all.take(i - 1));
        i -= 1;
    }
    None
}

/// Converts a named term to levels under the binders of `scope`, which it
/// leaves as it found it.
fn levels_of(term: LambdaTerm, scope: &mut Vec<String>) -> (r: DBTerm)
    ensures
        final(scope)@ == old(scope)@,
        r@ == to_levels(term@, names(old(scope)@)),
    decreases term,
{
    match term {
        LambdaTerm::Variable(id) => {
            let depth = scope.len();
            match innermost_binder(scope, &id) {
                Some(k) => {
                    assert(k < depth);
                    DBTerm::Variable(k + 1)
                },
                None => DBTerm::FreeVariable(id),
            }
        },
        LambdaTerm::Application { function, argument } => {
            let f = levels_of(*function, scope);
            let a = levels_of(*argument, scope);
            DBTerm::Application { function: Box::new(f), argument: Box::new(a) }
        },
        LambdaTerm::Abstraction { bound_variable, return_term } => {
            let ghost outer = scope@;
            let ghost x = bound_variable@;
            scope.push(bound_variable);
            assert(names(scope@) =~= names(outer).push(x));
            let body = levels_of(*return_term, scope);
            scope.pop();
            assert(scope@ =~= outer);
            DBTerm::Abstraction(Box::new(body))
        },
    }
}

/// Renumbers the bound variables of `term`, met under `depth` abstractions.
fn renumber(term: DBTerm, depth: usize) -> (r: DBTerm)
    requires
        numbers_within(term@, depth as int),
        depth + nesting(term@) < usize::MAX,
    ensures
        r@ == reindex(term@, depth as int),
    decreases term,
{
    match term {
        DBTerm::FreeVariable(id) => DBTerm::FreeVariable(id),
        DBTerm::Variable(n) => DBTerm::Variable(depth - n + 1),
        DBTerm::Application { function, argument } => {
            let f = renumber(*function, depth);
            let a = renumber(*argument, depth);
            DBTerm::Application { function: Box::new(f), argument: Box::new(a) }
        },
        DBTerm::Abstraction(body) => DBTerm::Abstraction(Box::new(renumber(*body, depth + 1))),
    }
}

/// The decimal digits of `n`.
pub open spec fn decimal(n: nat) -> Seq<char>
    decreases n,
{
    let digit = seq!['0', '1', '2', '3', '4', '5', '6', '7', '8', '9'][(n % 10) as int];
    if n < 10 {
        seq![digit]
    } else {
        decimal(n / 10) + seq![digit]
    }
}

/// Canonical text of a nameless term: numbers and free names as they are, a
/// function parenthesized when it is an abstraction, an argument unless it is
/// a variable, and an abstraction as the binder glyph, a space and its body.
pub open spec fn render_db(t: DB) -> Seq<char>
    decreases t,
{
    match t {
        DB::Var(n) => decimal(n as nat),
        DB::Free(x) => x,
        DB::App(f, a) => {
            let fs = if *f is Abs {
                seq!['('] + render_db(*f) + seq![')']
            } else {
                render_db(*f)
            };
            let args = if *a is Var || *a is Free {
                render_db(*a)
            } else {
                seq!['('] + render_db(*a) + seq![')']
            };
            fs + seq![' '] + args
        },
        DB::Abs(b) => seq!['λ', ' '] + render_db(*b),
    }
}

fn digit_text(d: usize) -> (r: &'static str)
    requires
        d < 10,
    ensures
        r@ == seq![seq!['0', '1', '2', '3', '4', '5', '6', '7', '8', '9'][d as int]],
{
    proof {
        reveal_strlit("0");
        reveal_strlit("1");
        reveal_strlit("2");
        reveal_strlit("3");
        reveal_strlit("4");
        reveal_strlit("5");
        reveal_strlit("6");
        reveal_strlit("7");
        reveal_strlit("8");
        reveal_strlit("9");
    }
    if d == 0 {
        "0"
    } else if d == 1 {
        "1"
    } else if d == 2 {
        "2"
    } else if d == 3 {
        "3"
    } else if d == 4 {
        "4"
    } else if d == 5 {
        "5"
    } else if d == 6 {
        "6"
    } else if d == 7 {
        "7"
    } else if d == 8 {
        "8"
    } else {
        "9"
    }
}

fn append_decimal(n: usize, out: &mut String)
    ensures
        final(out)@ == old(out)@ + decimal(n as nat),
    decreases n,
{
    if n >= 10 {
        append_decimal(n / 10, out);
    }
    out.append(digit_text(n % 10));
    assert(final(out)@ =~= old(out)@ + decimal(n as nat));
}

impl DBTerm {
    /// Appends the canonical text of the term.
    fn render_into(&self, out: &mut String)
        ensures
            final(out)@ == old(out)@ + render_db(self@),
        decreases self,
    {
        let ghost start = out@;
        match self {
            DBTerm::Variable(n) => append_decimal(*n, out),
            DBTerm::FreeVariable(id) => out.append(id.as_str()),
            DBTerm::Application { function, argument } => {
                let wrap_function = matches!(**function, DBTerm::Abstraction(_));
                if wrap_function {
                    out.append("(");
                }
                function.render_into(out);
                if wrap_function {
                    out.append(")");
                }
                out.append(" ");
                let wrap_argument = !matches!(**argument, DBTerm::Variable(_) | DBTerm::FreeVariable(_));
                if wrap_argument {
                    out.append("(");
                }
                argument.render_into(out);
                if wrap_argument {
                    out.append(")");
                }
                proof {
                    reveal_strlit("(");
                    reveal_strlit(")");
                    reveal_strlit(" ");
                }
            },
            DBTerm::Abstraction(body) => {
                out.append("λ ");
                body.render_into(out);
                proof {
                    reveal_strlit("λ ");
                }
            },
        }
        assert(out@ =~= start + render_db(self@));
    }

    /// The canonical text of the term.
    pub fn to_string(&self) -> (r: String)
        ensures
            r@ == render_db(self@),
    {
        let mut out = String::new();
        self.render_into(&mut out);
        assert(out@ =~= render_db(self@));
        out
    }

    /// The names of the free variables, each once.
    pub fn free_variables(&self) -> (r: Vec<String>)
        ensures
            distinct_names(r@),
            name_set(r@) == db_free_vars(self@),
        decreases self,
    {
        match self {
            DBTerm::FreeVariable(id) => {
                let mut r: Vec<String> = Vec::new();
                insert_name(&mut r, id.clone());
                assert(name_set(Seq::<String>::empty()) =~= Set::empty());
                assert(name_set(r@) =~= set![id@]);
                r
            },
            DBTerm::Variable(_) => {
                let r: Vec<String> = Vec::new();
                assert(name_set(r@) =~= Set::empty());
                r
            },
            DBTerm::Abstraction(body) => body.free_variables(),
            DBTerm::Application { function, argument } => {
                let mut r = function.free_variables();
                insert_names(&mut r, argument.free_variables());
                r
            },
        }
    }
}

impl DBLevels {
    /// The canonical text of the term.
    pub fn to_string(&self) -> (r: String)
        ensures
            r@ == render_db(self.0@),
    {
        self.0.to_string()
    }

    /// The levels form of a named term: each bound occurrence holds the depth
    /// of its innermost binder of that name; the others become free variables.
    pub fn from_lambda(lambda: LambdaTerm) -> (r: DBLevels)
        ensures
            r.0@ == to_levels(lambda@, seq![]),
    {
        let mut scope: Vec<String> = Vec::new();
        assert(names(scope@) =~= seq![]);
        DBLevels(levels_of(lambda, &mut scope))
    }

    /// The levels form of a term in indices.
    pub fn from_indices(indices: DBIndices) -> (r: DBLevels)
        requires
            numbers_within(indices.0@, 0),
            nesting(indices.0@) < usize::MAX,
        ensures
            r.0@ == reindex(indices.0@, 0),
    {
        let DBIndices(term) = indices;
        DBLevels(renumber(term, 0))
    }
}

impl DBIndices {
    /// The canonical text of the term.
    pub fn to_string(&self) -> (r: String)
        ensures
            r@ == render_db(self.0@),
    {
        self.0.to_string()
    }

    /// The indices form of a term in levels.
    pub fn from_levels(levels: DBLevels) -> (r: DBIndices)
        requires
            numbers_within(levels.0@, 0),
            nesting(levels.0@) < usize::MAX,
        ensures
            r.0@ == reindex(levels.0@, 0),
    {
        let DBLevels(term) = levels;
        DBIndices(renumber(term, 0))
    }

    /// The indices form of a named term, by way of its levels form.
    pub fn from_lambda(lambda: LambdaTerm) -> (r: DBIndices)
        requires
            term_nesting(lambda@) < usize::MAX,
        ensures
            r.0@ == reindex(to_levels(lambda@, seq![]), 0),
    {
        let ghost t = lambda@;
        let levels = DBLevels::from_lambda(lambda);
        proof {
            lemma_levels_shape(t, seq![]);
            lemma_binder_numbers_within(to_levels(t, seq![]), 0);
        }
        DBIndices::from_levels(levels)
    }
}

/// Levels under `scope` name binders in scope and keep the nesting of the term.
pub proof fn lemma_levels_shape(t: Term, scope: Seq<Seq<char>>)
    ensures
        binder_numbers(to_levels(t, scope), scope.len() as int),
        nesting(to_levels(t, scope)) == term_nesting(t),
    decreases t,
{
    match t {
        Term::Var(x) => {
            lemma_innermost_in_scope(scope, x);
        },
        Term::App(f, a) => {
            lemma_levels_shape(*f, scope);
            lemma_levels_shape(*a, scope);
        },
        Term::Abs(x, b) => {
            lemma_levels_shape(*b, scope.push(x));
        },
    }
}

pub proof fn lemma_innermost_in_scope(scope: Seq<Seq<char>>, x: Seq<char>)
    ensures
        innermost(scope, x) matches Some(k) ==> 0 <= k < scope.len(),
    decreases scope.len(),
{
    if scope.len() > 0 && scope.last() != x {
        lemma_innermost_in_scope(scope.drop_last(), x);
    }
}

/// Binder numbers are in particular no larger than the depth.
pub proof fn lemma_binder_numbers_within(t: DB, d: int)
    requires
        binder_numbers(t, d),
    ensures
        numbers_within(t, d),
    decreases t,
{
    match t {
        DB::App(f, a) => {
            lemma_binder_numbers_within(*f, d);
            lemma_binder_numbers_within(*a, d);
        },
        DB::Abs(b) => lemma_binder_numbers_within(*b, d + 1),
        _ => {},
    }
}

/// Renumbering twice at the same depth gives back every term whose bound
/// variables name binders around them; the renumbered term has that property
/// too, and the same nesting.
pub proof fn lemma_reindex_involutive(t: DB, d: int)
    requires
        binder_numbers(t, d),
    ensures
        reindex(reindex(t, d), d) == t,
        binder_numbers(reindex(t, d), d),
        nesting(reindex(t, d)) == nesting(t),
    decreases t,
{
    match t {
        DB::App(f, a) => {
            lemma_reindex_involutive(*f, d);
            lemma_reindex_involutive(*a, d);
        },
        DB::Abs(b) => lemma_reindex_involutive(*b, d + 1),
        _ => {},
    }
}

/// Levels to indices to levels is the identity on a levels term whose bound
/// variables name binders around them, and each step meets the next one's
/// precondition.
pub proof fn lemma_levels_indices_levels(t: DB)
    requires
        binder_numbers(t, 0),
    ensures
        numbers_within(t, 0),
        numbers_within(reindex(t, 0), 0),
        nesting(reindex(t, 0)) == nesting(t),
        reindex(reindex(t, 0), 0) == t,
{
    lemma_reindex_involutive(t, 0);
    lemma_binder_numbers_within(t, 0);
    lemma_binder_numbers_within(reindex(t, 0), 0);
}

/// The levels form of every named term satisfies the law above.
pub proof fn lemma_lambda_levels_round_trip(t: Term)
    ensures
        binder_numbers(to_levels(t, seq![]), 0),
        reindex(reindex(to_levels(t, seq![]), 0), 0) == to_levels(t, seq![]),
{
    lemma_levels_shape(t, seq![]);
    lemma_levels_indices_levels(to_levels(t, seq![]));
}

} // verus!
