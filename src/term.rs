use vstd::prelude::*;
use vstd::string::*;

verus! {

/// A lambda term with named variables.
#[derive(Debug, PartialEq, Eq)]
pub enum LambdaTerm {
    Abstraction { bound_variable: String, return_term: Box<LambdaTerm> },
    Application { function: Box<LambdaTerm>, argument: Box<LambdaTerm> },
    Variable(String),
}

/// The mathematical value of a lambda term.
pub enum Term {
    Abs(Seq<char>, Box<Term>),
    App(Box<Term>, Box<Term>),
    Var(Seq<char>),
}

impl View for LambdaTerm {
    type V = Term;

    open spec fn view(&self) -> Term
        decreases self,
    {
        match self {
            LambdaTerm::Abstraction { bound_variable, return_term } => Term::Abs(
                bound_variable@,
                Box::new((**return_term).view()),
            ),
            LambdaTerm::Application { function, argument } => Term::App(
                Box::new((**function).view()),
                Box::new((**argument).view()),
            ),
            LambdaTerm::Variable(id) => Term::Var(id@),
        }
    }
}

/// Names that occur as a variable with no enclosing binder of that name.
pub open spec fn free_vars(t: Term) -> Set<Seq<char>>
    decreases t,
{
    match t {
        Term::Var(x) => set![x],
        Term::App(f, a) => free_vars(*f).union(free_vars(*a)),
        Term::Abs(x, b) => free_vars(*b).remove(x),
    }
}

/// Names that some abstraction of the term binds.
pub open spec fn bound_vars(t: Term) -> Set<Seq<char>>
    decreases t,
{
    match t {
        Term::Var(_) => Set::empty(),
        Term::App(f, a) => bound_vars(*f).union(bound_vars(*a)),
        Term::Abs(x, b) => bound_vars(*b).insert(x),
    }
}

/// Canonical text of a term: a function is parenthesized when it is an
/// abstraction, an argument unless it is a variable.
pub open spec fn render(t: Term) -> Seq<char>
    decreases t,
{
    match t {
        Term::Var(x) => x,
        Term::App(f, a) => {
            let fs = if *f is Abs {
                seq!['('] + render(*f) + seq![')']
            } else {
                render(*f)
            };
            let args = if *a is Var {
                render(*a)
            } else {
                seq!['('] + render(*a) + seq![')']
            };
            fs + seq![' '] + args
        },
        Term::Abs(x, b) => seq!['λ'] + x + seq!['.', ' '] + render(*b),
    }
}

/// The names held by a sequence of strings.
pub open spec fn name_set(v: Seq<String>) -> Set<Seq<char>> {
    Set::new(|x: Seq<char>| exists|i: int| 0 <= i < v.len() && v[i]@ == x)
}

/// No name is held twice.
pub open spec fn distinct_names(v: Seq<String>) -> bool {
    forall|i: int, j: int| 0 <= i < j < v.len() ==> v[i]@ != v[j]@
}

pub(crate) fn contains_name(v: &Vec<String>, x: &String) -> (r: bool)
    ensures
        r == name_set(v@).contains(x@),
{
    let mut i: usize = 0;
    while i < v.len()
        invariant
            i <= v@.len(),
            forall|k: int| 0 <= k < i ==> v@[k]@ != x@,
        decreases v@.len() - i,
    {
        if v[i] == *x {
            return true;
        }
        i += 1;
    }
    false
}

/// Adds a name unless it is already held.
pub(crate) fn insert_name(v: &mut Vec<String>, x: String)
    requires
        distinct_names(old(v)@),
    ensures
        distinct_names(final(v)@),
        name_set(final(v)@) == name_set(old(v)@).insert(x@),
{
    let ghost x_view = x@;
    if !contains_name(v, &x) {
        let ghost before = v@;
        v.push(x);
        assert(forall|k: int| 0 <= k < before.len() ==> v@[k] == before[k]);
        assert(v@[before.len() as int]@ == x_view);
    }
    assert(name_set(v@) =~= name_set(old(v)@).insert(x_view));
}

/// Adds every name of `w` not yet held.
pub(crate) fn insert_names(v: &mut Vec<String>, w: Vec<String>)
    requires
        distinct_names(old(v)@),
    ensures
        distinct_names(final(v)@),
        name_set(final(v)@) == name_set(old(v)@).union(name_set(w@)),
{
    let ghost start = v@;
    let mut i: usize = 0;
    let mut w = w;
    let ghost ws = w@;
    while i < w.len()
        invariant
            w@ == ws,
            i <= ws.len(),
            distinct_names(v@),
            name_set(v@) == name_set(start).union(name_set(ws.take(i as int))),
        decreases ws.len() - i,
    {
        let x = w[i].clone();
        insert_name(v, x);
        assert(name_set(ws.take(i + 1)) =~= name_set(ws.take(i as int)).insert(ws[i as int]@)) by {
            assert(ws.take(i + 1)[i as int] == ws[i as int]);
            assert forall|y: Seq<char>| name_set(ws.take(i as int)).contains(y) implies name_set(
                ws.take(i + 1),
            ).contains(y) by {
                let k = choose|k: int| 0 <= k < i && #[trigger] ws.take(i as int)[k]@ == y;
                assert(ws.take(i + 1)[k] == ws.take(i as int)[k]);
            }
            assert forall|y: Seq<char>| name_set(ws.take(i + 1)).contains(y) implies name_set(
                ws.take(i as int),
            ).insert(ws[i as int]@).contains(y) by {
                let k = choose|k: int| 0 <= k < i + 1 && #[trigger] ws.take(i + 1)[k]@ == y;
                if k < i {
                    assert(ws.take(i as int)[k] == ws.take(i + 1)[k]);
                }
            }
        }
        i += 1;
    }
    assert(ws.take(ws.len() as int) =~= ws);
    assert(name_set(v@) =~= name_set(start).union(name_set(ws)));
}

/// Drops a name, keeping the others in order.
fn remove_name(v: Vec<String>, x: &String) -> (r: Vec<String>)
    requires
        distinct_names(v@),
    ensures
        distinct_names(r@),
        name_set(r@) == name_set(v@).remove(x@),
{
    let mut r: Vec<String> = Vec::new();
    let mut i: usize = 0;
    while i < v.len()
        invariant
            i <= v@.len(),
            distinct_names(v@),
            distinct_names(r@),
            forall|k: int| 0 <= k < r@.len() ==> #[trigger] r@[k]@ != x@,
            forall|k: int|
                0 <= k < r@.len() ==> exists|j: int| 0 <= j < i && v@[j]@ == #[trigger] r@[k]@,
            forall|j: int|
                0 <= j < i && v@[j]@ != x@ ==> exists|k: int|
                    0 <= k < r@.len() && #[trigger] r@[k]@ == v@[j]@,
        decreases v@.len() - i,
    {
        if v[i] != *x {
            let ghost before = r@;
            r.push(v[i].clone());
            assert(r@[before.len() as int] == v@[i as int]);
            assert forall|k: int| 0 <= k < before.len() implies r@[k] == before[k] by {}
            assert forall|k: int| 0 <= k < before.len() implies #[trigger] r@[k]@ != r@[before.len() as int]@ by {
                let j = choose|j: int| 0 <= j < i && #[trigger] v@[j]@ == before[k]@;
                assert(r@[k] == before[k]);
            }
        }
        i += 1;
    }
    assert(name_set(r@) =~= name_set(v@).remove(x@)) by {
        assert forall|y: Seq<char>| name_set(r@).contains(y) implies name_set(v@).remove(x@).contains(y) by {
            let k = choose|k: int| 0 <= k < r@.len() && #[trigger] r@[k]@ == y;
        }
        assert forall|y: Seq<char>| name_set(v@).remove(x@).contains(y) implies name_set(r@).contains(y) by {
            let j = choose|j: int| 0 <= j < v@.len() && #[trigger] v@[j]@ == y;
        }
    }
    r
}

impl LambdaTerm {
    /// The names that occur free in the term, each once.
    pub fn free_variables(&self) -> (r: Vec<String>)
        ensures
            distinct_names(r@),
            name_set(r@) == free_vars(self@),
        decreases self,
    {
        match self {
            LambdaTerm::Variable(id) => {
                let mut r: Vec<String> = Vec::new();
                insert_name(&mut r, id.clone());
                assert(name_set(Seq::<String>::empty()) =~= Set::empty());
                assert(name_set(r@) =~= set![id@]);
                r
            },
            LambdaTerm::Application { function, argument } => {
                let mut r = function.free_variables();
                insert_names(&mut r, argument.free_variables());
                r
            },
            LambdaTerm::Abstraction { bound_variable, return_term } => {
                let body = return_term.free_variables();
                remove_name(body, bound_variable)
            },
        }
    }

    /// The names that some abstraction of the term binds, each once.
    pub fn bound_variables(&self) -> (r: Vec<String>)
        ensures
            distinct_names(r@),
            name_set(r@) == bound_vars(self@),
        decreases self,
    {
        match self {
            LambdaTerm::Variable(_) => {
                let r: Vec<String> = Vec::new();
                assert(name_set(r@) =~= Set::empty());
                r
            },
            LambdaTerm::Application { function, argument } => {
                let mut r = function.bound_variables();
                insert_names(&mut r, argument.bound_variables());
                r
            },
            LambdaTerm::Abstraction { bound_variable, return_term } => {
                let mut r = return_term.bound_variables();
                insert_name(&mut r, bound_variable.clone());
                r
            },
        }
    }

    /// Appends the canonical text of the term.
    fn render_into(&self, out: &mut String)
        ensures
            final(out)@ == old(out)@ + render(self@),
        decreases self,
    {
        match self {
            LambdaTerm::Variable(id) => {
                out.append(id.as_str());
            },
            LambdaTerm::Application { function, argument } => {
                let ghost start = out@;
                let wrap_function = matches!(**function, LambdaTerm::Abstraction { .. });
                if wrap_function {
                    out.append("(");
                }
                function.render_into(out);
                if wrap_function {
                    out.append(")");
                }
                out.append(" ");
                let wrap_argument = !matches!(**argument, LambdaTerm::Variable(_));
                if wrap_argument {
                    out.append("(");
                }
                argument.render_into(out);
                if wrap_argument {
                    out.append(")");
                }
                proof {
                    reveal_strlit("(");
                    reveal_strlit(")");
                    reveal_strlit(" ");
                }
                assert(out@ =~= start + render(self@));
            },
            LambdaTerm::Abstraction { bound_variable, return_term } => {
                let ghost start = out@;
                out.append("λ");
                out.append(bound_variable.as_str());
                out.append(". ");
                return_term.render_into(out);
                proof {
                    reveal_strlit("λ");
                    reveal_strlit(". ");
                }
                assert(out@ =~= start + render(self@));
            },
        }
    }

    /// The canonical text of the term.
    pub fn to_string(&self) -> (r: String)
        ensures
            r@ == render(self@),
    {
        let mut out = String::new();
        self.render_into(&mut out);
        assert(out@ =~= render(self@));
        out
    }
}

/// The name an abstraction binds is never free in it, whether or not its body
/// uses that name.
pub proof fn lemma_binder_not_free(x: Seq<char>, body: Term)
    ensures
        !free_vars(Term::Abs(x, Box::new(body))).contains(x),
{
}

/// A name that is both free and bound in a term is free in one scope and bound
/// in another: the term is no variable, and no abstraction of that name; under
/// an abstraction of another name the name is free and bound in the body.
pub proof fn lemma_free_and_bound(t: Term, x: Seq<char>)
    requires
        free_vars(t).contains(x),
        bound_vars(t).contains(x),
    ensures
        !(t is Var),
        t matches Term::Abs(y, b) ==> y != x && free_vars(*b).contains(x) && bound_vars(
            *b,
        ).contains(x),
{
}

} // verus!
