//! Substitutions and unification without occurs check.

use crate::limits::EngineError;
use crate::term::{lemma_argument_decreases, lemma_view_compound, term_views, Term, TermView, VarView, Variable};
use vstd::prelude::*;

verus! {

/// The model of a substitution: its bindings, in the order in which they
/// were made.
pub type SubstView = Seq<(VarView, TermView)>;

/// The term that `s` binds `v` to: that of the first binding of `v` at or
/// after index `from`.
pub open spec fn lookup_from(s: SubstView, v: VarView, from: int) -> Option<TermView>
    decreases s.len() - from,
{
    if from < 0 || from >= s.len() {
        None
    } else if s[from].0 == v {
        Some(s[from].1)
    } else {
        lookup_from(s, v, from + 1)
    }
}

/// The term that `s` binds `v` to, if any.
pub open spec fn lookup(s: SubstView, v: VarView) -> Option<TermView> {
    lookup_from(s, v, 0)
}

/// Unification of `a` and `b` under `s`, descending at most `depth` levels.
///
/// `Ok(Some(s2))`: the terms unify, and `s2` is `s` with the bindings that
/// this took. `Ok(None)`: they do not unify. `Err(DepthLimit)`: the depth
/// was used up before either was known.
///
/// A bound variable stands for its term; an unbound one unifies with
/// anything and is bound to it, unless it meets itself. Of two unbound
/// variables the one of the later generation is bound to the other, and the
/// first of them where the generations agree: so the variables of a clause
/// that was renamed apart are bound before those of the goal. Two atoms
/// unify when they are the same atom. Two compound terms unify when functor
/// and number of arguments agree and the arguments unify pair by pair, from
/// left to right. There is no occurs check.
pub open spec fn unify(s: SubstView, a: TermView, b: TermView, depth: nat) -> Result<
    Option<SubstView>,
    EngineError,
>
    decreases depth, 0nat,
{
    if depth == 0 {
        Err(EngineError::DepthLimit)
    } else {
        match a {
            TermView::Var(v) => match lookup(s, v) {
                Some(t) => unify(s, t, b, (depth - 1) as nat),
                None => match b {
                    TermView::Var(w) => match lookup(s, w) {
                        Some(u) => unify(s, a, u, (depth - 1) as nat),
                        None => if v == w {
                            Ok(Some(s))
                        } else if v.generation < w.generation {
                            Ok(Some(s.push((w, a))))
                        } else {
                            Ok(Some(s.push((v, b))))
                        },
                    },
                    _ => Ok(Some(s.push((v, b)))),
                },
            },
            TermView::Atom(x) => match b {
                TermView::Var(w) => match lookup(s, w) {
                    Some(u) => unify(s, a, u, (depth - 1) as nat),
                    None => Ok(Some(s.push((w, a)))),
                },
                TermView::Atom(y) => if x == y {
                    Ok(Some(s))
                } else {
                    Ok(None)
                },
                TermView::Compound(_, _) => Ok(None),
            },
            TermView::Compound(f, xs) => match b {
                TermView::Var(w) => match lookup(s, w) {
                    Some(u) => unify(s, a, u, (depth - 1) as nat),
                    None => Ok(Some(s.push((w, a)))),
                },
                TermView::Atom(_) => Ok(None),
                TermView::Compound(g, ys) => if f == g && xs.len() == ys.len() {
                    unify_all(s, xs, ys, 0, (depth - 1) as nat)
                } else {
                    Ok(None)
                },
            },
        }
    }
}

/// Unification of `xs[i]` with `ys[i]` for each `i` from `from` on, in
/// order, each under the bindings of those before it.
pub open spec fn unify_all(
    s: SubstView,
    xs: Seq<TermView>,
    ys: Seq<TermView>,
    from: int,
    depth: nat,
) -> Result<Option<SubstView>, EngineError>
    decreases depth, 1 + xs.len() - from,
{
    if from < 0 || from >= xs.len() || from >= ys.len() {
        Ok(Some(s))
    } else {
        match unify(s, xs[from], ys[from], depth) {
            Ok(Some(s2)) => unify_all(s2, xs, ys, from + 1, depth),
            other => other,
        }
    }
}

/// The term `t` with every bound variable replaced by what it stands for,
/// through as many bindings as it takes, descending at most `depth` levels.
pub open spec fn resolve(s: SubstView, t: TermView, depth: nat) -> Result<TermView, EngineError>
    decreases depth, 0nat,
{
    if depth == 0 {
        Err(EngineError::DepthLimit)
    } else {
        match t {
            TermView::Atom(_) => Ok(t),
            TermView::Var(v) => match lookup(s, v) {
                Some(u) => resolve(s, u, (depth - 1) as nat),
                None => Ok(t),
            },
            TermView::Compound(f, args) => match resolve_all(s, args, 0, (depth - 1) as nat) {
                Ok(resolved) => Ok(TermView::Compound(f, resolved)),
                Err(e) => Err(e),
            },
        }
    }
}

/// The terms `ts[from..]`, each resolved under `s`.
pub open spec fn resolve_all(s: SubstView, ts: Seq<TermView>, from: int, depth: nat) -> Result<
    Seq<TermView>,
    EngineError,
>
    decreases depth, 1 + ts.len() - from,
{
    if from < 0 || from >= ts.len() {
        Ok(Seq::empty())
    } else {
        match resolve(s, ts[from], depth) {
            Err(e) => Err(e),
            Ok(first) => match resolve_all(s, ts, from + 1, depth) {
                Err(e) => Err(e),
                Ok(rest) => Ok(seq![first] + rest),
            },
        }
    }
}

/// Whether `s` binds no variable of `t`.
pub open spec fn binds_none_of(s: SubstView, t: TermView) -> bool {
    forall|v: VarView| t.occurs(v) ==> lookup(s, v) is None
}

/// A substitution: the bindings of variables to terms that unification has
/// made so far.
#[derive(Debug, PartialEq, Eq)]
pub struct Substitution {
    bindings: Vec<(Variable, Term)>,
}

impl View for Substitution {
    type V = SubstView;

    closed spec fn view(&self) -> SubstView {
        Seq::new(self.bindings@.len(), |i: int| (self.bindings@[i].0@, self.bindings@[i].1@))
    }
}

/// The model of an optional term.
pub open spec fn term_option_view(t: Option<Term>) -> Option<TermView> {
    match t {
        Some(t) => Some(t@),
        None => None,
    }
}

/// The model of what `Substitution::unify` returns.
pub open spec fn unified_view(r: Result<Option<Substitution>, EngineError>) -> Result<
    Option<SubstView>,
    EngineError,
> {
    match r {
        Ok(Some(s)) => Ok(Some(s@)),
        Ok(None) => Ok(None),
        Err(e) => Err(e),
    }
}

/// The model of a term or an error.
pub open spec fn term_result_view(r: Result<Term, EngineError>) -> Result<TermView, EngineError> {
    match r {
        Ok(t) => Ok(t@),
        Err(e) => Err(e),
    }
}

impl Substitution {
    /// The substitution that binds nothing.
    pub fn new() -> (s: Substitution)
        ensures
            s@ == Seq::<(VarView, TermView)>::empty(),
    {
        let s = Substitution { bindings: Vec::new() };
        assert(s@ =~= Seq::empty());
        s
    }

    /// The number of bindings.
    pub fn len(&self) -> (n: usize)
        ensures
            n == self@.len(),
    {
        self.bindings.len()
    }

    /// The variable and term of the binding at index `i`, if there are that
    /// many.
    pub fn binding(&self, i: usize) -> (b: Option<(&Variable, &Term)>)
        ensures
            match b {
                Some((v, t)) => i < self@.len() && (v@, t@) == self@[i as int],
                None => i >= self@.len(),
            },
    {
        if i < self.bindings.len() {
            Some((&self.bindings[i].0, &self.bindings[i].1))
        } else {
            None
        }
    }

    /// The term that the variable is bound to, if any.
    pub fn lookup(&self, v: &Variable) -> (r: Option<&Term>)
        ensures
            match r {
                Some(t) => lookup(self@, v@) == Some(t@),
                None => lookup(self@, v@) is None,
            },
    {
        let mut i: usize = 0;
        while i < self.bindings.len()
            invariant
                i <= self.bindings.len(),
                lookup(self@, v@) == lookup_from(self@, v@, i as int),
            decreases self.bindings.len() - i,
        {
            if self.bindings[i].0.same(v) {
                return Some(&self.bindings[i].1);
            }
            i += 1;
        }
        None
    }

    /// A copy of the term that the variable is bound to, if any.
    fn bound(&self, v: &Variable) -> (r: Option<Term>)
        ensures
            term_option_view(r) == lookup(self@, v@),
    {
        match self.lookup(v) {
            Some(t) => Some(t.duplicate()),
            None => None,
        }
    }

    /// The substitution with one more binding, of `v` to `t`.
    fn bind(self, v: &Variable, t: &Term) -> (s: Substitution)
        ensures
            s@ == self@.push((v@, t@)),
    {
        let mut bindings = self.bindings;
        bindings.push((v.clone(), t.duplicate()));
        let s = Substitution { bindings };
        assert(s@ =~= self@.push((v@, t@)));
        s
    }

    /// A copy of the substitution.
    pub fn duplicate(&self) -> (s: Substitution)
        ensures
            s@ == self@,
    {
        let mut bindings: Vec<(Variable, Term)> = Vec::new();
        let mut i: usize = 0;
        while i < self.bindings.len()
            invariant
                i <= self.bindings.len(),
                bindings.len() == i,
                forall|j: int|
                    0 <= j < i ==> bindings@[j].0@ == self.bindings@[j].0@ && bindings@[j].1@
                        == self.bindings@[j].1@,
            decreases self.bindings.len() - i,
        {
            bindings.push((self.bindings[i].0.clone(), self.bindings[i].1.duplicate()));
            i += 1;
        }
        let s = Substitution { bindings };
        assert(s@ =~= self@);
        s
    }

    /// Unifies `a` with `b` under this substitution, descending at most
    /// `depth` levels, and returns the extended substitution when they
    /// unify.
    pub fn unify(self, a: &Term, b: &Term, depth: u64) -> (r: Result<
        Option<Substitution>,
        EngineError,
    >)
        ensures
            unified_view(r) == unify(self@, a@, b@, depth as nat),
        decreases depth, 0nat,
    {
        if depth == 0 {
            return Err(EngineError::DepthLimit);
        }
        match a {
            Term::Var(v) => match self.bound(v) {
                Some(t) => self.unify(&t, b, depth - 1),
                None => match b {
                    Term::Var(w) => match self.bound(w) {
                        Some(u) => self.unify(a, &u, depth - 1),
                        None => if v.same(w) {
                            Ok(Some(self))
                        } else if v.generation < w.generation {
                            Ok(Some(self.bind(w, a)))
                        } else {
                            Ok(Some(self.bind(v, b)))
                        },
                    },
                    _ => Ok(Some(self.bind(v, b))),
                },
            },
            Term::Atom(x) => match b {
                Term::Var(w) => match self.bound(w) {
                    Some(u) => self.unify(a, &u, depth - 1),
                    None => Ok(Some(self.bind(w, a))),
                },
                Term::Atom(y) => if crate::term::bytes_eq(x.as_slice(), y.as_slice()) {
                    Ok(Some(self))
                } else {
                    Ok(None)
                },
                Term::Compound(_, _) => Ok(None),
            },
            Term::Compound(f, xs) => match b {
                Term::Var(w) => match self.bound(w) {
                    Some(u) => self.unify(a, &u, depth - 1),
                    None => Ok(Some(self.bind(w, a))),
                },
                Term::Atom(_) => Ok(None),
                Term::Compound(g, ys) => {
                    proof {
                        lemma_view_compound(*f, *xs);
                        lemma_view_compound(*g, *ys);
                        assert(a@->Compound_1 == term_views(xs@));
                        assert(b@->Compound_1 == term_views(ys@));
                    }
                    if crate::term::bytes_eq(f.as_slice(), g.as_slice()) && xs.len() == ys.len() {
                        self.unify_all(xs, ys, depth - 1)
                    } else {
                        Ok(None)
                    }
                },
            },
        }
    }

    /// Unifies `xs[i]` with `ys[i]` for each `i` that both lists have, in
    /// order.
    pub fn unify_all(self, xs: &Vec<Term>, ys: &Vec<Term>, depth: u64) -> (r: Result<
        Option<Substitution>,
        EngineError,
    >)
        ensures
            unified_view(r) == unify_all(self@, term_views(xs@), term_views(ys@), 0, depth as nat),
        decreases depth, 1 + xs.len(),
    {
        let ghost start = self@;
        let mut current = self;
        let mut i: usize = 0;
        while i < xs.len() && i < ys.len()
            invariant
                i <= xs.len(),
                start == self@,
                unify_all(start, term_views(xs@), term_views(ys@), 0, depth as nat) == unify_all(
                    current@,
                    term_views(xs@),
                    term_views(ys@),
                    i as int,
                    depth as nat,
                ),
            decreases xs.len() - i,
        {
            let ghost before = current@;
            let step = current.unify(&xs[i], &ys[i], depth);
            assert(unified_view(step) == unify(
                before,
                term_views(xs@)[i as int],
                term_views(ys@)[i as int],
                depth as nat,
            ));
            match step {
                Ok(Some(next)) => {
                    current = next;
                },
                Ok(None) => {
                    return Ok(None);
                },
                Err(e) => {
                    return Err(e);
                },
            }
            i += 1;
        }
        Ok(Some(current))
    }

    /// The term with every bound variable replaced by what it stands for,
    /// descending at most `depth` levels.
    pub fn resolve(&self, t: &Term, depth: u64) -> (r: Result<Term, EngineError>)
        ensures
            term_result_view(r) == resolve(self@, t@, depth as nat),
        decreases depth, 0nat,
    {
        if depth == 0 {
            return Err(EngineError::DepthLimit);
        }
        match t {
            Term::Atom(_) => Ok(t.duplicate()),
            Term::Var(v) => match self.lookup(v) {
                Some(u) => self.resolve(u, depth - 1),
                None => Ok(t.duplicate()),
            },
            Term::Compound(f, args) => {
                proof {
                    lemma_view_compound(*f, *args);
                    assert(t@->Compound_1 == term_views(args@));
                }
                let ghost views = term_views(args@);
                let ghost below = (depth - 1) as nat;
                let mut resolved: Vec<Term> = Vec::new();
                let mut i: usize = 0;
                while i < args.len()
                    invariant
                        i <= args.len(),
                        depth > 0,
                        views == term_views(args@),
                        t@ == TermView::Compound(f@, views),
                        below == depth - 1,
                        resolve_all(self@, views, 0, below) == match resolve_all(
                            self@,
                            views,
                            i as int,
                            below,
                        ) {
                            Ok(rest) => Ok(term_views(resolved@) + rest),
                            Err(e) => Err(e),
                        },
                    decreases args.len() - i,
                {
                    let ghost before = term_views(resolved@);
                    match self.resolve(&args[i], depth - 1) {
                        Ok(arg) => {
                            resolved.push(arg);
                            proof {
                                assert(views[i as int] == args@[i as int]@);
                                match resolve_all(self@, views, i + 1, below) {
                                    Ok(rest) => {
                                        assert(before + (seq![arg@] + rest) =~= term_views(
                                            resolved@,
                                        ) + rest);
                                    },
                                    Err(_) => {},
                                }
                            }
                        },
                        Err(e) => {
                            assert(views[i as int] == args@[i as int]@);
                            return Err(e);
                        },
                    }
                    i += 1;
                }
                let functor = f.clone();
                proof {
                    lemma_view_compound(functor, resolved);
                    assert(term_views(resolved@) + Seq::<TermView>::empty() =~= term_views(
                        resolved@,
                    ));
                }
                Ok(Term::Compound(functor, resolved))
            },
        }
    }

    /// Whether the substitution binds no variable of the term.
    pub fn leaves(&self, t: &Term) -> (r: bool)
        ensures
            r == binds_none_of(self@, t@),
        decreases t,
    {
        match t {
            Term::Atom(_) => true,
            Term::Var(v) => {
                let free = self.lookup(v).is_none();
                assert(t@.occurs(v@));
                free
            },
            Term::Compound(f, args) => {
                proof {
                    lemma_view_compound(*f, *args);
                }
                let mut i: usize = 0;
                while i < args.len()
                    invariant
                        i <= args.len(),
                        *t == Term::Compound(*f, *args),
                        t@ == TermView::Compound(f@, term_views(args@)),
                        forall|j: int|
                            0 <= j < i ==> binds_none_of(self@, #[trigger] term_views(args@)[j]),
                    decreases args.len() - i,
                {
                    proof {
                        lemma_argument_decreases(*t, i as int);
                    }
                    if !self.leaves(&args[i]) {
                        proof {
                            let v = choose|v: VarView|
                                args@[i as int]@.occurs(v) && !(lookup(self@, v) is None);
                            assert(term_views(args@)[i as int].occurs(v));
                            crate::term::lemma_occurs_compound(f@, term_views(args@), v);
                        }
                        return false;
                    }
                    i += 1;
                }
                proof {
                    assert forall|v: VarView| t@.occurs(v) implies lookup(self@, v) is None by {
                        crate::term::lemma_occurs_compound(f@, term_views(args@), v);
                        let j = choose|j: int|
                            0 <= j < args@.len() && (#[trigger] term_views(args@)[j]).occurs(v);
                        assert(binds_none_of(self@, term_views(args@)[j]));
                    }
                }
                true
            },
        }
    }
}

/// A ground term unifies with itself, under any substitution and without a
/// new binding, once the depth reaches the term's height.
pub proof fn lemma_unify_reflexive(s: SubstView, t: TermView, depth: nat)
    requires
        t.ground(),
        depth >= t.height(),
    ensures
        unify(s, t, t, depth) == Ok::<Option<SubstView>, EngineError>(Some(s)),
    decreases t, (if t is Compound { t->Compound_1.len() + 2 } else { 0 }),
{
    match t {
        TermView::Atom(_) => {},
        TermView::Var(v) => {
            assert(t.occurs(v));
        },
        TermView::Compound(f, args) => {
            crate::term::lemma_ground_compound(f, args);
            crate::term::lemma_max_height(args);
            lemma_unify_all_reflexive(s, t, 0, (depth - 1) as nat);
        },
    }
}

/// The same, for the arguments of a ground compound term from `from` on.
pub proof fn lemma_unify_all_reflexive(s: SubstView, t: TermView, from: int, depth: nat)
    requires
        t is Compound,
        0 <= from <= t->Compound_1.len(),
        forall|i: int| 0 <= i < t->Compound_1.len() ==> (#[trigger] t->Compound_1[i]).ground(),
        forall|i: int| 0 <= i < t->Compound_1.len() ==> (#[trigger] t->Compound_1[i]).height() <= depth,
    ensures
        unify_all(s, t->Compound_1, t->Compound_1, from, depth) == Ok::<
            Option<SubstView>,
            EngineError,
        >(Some(s)),
    decreases t, 1 + t->Compound_1.len() - from,
{
    let args = t->Compound_1;
    if from < args.len() {
        lemma_unify_reflexive(s, args[from], depth);
        lemma_unify_all_reflexive(s, t, from + 1, depth);
    }
}

/// Two compound terms whose functors or numbers of arguments differ never
/// unify: with any depth to spend the answer is that they clash.
pub proof fn lemma_unify_functor_arity(
    s: SubstView,
    f: Seq<u8>,
    xs: Seq<TermView>,
    g: Seq<u8>,
    ys: Seq<TermView>,
    depth: nat,
)
    requires
        f != g || xs.len() != ys.len(),
    ensures
        !(unify(s, TermView::Compound(f, xs), TermView::Compound(g, ys), depth) matches Ok(Some(_))),
        depth > 0 ==> unify(s, TermView::Compound(f, xs), TermView::Compound(g, ys), depth) == Ok::<
            Option<SubstView>,
            EngineError,
        >(None),
{
    let a = TermView::Compound(f, xs);
    let b = TermView::Compound(g, ys);
    assert(a->Compound_0 == f && a->Compound_1 == xs);
    assert(b->Compound_0 == g && b->Compound_1 == ys);
}

/// Whether `s` is `longer` cut off after the bindings of `s`.
pub open spec fn extends(longer: SubstView, s: SubstView) -> bool {
    s.len() <= longer.len() && longer.take(s.len() as int) == s
}

/// Unification adds bindings and takes none away: the substitution that it
/// returns starts with the one that it was given.
pub proof fn lemma_unify_extends(s: SubstView, a: TermView, b: TermView, depth: nat)
    ensures
        unify(s, a, b, depth) matches Ok(Some(longer)) ==> extends(longer, s),
    decreases depth, 0nat,
{
    assert(s.take(s.len() as int) =~= s);
    if depth > 0 {
        let below = (depth - 1) as nat;
        match a {
            TermView::Var(v) => match lookup(s, v) {
                Some(t) => {
                    lemma_unify_extends(s, t, b, below);
                },
                None => match b {
                    TermView::Var(w) => match lookup(s, w) {
                        Some(u) => {
                            lemma_unify_extends(s, a, u, below);
                        },
                        None => {
                            assert(s.push((w, a)).take(s.len() as int) =~= s);
                            assert(s.push((v, b)).take(s.len() as int) =~= s);
                        },
                    },
                    _ => {
                        assert(s.push((v, b)).take(s.len() as int) =~= s);
                    },
                },
            },
            _ => match b {
                TermView::Var(w) => match lookup(s, w) {
                    Some(u) => {
                        lemma_unify_extends(s, a, u, below);
                    },
                    None => {
                        assert(s.push((w, a)).take(s.len() as int) =~= s);
                    },
                },
                TermView::Atom(_) => {},
                TermView::Compound(g, ys) => match a {
                    TermView::Compound(f, xs) => {
                        lemma_unify_all_extends(s, xs, ys, 0, below);
                    },
                    _ => {},
                },
            },
        }
    }
}

/// The same, for argument lists.
pub proof fn lemma_unify_all_extends(
    s: SubstView,
    xs: Seq<TermView>,
    ys: Seq<TermView>,
    from: int,
    depth: nat,
)
    ensures
        unify_all(s, xs, ys, from, depth) matches Ok(Some(longer)) ==> extends(longer, s),
    decreases depth, 1 + xs.len() - from,
{
    assert(s.take(s.len() as int) =~= s);
    if 0 <= from < xs.len() && from < ys.len() {
        lemma_unify_extends(s, xs[from], ys[from], depth);
        match unify(s, xs[from], ys[from], depth) {
            Ok(Some(middle)) => {
                lemma_unify_all_extends(middle, xs, ys, from + 1, depth);
                match unify_all(middle, xs, ys, from + 1, depth) {
                    Ok(Some(longer)) => {
                        assert(longer.take(s.len() as int) =~= longer.take(
                            middle.len() as int,
                        ).take(s.len() as int));
                    },
                    _ => {},
                }
            },
            _ => {},
        }
    }
}

/// Whether every variable that `s` binds, and every variable of the terms
/// that it binds them to, is of a generation below `g`.
pub open spec fn below(s: SubstView, g: nat) -> bool {
    forall|i: int| 0 <= i < s.len() ==> (#[trigger] s[i]).0.generation < g && s[i].1.ceiling() <= g
}

/// What a substitution below `g` binds a variable to is below `g`.
pub proof fn lemma_lookup_below(s: SubstView, v: VarView, from: int, g: nat)
    requires
        below(s, g),
        0 <= from,
    ensures
        lookup_from(s, v, from) matches Some(t) ==> t.ceiling() <= g,
    decreases s.len() - from,
{
    if from < s.len() && s[from].0 != v {
        lemma_lookup_below(s, v, from + 1, g);
    }
}

/// Unification makes no variable up: where the substitution and both terms
/// are below `g`, so is the substitution that it returns.
pub proof fn lemma_unify_below(s: SubstView, a: TermView, b: TermView, depth: nat, g: nat)
    requires
        below(s, g),
        a.ceiling() <= g,
        b.ceiling() <= g,
    ensures
        unify(s, a, b, depth) matches Ok(Some(longer)) ==> below(longer, g),
    decreases depth, 0nat,
{
    if depth > 0 {
        let under = (depth - 1) as nat;
        match a {
            TermView::Var(v) => {
                lemma_lookup_below(s, v, 0, g);
                match lookup(s, v) {
                    Some(t) => {
                        lemma_unify_below(s, t, b, under, g);
                    },
                    None => match b {
                        TermView::Var(w) => {
                            lemma_lookup_below(s, w, 0, g);
                            match lookup(s, w) {
                                Some(u) => {
                                    lemma_unify_below(s, a, u, under, g);
                                },
                                None => {},
                            }
                        },
                        _ => {},
                    },
                }
            },
            _ => match b {
                TermView::Var(w) => {
                    lemma_lookup_below(s, w, 0, g);
                    match lookup(s, w) {
                        Some(u) => {
                            lemma_unify_below(s, a, u, under, g);
                        },
                        None => {},
                    }
                },
                TermView::Atom(_) => {},
                TermView::Compound(_, ys) => match a {
                    TermView::Compound(_, xs) => {
                        crate::term::lemma_max_ceiling(xs);
                        crate::term::lemma_max_ceiling(ys);
                        lemma_unify_all_below(s, xs, ys, 0, under, g);
                    },
                    _ => {},
                },
            },
        }
    }
}

/// The same, for argument lists.
pub proof fn lemma_unify_all_below(
    s: SubstView,
    xs: Seq<TermView>,
    ys: Seq<TermView>,
    from: int,
    depth: nat,
    g: nat,
)
    requires
        below(s, g),
        forall|i: int| 0 <= i < xs.len() ==> (#[trigger] xs[i]).ceiling() <= g,
        forall|i: int| 0 <= i < ys.len() ==> (#[trigger] ys[i]).ceiling() <= g,
    ensures
        unify_all(s, xs, ys, from, depth) matches Ok(Some(longer)) ==> below(longer, g),
    decreases depth, 1 + xs.len() - from,
{
    if 0 <= from < xs.len() && from < ys.len() {
        lemma_unify_below(s, xs[from], ys[from], depth, g);
        match unify(s, xs[from], ys[from], depth) {
            Ok(Some(middle)) => {
                lemma_unify_all_below(middle, xs, ys, from + 1, depth, g);
            },
            _ => {},
        }
    }
}

} // verus!
