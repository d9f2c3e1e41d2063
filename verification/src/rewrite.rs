//! Rewriting a term to normal form with the clauses that rules compile to.
//!
//! One rewrite replaces one subterm. The term as a whole is tried first,
//! then the arguments from left to right, each in the same way. A subterm
//! `t` is rewritten by an answer to the goal `->(t, R)`, where `R` is a
//! variable that `t` does not hold: the new subterm is what the answer makes
//! of `R`. To rewrite is to match, so the variables of `t` stand for
//! themselves: the answer that counts is the first that binds none of them.
//! A term that no rewrite applies to is in normal form.

use crate::codegen::relation;
use crate::engine::{advance, initial, lemma_advance, Engine, SolverView};
use crate::limits::{EngineError, Limits};
use crate::term::{
    lemma_argument_decreases, lemma_ceiling_bounds, lemma_max_ceiling_push, lemma_view_compound,
    term_views, ClauseView, Term, TermView, VarView, Variable,
};
use crate::unify::{binds_none_of, resolve, term_result_view, SubstView};
use vstd::prelude::*;

verus! {

/// The variable that stands for the result of rewriting `t`: one of a
/// generation above every variable of `t`.
pub open spec fn result_var(t: TermView) -> VarView {
    VarView { name: Seq::empty(), generation: t.ceiling() as u64 }
}

/// The goal that asks what `t` rewrites to.
pub open spec fn rewrite_goal(t: TermView) -> TermView {
    TermView::Compound(relation(), seq![t, TermView::Var(result_var(t))])
}

/// The first answer of the search from `m`, within `steps` steps in all,
/// that binds no variable of `t`.
pub open spec fn first_match(
    db: Seq<ClauseView>,
    m: SolverView,
    t: TermView,
    depth: nat,
    steps: nat,
) -> Result<Option<SubstView>, EngineError>
    decreases steps,
{
    let found = advance(db, m, depth, steps);
    match found.outcome {
        Err(e) => Err(e),
        Ok(None) => Ok(None),
        Ok(Some(s)) => if binds_none_of(s, t) {
            Ok(Some(s))
        } else {
            proof {
                lemma_advance(db, m, depth, steps);
            }
            first_match(db, found.state, t, depth, found.left)
        },
    }
}

/// What the term as a whole rewrites to by the clauses `db`: what the first
/// answer to its goal that binds none of its variables makes of the result
/// variable, if there is such an answer.
pub open spec fn rewrite_root(db: Seq<ClauseView>, module: nat, t: TermView, limits: Limits) -> Result<
    Option<TermView>,
    EngineError,
> {
    if t.ceiling() >= u64::MAX {
        Err(EngineError::VariableSupply)
    } else {
        match first_match(
            db,
            initial(module, rewrite_goal(t)),
            t,
            limits.depth as nat,
            limits.steps as nat,
        ) {
            Err(e) => Err(e),
            Ok(None) => Ok(None),
            Ok(Some(s)) => match resolve(s, TermView::Var(result_var(t)), limits.depth as nat) {
                Ok(u) => Ok(Some(u)),
                Err(e) => Err(e),
            },
        }
    }
}

/// The number of arguments of a compound term, zero for any other.
pub open spec fn arity(t: TermView) -> nat {
    match t {
        TermView::Compound(_, args) => args.len(),
        _ => 0,
    }
}

/// The term after one rewrite, `Ok(None)` when none applies: the term as
/// a whole is tried first, then its arguments from left to right.
pub open spec fn rewrite(db: Seq<ClauseView>, module: nat, t: TermView, limits: Limits) -> Result<
    Option<TermView>,
    EngineError,
>
    decreases t, arity(t) + 1,
{
    match rewrite_root(db, module, t, limits) {
        Err(e) => Err(e),
        Ok(Some(u)) => Ok(Some(u)),
        Ok(None) => rewrite_args(db, module, t, 0, limits),
    }
}

/// The term after one rewrite in the first of its arguments, from index
/// `from` on, that a rewrite applies to.
pub open spec fn rewrite_args(
    db: Seq<ClauseView>,
    module: nat,
    t: TermView,
    from: int,
    limits: Limits,
) -> Result<Option<TermView>, EngineError>
    decreases t, arity(t) - from,
{
    match t {
        TermView::Compound(f, args) => if 0 <= from < args.len() {
            match rewrite(db, module, args[from], limits) {
                Err(e) => Err(e),
                Ok(Some(u)) => Ok(Some(TermView::Compound(f, args.update(from, u)))),
                Ok(None) => rewrite_args(db, module, t, from + 1, limits),
            }
        } else {
            Ok(None)
        },
        _ => Ok(None),
    }
}

/// The normal form of `t`: the term that rewriting leads to when no further
/// rewrite applies, if at most `rewrites` rewrites lead there.
pub open spec fn normal_form(
    db: Seq<ClauseView>,
    module: nat,
    t: TermView,
    limits: Limits,
    rewrites: nat,
) -> Result<TermView, EngineError>
    decreases rewrites,
{
    match rewrite(db, module, t, limits) {
        Err(e) => Err(e),
        Ok(None) => Ok(t),
        Ok(Some(u)) => if rewrites == 0 {
            Err(EngineError::RewriteLimit)
        } else {
            normal_form(db, module, u, limits, (rewrites - 1) as nat)
        },
    }
}

/// The model of an optional term or an error.
pub open spec fn rewritten_view(r: Result<Option<Term>, EngineError>) -> Result<
    Option<TermView>,
    EngineError,
> {
    match r {
        Ok(Some(t)) => Ok(Some(t@)),
        Ok(None) => Ok(None),
        Err(e) => Err(e),
    }
}

/// A normal form is a term that no rewrite applies to.
pub proof fn lemma_normal_form_is_normal(
    db: Seq<ClauseView>,
    module: nat,
    t: TermView,
    limits: Limits,
    rewrites: nat,
)
    ensures
        normal_form(db, module, t, limits, rewrites) matches Ok(nf) ==> rewrite(
            db,
            module,
            nf,
            limits,
        ) == Ok::<Option<TermView>, EngineError>(None),
    decreases rewrites,
{
    match rewrite(db, module, t, limits) {
        Ok(Some(u)) => {
            if rewrites > 0 {
                lemma_normal_form_is_normal(db, module, u, limits, (rewrites - 1) as nat);
            }
        },
        _ => {},
    }
}

/// The result variable of a term does not occur in the term.
pub proof fn lemma_result_var_is_new(t: TermView)
    requires
        t.ceiling() <= u64::MAX,
    ensures
        !t.occurs(result_var(t)),
{
    if t.occurs(result_var(t)) {
        lemma_ceiling_bounds(t, result_var(t));
    }
}

/// The goal for `t` holds variables up to the generation of its result
/// variable.
pub proof fn lemma_rewrite_goal_ceiling(t: TermView)
    requires
        t.ceiling() < u64::MAX,
    ensures
        rewrite_goal(t).ceiling() == t.ceiling() + 1,
{
    let r = TermView::Var(result_var(t));
    let args = seq![t, r];
    assert(rewrite_goal(t)->Compound_1 == args);
    lemma_max_ceiling_push(Seq::empty(), t);
    lemma_max_ceiling_push(seq![t], r);
    assert(Seq::<TermView>::empty().push(t) =~= seq![t]);
    assert(seq![t].push(r) =~= args);
}

/// The compound term of functor `f` and arguments `args`, but for the one at
/// index `at`, which is `u`.
fn replace_argument(f: &Vec<u8>, args: &Vec<Term>, at: usize, u: Term) -> (t: Term)
    requires
        at < args.len(),
    ensures
        t@ == TermView::Compound(f@, term_views(args@).update(at as int, u@)),
{
    let mut replaced: Vec<Term> = Vec::new();
    let mut i: usize = 0;
    while i < at
        invariant
            i <= at < args.len(),
            replaced.len() == i,
            forall|j: int| 0 <= j < i ==> replaced@[j]@ == args@[j]@,
        decreases at - i,
    {
        replaced.push(args[i].duplicate());
        i += 1;
    }
    replaced.push(u);
    i += 1;
    while i < args.len()
        invariant
            at < i <= args.len(),
            replaced.len() == i,
            replaced@[at as int]@ == u@,
            forall|j: int| 0 <= j < i && j != at ==> replaced@[j]@ == args@[j]@,
        decreases args.len() - i,
    {
        replaced.push(args[i].duplicate());
        i += 1;
    }
    let functor = f.clone();
    proof {
        lemma_view_compound(functor, replaced);
        assert(term_views(replaced@) =~= term_views(args@).update(at as int, u@));
    }
    Term::Compound(functor, replaced)
}

impl Engine {
    /// Rewrites the term as a whole, by the first answer to its goal in the
    /// given module.
    pub fn rewrite_root(&self, module: usize, t: &Term, limits: &Limits) -> (r: Result<
        Option<Term>,
        EngineError,
    >)
        ensures
            module >= self@.modules.len() ==> r == Err::<Option<Term>, EngineError>(
                EngineError::UnknownModule,
            ),
            module < self@.modules.len() ==> rewritten_view(r) == rewrite_root(
                self@.modules[module as int].clauses,
                module as nat,
                t@,
                *limits,
            ),
    {
        if module >= self.module_count() {
            return Err(EngineError::UnknownModule);
        }
        let generation = match t.ceiling() {
            Some(c) => c,
            None => {
                return Err(EngineError::VariableSupply);
            },
        };
        if generation == u64::MAX {
            return Err(EngineError::VariableSupply);
        }
        let result = Term::Var(Variable { name: Vec::new(), generation });
        assert(result@ == TermView::Var(result_var(t@))) by {
            assert(result@->Var_0.name =~= Seq::<u8>::empty());
        }
        let mut functor: Vec<u8> = Vec::new();
        functor.push(45u8);
        functor.push(62u8);
        let mut args: Vec<Term> = Vec::new();
        args.push(t.duplicate());
        args.push(result.duplicate());
        proof {
            lemma_view_compound(functor, args);
            assert(functor@ =~= relation());
            assert(term_views(args@) =~= seq![t@, result@]);
            lemma_rewrite_goal_ceiling(t@);
        }
        let goal = Term::Compound(functor, args);
        let mut solver = match self.query(module, &goal) {
            Ok(solver) => solver,
            Err(e) => {
                return Err(e);
            },
        };
        let ghost db = self@.modules[module as int].clauses;
        let ghost start = solver@;
        let mut left = limits.steps;
        loop
            invariant
                module < self@.modules.len(),
                solver@.module == module,
                db == self@.modules[module as int].clauses,
                first_match(db, start, t@, limits.depth as nat, limits.steps as nat) == first_match(
                    db,
                    solver@,
                    t@,
                    limits.depth as nat,
                    left as nat,
                ),
                result@ == TermView::Var(result_var(t@)),
                t@.ceiling() < u64::MAX,
                start == initial(module as nat, rewrite_goal(t@)),
            decreases left,
        {
            proof {
                lemma_advance(db, solver@, limits.depth as nat, left as nat);
            }
            let (outcome, remaining) = solver.next_within(self, limits.depth, left);
            match outcome {
                Err(e) => {
                    return Err(e);
                },
                Ok(None) => {
                    return Ok(None);
                },
                Ok(Some(s)) => {
                    if s.leaves(t) {
                        return match s.resolve(&result, limits.depth) {
                            Ok(u) => Ok(Some(u)),
                            Err(e) => Err(e),
                        };
                    }
                },
            }
            left = remaining;
        }
    }

    /// Makes one rewrite in the term: of the term as a whole if one applies,
    /// else in the first argument, from left to right, that one applies to.
    /// Returns `Ok(None)` when the term is in normal form.
    pub fn rewrite(&self, module: usize, t: &Term, limits: &Limits) -> (r: Result<
        Option<Term>,
        EngineError,
    >)
        ensures
            module >= self@.modules.len() ==> r == Err::<Option<Term>, EngineError>(
                EngineError::UnknownModule,
            ),
            module < self@.modules.len() ==> rewritten_view(r) == rewrite(
                self@.modules[module as int].clauses,
                module as nat,
                t@,
                *limits,
            ),
        decreases t,
    {
        match self.rewrite_root(module, t, limits) {
            Err(e) => {
                return Err(e);
            },
            Ok(Some(u)) => {
                return Ok(Some(u));
            },
            Ok(None) => {},
        }
        match t {
            Term::Compound(f, args) => {
                proof {
                    lemma_view_compound(*f, *args);
                    assert(t@->Compound_1 == term_views(args@));
                }
                let ghost db = self@.modules[module as int].clauses;
                let mut i: usize = 0;
                while i < args.len()
                    invariant
                        i <= args.len(),
                        module < self@.modules.len(),
                        db == self@.modules[module as int].clauses,
                        *t == Term::Compound(*f, *args),
                        t@ == TermView::Compound(f@, term_views(args@)),
                        rewrite(db, module as nat, t@, *limits) == rewrite_args(
                            db,
                            module as nat,
                            t@,
                            i as int,
                            *limits,
                        ),
                    decreases args.len() - i,
                {
                    proof {
                        lemma_argument_decreases(*t, i as int);
                        assert(term_views(args@)[i as int] == args@[i as int]@);
                    }
                    match self.rewrite(module, &args[i], limits) {
                        Err(e) => {
                            return Err(e);
                        },
                        Ok(Some(u)) => {
                            let replaced = replace_argument(f, args, i, u);
                            return Ok(Some(replaced));
                        },
                        Ok(None) => {},
                    }
                    i += 1;
                }
                Ok(None)
            },
            _ => Ok(None),
        }
    }

    /// Rewrites the term until no rewrite applies, making at most
    /// `limits.rewrites` rewrites, and returns the normal form.
    pub fn normalize(&self, module: usize, t: &Term, limits: &Limits) -> (r: Result<
        Term,
        EngineError,
    >)
        ensures
            module >= self@.modules.len() ==> r == Err::<Term, EngineError>(
                EngineError::UnknownModule,
            ),
            module < self@.modules.len() ==> term_result_view(r) == normal_form(
                self@.modules[module as int].clauses,
                module as nat,
                t@,
                *limits,
                limits.rewrites as nat,
            ),
            r matches Ok(nf) ==> rewrite(
                self@.modules[module as int].clauses,
                module as nat,
                nf@,
                *limits,
            ) == Ok::<Option<TermView>, EngineError>(None),
    {
        if module >= self.module_count() {
            return Err(EngineError::UnknownModule);
        }
        let ghost db = self@.modules[module as int].clauses;
        let mut current = t.duplicate();
        let mut left = limits.rewrites;
        loop
            invariant
                module < self@.modules.len(),
                db == self@.modules[module as int].clauses,
                normal_form(db, module as nat, t@, *limits, limits.rewrites as nat) == normal_form(
                    db,
                    module as nat,
                    current@,
                    *limits,
                    left as nat,
                ),
            decreases left,
        {
            match self.rewrite(module, &current, limits) {
                Err(e) => {
                    return Err(e);
                },
                Ok(None) => {
                    return Ok(current);
                },
                Ok(Some(u)) => {
                    if left == 0 {
                        return Err(EngineError::RewriteLimit);
                    }
                    current = u;
                    left = left - 1;
                },
            }
        }
    }
}

} // verus!
