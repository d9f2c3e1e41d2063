//! The resolution engine: modules of clauses, and the search that answers a
//! goal from them.
//!
//! The search is SLD resolution. It keeps a stack of choice points. Each
//! holds the goals still to prove, the substitution reached so far, and the
//! index of the next clause to try on its first goal. One step takes the
//! choice point on top. If it has no goal left, its substitution is an
//! answer. If it has no clause left, it is dropped, which undoes everything
//! that was bound above it. Otherwise the next clause is renamed apart and
//! its head is unified with the first goal; on success a new choice point
//! goes on top, with the clause's body in front of the remaining goals.
//! Clauses are tried in the order in which the module stores them.

use crate::limits::{EngineError, Limits};
use crate::term::{
    clause_views, lemma_ceiling_bounds, lemma_with_generation_ceiling,
    lemma_with_generation_occurs, term_views, Clause, ClauseView, Term, TermView, VarView,
};
use crate::unify::{below, lemma_unify_below, unified_view, unify, SubstView, Substitution};
use std::collections::VecDeque;
use vstd::prelude::*;

verus! {

/// The end of a module's clause list at which a clause is inserted.
#[derive(Debug, Clone, Copy, PartialEq, Eq, Hash, Structural)]
pub enum Position {
    First,
    Last,
}

/// The model of a module: its name and its clauses in stored order.
pub struct ModuleView {
    pub name: Seq<u8>,
    pub clauses: Seq<ClauseView>,
}

/// The model of an engine.
pub struct EngineView {
    pub modules: Seq<ModuleView>,
    pub next_generation: u64,
}

impl EngineView {
    /// The engine after `clause` was inserted into module `module`.
    pub open spec fn inserted(self, clause: ClauseView, module: int, position: Position) -> EngineView {
        let m = self.modules[module];
        let clauses = match position {
            Position::First => seq![clause] + m.clauses,
            Position::Last => m.clauses.push(clause),
        };
        EngineView {
            modules: self.modules.update(module, ModuleView { name: m.name, clauses }),
            next_generation: self.next_generation,
        }
    }
}

/// A named, ordered list of clauses.
pub struct Module {
    name: Vec<u8>,
    clauses: VecDeque<Clause>,
}

impl View for Module {
    type V = ModuleView;

    closed spec fn view(&self) -> ModuleView {
        ModuleView { name: self.name@, clauses: clause_views(self.clauses@) }
    }
}

/// The clause database. Clauses are added and never removed.
pub struct Engine {
    modules: Vec<Module>,
    next_generation: u64,
}

impl View for Engine {
    type V = EngineView;

    closed spec fn view(&self) -> EngineView {
        EngineView {
            modules: Seq::new(self.modules@.len(), |i: int| self.modules@[i]@),
            next_generation: self.next_generation,
        }
    }
}

/// The model of a choice point.
pub struct FrameView {
    pub goals: Seq<TermView>,
    pub subst: SubstView,
    pub next_clause: nat,
}

/// The model of a search in progress.
pub struct SolverView {
    pub module: nat,
    pub stack: Seq<FrameView>,
    pub generation: u64,
}

/// What one step of the search does.
pub enum Step {
    /// The search goes on from the given state.
    Moved(SolverView),
    /// An answer was found; the search can go on from the given state.
    Answer(SolverView, SubstView),
    /// The step could not be made; the state is as it was.
    Fault(EngineError),
}

/// The search as it stands before the first step on `goal`.
pub open spec fn initial(module: nat, goal: TermView) -> SolverView {
    SolverView {
        module,
        stack: seq![FrameView { goals: seq![goal], subst: Seq::empty(), next_clause: 0 }],
        generation: goal.ceiling() as u64,
    }
}

/// One step of the search over the clauses `db`, from a state whose stack is
/// not empty.
pub open spec fn step(db: Seq<ClauseView>, m: SolverView, depth: nat) -> Step
    recommends
        m.stack.len() > 0,
{
    let top = m.stack.last();
    let below = m.stack.drop_last();
    if top.goals.len() == 0 {
        Step::Answer(SolverView { stack: below, ..m }, top.subst)
    } else if top.next_clause >= db.len() {
        Step::Moved(SolverView { stack: below, ..m })
    } else if m.generation == u64::MAX {
        Step::Fault(EngineError::VariableSupply)
    } else {
        let clause = db[top.next_clause as int].with_generation(m.generation);
        let retry = FrameView { next_clause: top.next_clause + 1, ..top };
        let generation = (m.generation + 1) as u64;
        match unify(top.subst, top.goals[0], clause.head, depth) {
            Err(e) => Step::Fault(e),
            Ok(None) => Step::Moved(SolverView { stack: below.push(retry), generation, ..m }),
            Ok(Some(s)) => Step::Moved(
                SolverView {
                    stack: below.push(retry).push(
                        FrameView {
                            goals: clause.body + top.goals.skip(1),
                            subst: s,
                            next_clause: 0,
                        },
                    ),
                    generation,
                    ..m
                },
            ),
        }
    }
}

/// Where a run of the search ends.
pub struct Advance {
    /// The state reached.
    pub state: SolverView,
    /// An answer, `Ok(None)` at the end of the search, or an error.
    pub outcome: Result<Option<SubstView>, EngineError>,
    /// How many of the steps allowed were not made.
    pub left: nat,
}

/// The search run from `m` until the next answer, the end of the search, a
/// fault, or the end of the `steps` allowed. The outcome is, in order of
/// preference, `Ok(None)` where the stack is empty, `Err(StepLimit)` where
/// no step is left, and else what the next step gives.
pub open spec fn advance(db: Seq<ClauseView>, m: SolverView, depth: nat, steps: nat) -> Advance
    decreases steps,
{
    if m.stack.len() == 0 {
        Advance { state: m, outcome: Ok(None), left: steps }
    } else if steps == 0 {
        Advance { state: m, outcome: Err(EngineError::StepLimit), left: 0 }
    } else {
        match step(db, m, depth) {
            Step::Moved(next) => advance(db, next, depth, (steps - 1) as nat),
            Step::Answer(next, s) => Advance {
                state: next,
                outcome: Ok(Some(s)),
                left: (steps - 1) as nat,
            },
            Step::Fault(e) => Advance { state: m, outcome: Err(e), left: steps },
        }
    }
}

/// The first `max` answers of the search from `m`, each found within
/// `steps` steps, or the first error met on the way.
pub open spec fn answers(db: Seq<ClauseView>, m: SolverView, depth: nat, steps: nat, max: nat) -> Result<
    Seq<SubstView>,
    EngineError,
>
    decreases max,
{
    if max == 0 {
        Ok(Seq::empty())
    } else {
        let found = advance(db, m, depth, steps);
        match found.outcome {
            Err(e) => Err(e),
            Ok(None) => Ok(Seq::empty()),
            Ok(Some(s)) => match answers(db, found.state, depth, steps, (max - 1) as nat) {
                Err(e) => Err(e),
                Ok(rest) => Ok(seq![s] + rest),
            },
        }
    }
}

/// A run of the search stays on the module that it was started on, makes
/// no more steps than it is allowed, and spends at least one on an answer.
pub proof fn lemma_advance(db: Seq<ClauseView>, m: SolverView, depth: nat, steps: nat)
    ensures
        advance(db, m, depth, steps).state.module == m.module,
        advance(db, m, depth, steps).left <= steps,
        advance(db, m, depth, steps).outcome matches Ok(Some(_)) ==> advance(
            db,
            m,
            depth,
            steps,
        ).left < steps,
    decreases steps,
{
    if m.stack.len() > 0 && steps > 0 {
        match step(db, m, depth) {
            Step::Moved(next) => {
                lemma_advance(db, next, depth, (steps - 1) as nat);
            },
            _ => {},
        }
    }
}

/// The state `m` with the choice points `base` under its own.
pub open spec fn over(base: Seq<FrameView>, m: SolverView) -> SolverView {
    SolverView { stack: base + m.stack, ..m }
}

/// One step with choice points underneath is the same step without them:
/// it reads and changes the top of the stack only.
pub proof fn lemma_step_over(db: Seq<ClauseView>, base: Seq<FrameView>, m: SolverView, depth: nat)
    requires
        m.stack.len() > 0,
    ensures
        step(db, over(base, m), depth) == match step(db, m, depth) {
            Step::Moved(next) => Step::Moved(over(base, next)),
            Step::Answer(next, s) => Step::Answer(over(base, next), s),
            Step::Fault(e) => Step::Fault(e),
        },
{
    let top = m.stack.last();
    let below = m.stack.drop_last();
    assert((base + m.stack).last() == top);
    assert((base + m.stack).drop_last() =~= base + below);
    let retry = FrameView { next_clause: top.next_clause + 1, ..top };
    assert((base + below).push(retry) =~= base + below.push(retry));
    if top.goals.len() > 0 && top.next_clause < db.len() && m.generation != u64::MAX {
        let clause = db[top.next_clause as int].with_generation(m.generation);
        match unify(top.subst, top.goals[0], clause.head, depth) {
            Ok(Some(s)) => {
                let child = FrameView {
                    goals: clause.body + top.goals.skip(1),
                    subst: s,
                    next_clause: 0,
                };
                assert((base + below).push(retry).push(child) =~= base + below.push(retry).push(
                    child,
                ));
            },
            _ => {},
        }
    }
}

/// The search works on the top of its stack and leaves what lies under it
/// alone until everything above is used up. A run over `base` is the run
/// without `base` for as long as that finds an answer or fails; where that
/// comes to its end, the run goes on from `base` with the steps that are
/// left.
pub proof fn lemma_advance_over(
    db: Seq<ClauseView>,
    base: Seq<FrameView>,
    m: SolverView,
    depth: nat,
    steps: nat,
)
    ensures
        advance(db, over(base, m), depth, steps) == {
            let alone = advance(db, m, depth, steps);
            if alone.outcome == Ok::<Option<SubstView>, EngineError>(None) {
                advance(db, over(base, alone.state), depth, alone.left)
            } else {
                Advance { state: over(base, alone.state), ..alone }
            }
        },
    decreases steps,
{
    if m.stack.len() == 0 {
    } else if steps == 0 {
    } else {
        lemma_step_over(db, base, m, depth);
        match step(db, m, depth) {
            Step::Moved(next) => {
                lemma_advance_over(db, base, next, depth, (steps - 1) as nat);
            },
            Step::Answer(next, s) => {},
            Step::Fault(e) => {},
        }
    }
}

/// The choice point that clause `frame.next_clause` opens on `frame` when
/// its head, renamed to `generation`, unified with the first goal to give
/// `s`.
pub open spec fn opened(db: Seq<ClauseView>, frame: FrameView, generation: u64, s: SubstView) -> FrameView {
    FrameView {
        goals: db[frame.next_clause as int].with_generation(generation).body + frame.goals.skip(1),
        subst: s,
        next_clause: 0,
    }
}

/// Clauses are tried in stored order, and an earlier clause is done with
/// before a later one is looked at.
///
/// Let the choice point on top have a goal and stand at a clause whose head
/// unifies with that goal. Then the search first runs the choice point that
/// this clause opens, as if nothing lay under it: each answer that it finds
/// is the next answer of the whole search, and each error the next error.
/// Only when that choice point has no answer left does the search return to
/// the choice point that opened it, now standing at the clause after.
pub proof fn lemma_clause_order(
    db: Seq<ClauseView>,
    module: nat,
    below: Seq<FrameView>,
    frame: FrameView,
    generation: u64,
    s: SubstView,
    depth: nat,
    steps: nat,
)
    requires
        steps > 0,
        frame.goals.len() > 0,
        frame.next_clause < db.len(),
        generation < u64::MAX,
        unify(
            frame.subst,
            frame.goals[0],
            db[frame.next_clause as int].with_generation(generation).head,
            depth,
        ) == Ok::<Option<SubstView>, EngineError>(Some(s)),
    ensures
        advance(db, SolverView { module, stack: below.push(frame), generation }, depth, steps) == {
            let later = below.push(FrameView { next_clause: frame.next_clause + 1, ..frame });
            let through = advance(
                db,
                SolverView {
                    module,
                    stack: seq![opened(db, frame, generation, s)],
                    generation: (generation + 1) as u64,
                },
                depth,
                (steps - 1) as nat,
            );
            if through.outcome == Ok::<Option<SubstView>, EngineError>(None) {
                advance(db, over(later, through.state), depth, through.left)
            } else {
                Advance { state: over(later, through.state), ..through }
            }
        },
{
    let later = below.push(FrameView { next_clause: frame.next_clause + 1, ..frame });
    let start = SolverView { module, stack: below.push(frame), generation };
    let child = SolverView {
        module,
        stack: seq![opened(db, frame, generation, s)],
        generation: (generation + 1) as u64,
    };
    assert(below.push(frame).drop_last() =~= below);
    assert(later.push(opened(db, frame, generation, s)) =~= later + child.stack);
    assert(step(db, start, depth) == Step::Moved(over(later, child)));
    lemma_advance_over(db, later, child, depth, (steps - 1) as nat);
}

impl EngineView {
    /// A clause inserted first is the first of its module, and one inserted
    /// last is the last: of two clauses inserted at the two ends, the one
    /// inserted first is tried before the other, whatever the order in which
    /// the two were inserted.
    pub proof fn lemma_inserted_ends(self, clause: ClauseView, module: int)
        requires
            0 <= module < self.modules.len(),
        ensures
            self.inserted(clause, module, Position::First).modules[module].clauses.first()
                == clause,
            self.inserted(clause, module, Position::Last).modules[module].clauses.last() == clause,
            self.inserted(clause, module, Position::First).modules[module].clauses.skip(1)
                == self.modules[module].clauses,
            self.inserted(clause, module, Position::Last).modules[module].clauses.drop_last()
                == self.modules[module].clauses,
    {
        let old_clauses = self.modules[module].clauses;
        assert((seq![clause] + old_clauses).skip(1) =~= old_clauses);
        assert(old_clauses.push(clause).drop_last() =~= old_clauses);
    }
}

/// Of two clauses that were inserted into a module, one first and one last,
/// in either order, the one inserted first is the one that a search tries
/// first. Where its head unifies with the goal, the search runs the choice
/// point that it opens to its end, handing out each answer found through
/// it, before it looks at any later clause; and the clause inserted last is
/// the latest of them all.
#[verifier::rlimit(40)]
pub proof fn lemma_first_before_last(
    e: EngineView,
    module: int,
    first: ClauseView,
    last: ClauseView,
    goal: TermView,
    s: SubstView,
    depth: nat,
    steps: nat,
)
    requires
        0 <= module < e.modules.len(),
        steps > 0,
        goal.ceiling() < u64::MAX,
        unify(Seq::empty(), goal, first.with_generation(goal.ceiling() as u64).head, depth) == Ok::<
            Option<SubstView>,
            EngineError,
        >(Some(s)),
    ensures
        ({
            let both = e.inserted(first, module, Position::First).inserted(
                last,
                module,
                Position::Last,
            );
            let db = both.modules[module].clauses;
            let start = initial(module as nat, goal);
            let later = seq![FrameView { next_clause: 1, ..start.stack[0] }];
            let through = advance(
                db,
                SolverView {
                    module: module as nat,
                    stack: seq![opened(db, start.stack[0], start.generation, s)],
                    generation: (start.generation + 1) as u64,
                },
                depth,
                (steps - 1) as nat,
            );
            &&& both == e.inserted(last, module, Position::Last).inserted(
                first,
                module,
                Position::First,
            )
            &&& db.len() >= 2
            &&& db.first() == first
            &&& db.last() == last
            &&& advance(db, start, depth, steps) == if through.outcome == Ok::<
                Option<SubstView>,
                EngineError,
            >(None) {
                advance(db, over(later, through.state), depth, through.left)
            } else {
                Advance { state: over(later, through.state), ..through }
            }
        }),
{
    let one = e.inserted(first, module, Position::First);
    let both = one.inserted(last, module, Position::Last);
    let other = e.inserted(last, module, Position::Last).inserted(first, module, Position::First);
    let old_clauses = e.modules[module].clauses;
    let db = both.modules[module].clauses;
    assert(db =~= (seq![first] + old_clauses).push(last));
    assert(other.modules[module].clauses =~= db);
    assert(other.modules =~= both.modules);
    let start = initial(module as nat, goal);
    assert(Seq::<FrameView>::empty().push(start.stack[0]) =~= start.stack);
    assert(Seq::<FrameView>::empty().push(FrameView { next_clause: 1, ..start.stack[0] }) =~= seq![
        FrameView { next_clause: 1, ..start.stack[0] },
    ]);
    lemma_clause_order(
        db,
        module as nat,
        Seq::empty(),
        start.stack[0],
        start.generation,
        s,
        depth,
        steps,
    );
}

/// Whether every variable of the choice point is of a generation below
/// `g`.
pub open spec fn frame_below(f: FrameView, g: nat) -> bool {
    below(f.subst, g) && forall|i: int| 0 <= i < f.goals.len() ==> (#[trigger] f.goals[i]).ceiling() <= g
}

/// Whether the search has kept its generations apart: every variable of
/// every choice point is of a generation below the one that the next clause
/// will be renamed to.
pub open spec fn apart(m: SolverView) -> bool {
    forall|i: int| 0 <= i < m.stack.len() ==> frame_below(#[trigger] m.stack[i], m.generation as nat)
}

/// A search starts with its generations apart.
pub proof fn lemma_initial_apart(module: nat, goal: TermView)
    requires
        goal.ceiling() <= u64::MAX,
    ensures
        apart(initial(module, goal)),
{
}

/// A step keeps the generations apart, and so does an answer: it binds no
/// variable of a generation that a later clause will be renamed to.
#[verifier::rlimit(40)]
pub proof fn lemma_step_apart(db: Seq<ClauseView>, m: SolverView, depth: nat)
    requires
        apart(m),
        m.stack.len() > 0,
    ensures
        match step(db, m, depth) {
            Step::Moved(next) => apart(next),
            Step::Answer(next, s) => apart(next) && below(s, next.generation as nat),
            Step::Fault(_) => true,
        },
{
    let top = m.stack.last();
    let under = m.stack.drop_last();
    let g = m.generation as nat;
    assert(frame_below(top, g));
    assert forall|i: int| 0 <= i < under.len() implies frame_below(#[trigger] under[i], g) by {
        assert(under[i] == m.stack[i]);
    }
    if top.goals.len() > 0 && top.next_clause < db.len() && m.generation != u64::MAX {
        let clause = db[top.next_clause as int].with_generation(m.generation);
        let retry = FrameView { next_clause: top.next_clause + 1, ..top };
        lemma_with_generation_ceiling(db[top.next_clause as int].head, m.generation);
        assert(top.goals[0].ceiling() <= g);
        lemma_unify_below(top.subst, top.goals[0], clause.head, depth, g + 1);
        match unify(top.subst, top.goals[0], clause.head, depth) {
            Ok(Some(s)) => {
                let child = FrameView {
                    goals: clause.body + top.goals.skip(1),
                    subst: s,
                    next_clause: 0,
                };
                assert forall|i: int| 0 <= i < child.goals.len() implies (
                #[trigger] child.goals[i]).ceiling() <= g + 1 by {
                    if i < clause.body.len() {
                        lemma_with_generation_ceiling(
                            db[top.next_clause as int].body[i],
                            m.generation,
                        );
                    } else {
                        assert(child.goals[i] == top.goals[i - clause.body.len() + 1]);
                    }
                }
                let stack = under.push(retry).push(child);
                assert forall|i: int| 0 <= i < stack.len() implies frame_below(
                    #[trigger] stack[i],
                    g + 1,
                ) by {
                    if i < under.len() {
                        assert(stack[i] == under[i]);
                    }
                }
            },
            Ok(None) => {
                let stack = under.push(retry);
                assert forall|i: int| 0 <= i < stack.len() implies frame_below(
                    #[trigger] stack[i],
                    g + 1,
                ) by {
                    if i < under.len() {
                        assert(stack[i] == under[i]);
                    }
                }
            },
            Err(_) => {},
        }
    }
}

/// A run of the search keeps the generations apart.
pub proof fn lemma_advance_apart(db: Seq<ClauseView>, m: SolverView, depth: nat, steps: nat)
    requires
        apart(m),
    ensures
        apart(advance(db, m, depth, steps).state),
        advance(db, m, depth, steps).outcome matches Ok(Some(s)) ==> below(
            s,
            advance(db, m, depth, steps).state.generation as nat,
        ),
    decreases steps,
{
    if m.stack.len() > 0 && steps > 0 {
        lemma_step_apart(db, m, depth);
        match step(db, m, depth) {
            Step::Moved(next) => {
                lemma_advance_apart(db, next, depth, (steps - 1) as nat);
            },
            _ => {},
        }
    }
}

/// A clause is renamed apart from the choice point that it is tried on: no
/// variable of the renamed clause occurs in a goal of the choice point, or
/// is bound by its substitution, or occurs in a term that it binds.
pub proof fn lemma_renamed_apart(m: SolverView, clause: ClauseView, v: VarView)
    requires
        apart(m),
        m.stack.len() > 0,
        clause.with_generation(m.generation).occurs(v),
    ensures
        v.generation == m.generation,
        forall|i: int|
            0 <= i < m.stack.last().goals.len() ==> !(#[trigger] m.stack.last().goals[i]).occurs(v),
        forall|i: int|
            0 <= i < m.stack.last().subst.len() ==> (#[trigger] m.stack.last().subst[i]).0 != v
                && !m.stack.last().subst[i].1.occurs(v),
{
    let top = m.stack.last();
    let renamed = clause.with_generation(m.generation);
    if renamed.head.occurs(v) {
        lemma_with_generation_occurs(clause.head, m.generation, v);
    } else {
        let j = choose|j: int| 0 <= j < renamed.body.len() && (#[trigger] renamed.body[j]).occurs(v);
        lemma_with_generation_occurs(clause.body[j], m.generation, v);
    }
    assert(frame_below(top, m.generation as nat));
    assert forall|i: int| 0 <= i < top.goals.len() implies !(#[trigger] top.goals[i]).occurs(v) by {
        if top.goals[i].occurs(v) {
            lemma_ceiling_bounds(top.goals[i], v);
        }
    }
    assert forall|i: int| 0 <= i < top.subst.len() implies (#[trigger] top.subst[i]).0 != v
        && !top.subst[i].1.occurs(v) by {
        if top.subst[i].1.occurs(v) {
            lemma_ceiling_bounds(top.subst[i].1, v);
        }
    }
}

/// A choice point of a search.
struct Frame {
    goals: Vec<Term>,
    subst: Substitution,
    next_clause: usize,
}

impl View for Frame {
    type V = FrameView;

    closed spec fn view(&self) -> FrameView {
        FrameView {
            goals: term_views(self.goals@),
            subst: self.subst@,
            next_clause: self.next_clause as nat,
        }
    }
}

/// A search in progress. It hands out its answers one at a time, so a caller
/// may stop after the first or go on to the end.
pub struct Solver {
    module: usize,
    stack: Vec<Frame>,
    generation: u64,
}

impl View for Solver {
    type V = SolverView;

    closed spec fn view(&self) -> SolverView {
        SolverView {
            module: self.module as nat,
            stack: Seq::new(self.stack@.len(), |i: int| self.stack@[i]@),
            generation: self.generation,
        }
    }
}

/// The model of an answer, of the end of a search, or of an error.
pub open spec fn answer_view(r: Result<Option<Substitution>, EngineError>) -> Result<
    Option<SubstView>,
    EngineError,
> {
    unified_view(r)
}

/// The models of a list of substitutions, in order.
pub open spec fn subst_views(ss: Seq<Substitution>) -> Seq<SubstView> {
    Seq::new(ss.len(), |i: int| ss[i]@)
}

impl Module {
    /// The module's name.
    pub fn name(&self) -> (name: &Vec<u8>)
        ensures
            name@ == self@.name,
    {
        &self.name
    }

    /// The number of clauses.
    pub fn len(&self) -> (n: usize)
        ensures
            n == self@.clauses.len(),
    {
        self.clauses.len()
    }

    /// The clause at index `i` in stored order, if there are that many.
    pub fn clause(&self, i: usize) -> (c: Option<&Clause>)
        ensures
            match c {
                Some(c) => i < self@.clauses.len() && c@ == self@.clauses[i as int],
                None => i >= self@.clauses.len(),
            },
    {
        if i < self.clauses.len() {
            Some(&self.clauses[i])
        } else {
            None
        }
    }
}

impl Engine {
    /// The engine without modules.
    pub fn new() -> (engine: Engine)
        ensures
            engine@ == (EngineView { modules: Seq::empty(), next_generation: 1 }),
    {
        let engine = Engine { modules: Vec::new(), next_generation: 1 };
        assert(engine@.modules =~= Seq::empty());
        engine
    }

    /// Adds an empty module of the given name and returns its handle.
    pub fn add_module(&mut self, name: &[u8]) -> (module: usize)
        ensures
            module == old(self)@.modules.len(),
            final(self)@ == (EngineView {
                modules: old(self)@.modules.push(
                    ModuleView { name: name@, clauses: Seq::empty() },
                ),
                next_generation: old(self)@.next_generation,
            }),
    {
        let module = self.modules.len();
        let m = Module { name: vstd::slice::slice_to_vec(name), clauses: VecDeque::new() };
        assert(m@.clauses =~= Seq::empty());
        self.modules.push(m);
        assert(self@.modules =~= old(self)@.modules.push(
            ModuleView { name: name@, clauses: Seq::empty() },
        ));
        module
    }

    /// The generation that the next compiled clause will get.
    pub fn next_generation(&self) -> (g: u64)
        ensures
            g == self@.next_generation,
    {
        self.next_generation
    }

    /// Takes `count` generations out of the supply and returns the first of
    /// them. Returns `None`, and takes nothing, exactly when fewer are left.
    pub fn reserve_generations(&mut self, count: usize) -> (base: Option<u64>)
        ensures
            match base {
                Some(b) => b == old(self)@.next_generation && b + count <= u64::MAX && final(self)@
                    == (EngineView { next_generation: (b + count) as u64, ..old(self)@ }),
                None => old(self)@.next_generation + count > u64::MAX && final(self)@ == old(self)@,
            },
    {
        let base = self.next_generation;
        if count as u64 > u64::MAX - base {
            None
        } else {
            self.next_generation = base + count as u64;
            Some(base)
        }
    }

    /// The number of modules.
    pub fn module_count(&self) -> (n: usize)
        ensures
            n == self@.modules.len(),
    {
        self.modules.len()
    }

    /// The module with the given handle, if there is one.
    pub fn module(&self, module: usize) -> (m: Option<&Module>)
        ensures
            match m {
                Some(m) => module < self@.modules.len() && m@ == self@.modules[module as int],
                None => module >= self@.modules.len(),
            },
    {
        if module < self.modules.len() {
            Some(&self.modules[module])
        } else {
            None
        }
    }

    /// Inserts the clause at the given end of the module's clause list.
    /// Fails, and changes nothing, exactly when the engine holds no module
    /// with that handle.
    pub fn assert_clause(&mut self, clause: Clause, module: usize, position: Position) -> (r: Result<
        (),
        EngineError,
    >)
        ensures
            match r {
                Ok(()) => module < old(self)@.modules.len() && final(self)@ == old(self)@.inserted(
                    clause@,
                    module as int,
                    position,
                ),
                Err(e) => e == EngineError::UnknownModule && module >= old(self)@.modules.len()
                    && final(self)@ == old(self)@,
            },
    {
        if module >= self.modules.len() {
            return Err(EngineError::UnknownModule);
        }
        let ghost before = self.modules@[module as int].clauses@;
        match position {
            Position::First => {
                self.modules[module].clauses.push_front(clause);
                assert(clause_views(self.modules@[module as int].clauses@) =~= seq![clause@]
                    + clause_views(before));
            },
            Position::Last => {
                self.modules[module].clauses.push_back(clause);
                assert(clause_views(self.modules@[module as int].clauses@) =~= clause_views(
                    before,
                ).push(clause@));
            },
        }
        assert(self@.modules =~= old(self)@.inserted(clause@, module as int, position).modules);
        Ok(())
    }
}

impl Frame {
    /// The choice point that follows this one once its next clause has been
    /// tried.
    fn retry(self) -> (f: Frame)
        requires
            self.next_clause < usize::MAX,
        ensures
            f@ == (FrameView { next_clause: self@.next_clause + 1, ..self@ }),
    {
        Frame { goals: self.goals, subst: self.subst, next_clause: self.next_clause + 1 }
    }

    /// The choice point that a clause whose head unified opens: the clause's
    /// body before the goals that follow the first.
    fn child(&self, body: Vec<Term>, subst: Substitution) -> (f: Frame)
        requires
            self@.goals.len() > 0,
        ensures
            f@ == (FrameView {
                goals: term_views(body@) + self@.goals.skip(1),
                subst: subst@,
                next_clause: 0,
            }),
    {
        let mut goals = body;
        let mut i: usize = 1;
        while i < self.goals.len()
            invariant
                1 <= i <= self.goals.len(),
                term_views(goals@) == term_views(body@) + term_views(self.goals@).subrange(
                    1,
                    i as int,
                ),
            decreases self.goals.len() - i,
        {
            let ghost before = term_views(goals@);
            goals.push(self.goals[i].duplicate());
            assert(term_views(goals@) =~= before.push(self.goals@[i as int]@));
            assert(term_views(self.goals@).subrange(1, i + 1) =~= term_views(self.goals@).subrange(
                1,
                i as int,
            ).push(self.goals@[i as int]@));
            i += 1;
        }
        assert(term_views(self.goals@).subrange(1, i as int) =~= self@.goals.skip(1));
        Frame { goals, subst, next_clause: 0 }
    }
}

impl Solver {
    /// Whether the search has ended: no choice point is left.
    pub fn is_finished(&self) -> (r: bool)
        ensures
            r == (self@.stack.len() == 0),
    {
        self.stack.len() == 0
    }

    /// The module that the search runs against.
    pub fn module(&self) -> (m: usize)
        ensures
            m == self@.module,
    {
        self.module
    }

    /// Puts a choice point on top of the stack.
    fn push(&mut self, frame: Frame)
        ensures
            final(self)@ == (SolverView { stack: old(self)@.stack.push(frame@), ..old(self)@ }),
    {
        self.stack.push(frame);
        assert(self@.stack =~= old(self)@.stack.push(frame@));
    }

    /// Takes the choice point off the top of the stack.
    fn pop(&mut self) -> (frame: Frame)
        requires
            old(self)@.stack.len() > 0,
        ensures
            frame@ == old(self)@.stack.last(),
            final(self)@ == (SolverView { stack: old(self)@.stack.drop_last(), ..old(self)@ }),
    {
        let frame = self.stack.pop().unwrap();
        assert(self@.stack =~= old(self)@.stack.drop_last());
        frame
    }

    /// Makes one step of the search. `Ok(Some(_))` is an answer, `Ok(None)`
    /// says that the search went on, and an error leaves the search as it
    /// was.
    fn step(&mut self, db: &VecDeque<Clause>, depth: u64) -> (r: Result<
        Option<Substitution>,
        EngineError,
    >)
        requires
            old(self)@.stack.len() > 0,
        ensures
            match step(clause_views(db@), old(self)@, depth as nat) {
                Step::Moved(m) => r matches Ok(None) && final(self)@ == m,
                Step::Answer(m, s) => r matches Ok(Some(a)) && a@ == s && final(self)@ == m,
                Step::Fault(e) => r matches Err(x) && x == e && final(self)@ == old(self)@,
            },
    {
        let ghost before = self@;
        let top = self.pop();
        if top.goals.len() == 0 {
            return Ok(Some(top.subst));
        }
        if top.next_clause >= db.len() {
            return Ok(None);
        }
        if self.generation == u64::MAX {
            self.push(top);
            assert(self@.stack =~= before.stack);
            return Err(EngineError::VariableSupply);
        }
        let clause = db[top.next_clause].rename(self.generation);
        assert(clause@ == clause_views(db@)[top.next_clause as int].with_generation(
            self.generation,
        ));
        match top.subst.duplicate().unify(&top.goals[0], &clause.head, depth) {
            Err(e) => {
                self.push(top);
                assert(self@.stack =~= before.stack);
                Err(e)
            },
            Ok(None) => {
                self.push(top.retry());
                self.generation = self.generation + 1;
                Ok(None)
            },
            Ok(Some(s)) => {
                let child = top.child(clause.body, s);
                self.push(top.retry());
                self.push(child);
                self.generation = self.generation + 1;
                Ok(None)
            },
        }
    }

    /// Runs the search over `db` to its next answer, making at most `steps`
    /// steps, and returns the outcome with the number of steps not made.
    fn advance(&mut self, db: &VecDeque<Clause>, depth: u64, steps: u64) -> (r: (
        Result<Option<Substitution>, EngineError>,
        u64,
    ))
        ensures
            (Advance { state: final(self)@, outcome: answer_view(r.0), left: r.1 as nat })
                == advance(clause_views(db@), old(self)@, depth as nat, steps as nat),
    {
        let mut left = steps;
        loop
            invariant
                advance(clause_views(db@), old(self)@, depth as nat, steps as nat) == advance(
                    clause_views(db@),
                    self@,
                    depth as nat,
                    left as nat,
                ),
            decreases left,
        {
            if self.stack.len() == 0 {
                return (Ok(None), left);
            }
            if left == 0 {
                return (Err(EngineError::StepLimit), 0);
            }
            match self.step(db, depth) {
                Ok(Some(s)) => {
                    return (Ok(Some(s)), left - 1);
                },
                Ok(None) => {},
                Err(e) => {
                    return (Err(e), left);
                },
            }
            left = left - 1;
        }
    }

    /// The next answer of the search against the engine's clauses, `Ok(None)`
    /// when there is none left, found within `steps` steps; with it, the
    /// number of steps not made. The search stays where the call left it, so
    /// that after `Err(StepLimit)` a further call takes it up again.
    ///
    /// Fails with `UnknownModule`, and leaves the search as it was, exactly
    /// when the engine does not hold the module that the search was started
    /// on.
    pub fn next_within(&mut self, engine: &Engine, depth: u64, steps: u64) -> (r: (
        Result<Option<Substitution>, EngineError>,
        u64,
    ))
        ensures
            old(self)@.module >= engine@.modules.len() ==> r.0 == Err::<
                Option<Substitution>,
                EngineError,
            >(EngineError::UnknownModule) && r.1 == steps && final(self)@ == old(self)@,
            old(self)@.module < engine@.modules.len() ==> (Advance {
                state: final(self)@,
                outcome: answer_view(r.0),
                left: r.1 as nat,
            }) == advance(
                engine@.modules[old(self)@.module as int].clauses,
                old(self)@,
                depth as nat,
                steps as nat,
            ),
    {
        if self.module >= engine.modules.len() {
            return (Err(EngineError::UnknownModule), steps);
        }
        self.advance(&engine.modules[self.module].clauses, depth, steps)
    }

    /// The next answer of the search, found within `limits.steps` steps.
    pub fn next(&mut self, engine: &Engine, limits: &Limits) -> (r: Result<
        Option<Substitution>,
        EngineError,
    >)
        ensures
            old(self)@.module >= engine@.modules.len() ==> r == Err::<
                Option<Substitution>,
                EngineError,
            >(EngineError::UnknownModule) && final(self)@ == old(self)@,
            old(self)@.module < engine@.modules.len() ==> {
                let found = advance(
                    engine@.modules[old(self)@.module as int].clauses,
                    old(self)@,
                    limits.depth as nat,
                    limits.steps as nat,
                );
                final(self)@ == found.state && answer_view(r) == found.outcome
            },
    {
        self.next_within(engine, limits.depth, limits.steps).0
    }
}

impl Engine {
    /// Starts a search for `goal` in the given module. No step is made yet.
    ///
    /// Fails with `UnknownModule` exactly when the engine holds no module
    /// with that handle, and else with `VariableSupply` exactly when the
    /// goal holds a variable of the last generation, above which no clause
    /// can be renamed.
    pub fn query(&self, module: usize, goal: &Term) -> (r: Result<Solver, EngineError>)
        ensures
            match r {
                Ok(solver) => module < self@.modules.len() && goal@.ceiling() <= u64::MAX && solver@
                    == initial(module as nat, goal@),
                Err(e) => if module >= self@.modules.len() {
                    e == EngineError::UnknownModule
                } else {
                    e == EngineError::VariableSupply && goal@.ceiling() > u64::MAX
                },
            },
    {
        if module >= self.modules.len() {
            return Err(EngineError::UnknownModule);
        }
        match goal.ceiling() {
            None => Err(EngineError::VariableSupply),
            Some(generation) => {
                let mut goals: Vec<Term> = Vec::new();
                goals.push(goal.duplicate());
                assert(term_views(goals@) =~= seq![goal@]);
                let frame = Frame { goals, subst: Substitution::new(), next_clause: 0 };
                let mut stack: Vec<Frame> = Vec::new();
                stack.push(frame);
                let solver = Solver { module, stack, generation };
                assert(solver@.stack =~= initial(module as nat, goal@).stack);
                Ok(solver)
            },
        }
    }

    /// The first `max` answers to `goal` in the given module, in the order
    /// in which the search finds them, each within `limits.steps` steps.
    pub fn solve(&self, module: usize, goal: &Term, limits: &Limits, max: usize) -> (r: Result<
        Vec<Substitution>,
        EngineError,
    >)
        ensures
            match r {
                Ok(found) => module < self@.modules.len() && goal@.ceiling() <= u64::MAX && Ok::<
                    Seq<SubstView>,
                    EngineError,
                >(subst_views(found@)) == answers(
                    self@.modules[module as int].clauses,
                    initial(module as nat, goal@),
                    limits.depth as nat,
                    limits.steps as nat,
                    max as nat,
                ),
                Err(e) => if module >= self@.modules.len() {
                    e == EngineError::UnknownModule
                } else if goal@.ceiling() > u64::MAX {
                    e == EngineError::VariableSupply
                } else {
                    Err::<Seq<SubstView>, EngineError>(e) == answers(
                        self@.modules[module as int].clauses,
                        initial(module as nat, goal@),
                        limits.depth as nat,
                        limits.steps as nat,
                        max as nat,
                    )
                },
            },
    {
        let mut solver = match self.query(module, goal) {
            Ok(solver) => solver,
            Err(e) => {
                return Err(e);
            },
        };
        let ghost db = self@.modules[module as int].clauses;
        let ghost depth = limits.depth as nat;
        let ghost steps = limits.steps as nat;
        let ghost whole = answers(db, solver@, depth, steps, max as nat);
        let mut found: Vec<Substitution> = Vec::new();
        let mut left = max;
        while left > 0
            invariant
                module < self@.modules.len(),
                solver@.module == module,
                goal@.ceiling() <= u64::MAX,
                whole == answers(db, initial(module as nat, goal@), depth, steps, max as nat),
                db == self@.modules[module as int].clauses,
                depth == limits.depth,
                steps == limits.steps,
                whole == match answers(db, solver@, depth, steps, left as nat) {
                    Ok(rest) => Ok(subst_views(found@) + rest),
                    Err(e) => Err(e),
                },
            decreases left,
        {
            let ghost before = subst_views(found@);
            proof {
                lemma_advance(db, solver@, depth, steps);
            }
            match solver.next(self, limits) {
                Err(e) => {
                    return Err(e);
                },
                Ok(None) => {
                    assert(before + Seq::<SubstView>::empty() =~= before);
                    return Ok(found);
                },
                Ok(Some(s)) => {
                    found.push(s);
                    proof {
                        match answers(db, solver@, depth, steps, (left - 1) as nat) {
                            Ok(rest) => {
                                assert(before + (seq![s@] + rest) =~= subst_views(found@) + rest);
                            },
                            Err(_) => {},
                        }
                    }
                },
            }
            left = left - 1;
        }
        assert(subst_views(found@) + Seq::<SubstView>::empty() =~= subst_views(found@));
        Ok(found)
    }
}

} // verus!
