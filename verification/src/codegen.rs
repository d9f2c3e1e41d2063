//! The compiler from rewrite rules to clauses.
//!
//! A rule `pattern -> replacement` becomes one clause without a body. Its
//! head relates the pattern to the replacement under the functor `->`, which
//! no term written in the text syntax can have. To resolve the goal
//! `->(t, R)` against it is to match the pattern against `t` and to bind `R`
//! to the replacement. Every clause gets a generation of its own, so that no
//! two clauses share a variable, whatever the rules named theirs.

use crate::engine::{Engine, EngineView, ModuleView, Position};
use crate::term::{
    clause_views, lemma_stray, lemma_view_compound, rule_views, term_views, Clause, ClauseView, Rule,
    RuleView, Term, TermView, VarView, Variable,
};
use vstd::prelude::*;

verus! {

/// The model of a compile error.
pub enum CodegenErrorView {
    UndefinedVariable { rule: nat, variable: VarView },
    GenerationsExhausted,
}

/// Why a batch of rules was not compiled.
#[derive(Debug, PartialEq, Eq)]
pub enum CodegenError {
    /// The replacement of the rule at index `rule` holds `variable`, which
    /// its pattern does not hold.
    UndefinedVariable { rule: usize, variable: Variable },
    /// The engine has fewer generations left than the batch has rules.
    GenerationsExhausted,
}

impl View for CodegenError {
    type V = CodegenErrorView;

    open spec fn view(&self) -> CodegenErrorView {
        match self {
            CodegenError::UndefinedVariable { rule, variable } => CodegenErrorView::UndefinedVariable {
                rule: *rule as nat,
                variable: variable@,
            },
            CodegenError::GenerationsExhausted => CodegenErrorView::GenerationsExhausted,
        }
    }
}

/// The functor of the rewrite relation: the two bytes of `->`.
pub open spec fn relation() -> Seq<u8> {
    seq![45u8, 62u8]
}

/// The clause that a rule compiles to, with its variables in generation `g`.
pub open spec fn compile(rule: RuleView, g: u64) -> ClauseView {
    ClauseView {
        head: TermView::Compound(
            relation(),
            seq![rule.pattern.with_generation(g), rule.replacement.with_generation(g)],
        ),
        body: Seq::empty(),
    }
}

/// The clauses that a batch of closed rules compiles to: one for each rule,
/// in order, the rule at index `i` in generation `base + i`.
pub open spec fn compile_all(rules: Seq<RuleView>, base: u64) -> Seq<ClauseView> {
    Seq::new(rules.len(), |i: int| compile(rules[i], (base + i) as u64))
}

/// The first rule at or after index `from` whose replacement holds a
/// variable that its pattern does not hold, with the first such variable.
pub open spec fn first_open(rules: Seq<RuleView>, from: int) -> Option<(nat, VarView)>
    decreases rules.len() - from,
{
    if from < 0 || from >= rules.len() {
        None
    } else {
        match rules[from].replacement.stray(rules[from].pattern) {
            Some(v) => Some((from as nat, v)),
            None => first_open(rules, from + 1),
        }
    }
}

/// What compiling a batch gives when the first free generation is `base`.
pub open spec fn generated(rules: Seq<RuleView>, base: u64) -> Result<
    Seq<ClauseView>,
    CodegenErrorView,
> {
    match first_open(rules, 0) {
        Some((rule, variable)) => Err(CodegenErrorView::UndefinedVariable { rule, variable }),
        None => if base + rules.len() > u64::MAX {
            Err(CodegenErrorView::GenerationsExhausted)
        } else {
            Ok(compile_all(rules, base))
        },
    }
}

/// The model of what `generate` returns.
pub open spec fn generated_view(r: Result<Vec<Clause>, CodegenError>) -> Result<
    Seq<ClauseView>,
    CodegenErrorView,
> {
    match r {
        Ok(clauses) => Ok(clause_views(clauses@)),
        Err(e) => Err(e@),
    }
}

/// The first rule of the batch that is not closed, with its first stray
/// variable.
fn find_open(rules: &Vec<Rule>) -> (r: Option<(usize, Variable)>)
    ensures
        match r {
            Some((i, v)) => first_open(rule_views(rules@), 0) == Some((i as nat, v@)),
            None => first_open(rule_views(rules@), 0) is None,
        },
{
    let mut i: usize = 0;
    while i < rules.len()
        invariant
            i <= rules.len(),
            first_open(rule_views(rules@), 0) == first_open(rule_views(rules@), i as int),
        decreases rules.len() - i,
    {
        assert(rule_views(rules@)[i as int] == rules@[i as int]@);
        match rules[i].replacement.stray(&rules[i].pattern) {
            Some(v) => {
                return Some((i, v));
            },
            None => {},
        }
        i += 1;
    }
    None
}

/// Compiles one rule whose variables go to generation `g`.
pub fn compile_rule(rule: &Rule, g: u64) -> (c: Clause)
    ensures
        c@ == compile(rule@, g),
{
    let mut functor: Vec<u8> = Vec::new();
    functor.push(45u8);
    functor.push(62u8);
    let mut args: Vec<Term> = Vec::new();
    args.push(rule.pattern.rename(g));
    args.push(rule.replacement.rename(g));
    proof {
        lemma_view_compound(functor, args);
        assert(functor@ =~= relation());
        assert(term_views(args@) =~= seq![
            rule@.pattern.with_generation(g),
            rule@.replacement.with_generation(g),
        ]);
    }
    Clause::fact(Term::Compound(functor, args))
}

/// Compiles a batch of rules, taking one generation from the engine for each
/// rule.
///
/// Fails with `UndefinedVariable` exactly when some rule's replacement holds
/// a variable that its pattern does not hold, naming the first such rule and
/// its first such variable; and else with `GenerationsExhausted` exactly
/// when the engine has too few generations left. On failure no clause is
/// returned and the engine is as it was. The engine's modules are never
/// touched: to compile is not to assert.
pub fn generate(engine: &mut Engine, rules: &Vec<Rule>) -> (r: Result<Vec<Clause>, CodegenError>)
    ensures
        generated_view(r) == generated(rule_views(rules@), old(engine)@.next_generation),
        final(engine)@ == match r {
            Ok(_) => EngineView {
                next_generation: (old(engine)@.next_generation + rules@.len()) as u64,
                ..old(engine)@
            },
            Err(_) => old(engine)@,
        },
{
    match find_open(rules) {
        Some((rule, variable)) => {
            return Err(CodegenError::UndefinedVariable { rule, variable });
        },
        None => {},
    }
    let base = match engine.reserve_generations(rules.len()) {
        Some(base) => base,
        None => {
            return Err(CodegenError::GenerationsExhausted);
        },
    };
    let mut clauses: Vec<Clause> = Vec::new();
    let mut i: usize = 0;
    while i < rules.len()
        invariant
            i <= rules.len(),
            clauses.len() == i,
            base + rules.len() <= u64::MAX,
            forall|j: int|
                0 <= j < i ==> (#[trigger] clauses@[j])@ == compile(rules@[j]@, (base + j) as u64),
        decreases rules.len() - i,
    {
        clauses.push(compile_rule(&rules[i], base + i as u64));
        i += 1;
    }
    assert(clause_views(clauses@) =~= compile_all(rule_views(rules@), base));
    Ok(clauses)
}

/// What `first_open` finds: nothing exactly when every rule from `from` on
/// is closed; else the first rule that is not, with a variable that its
/// replacement holds and its pattern does not.
pub proof fn lemma_first_open(rules: Seq<RuleView>, from: int)
    requires
        0 <= from <= rules.len(),
    ensures
        first_open(rules, from) is None <==> forall|i: int|
            from <= i < rules.len() ==> (#[trigger] rules[i]).closed(),
        first_open(rules, from) matches Some((k, v)) ==> {
            &&& from <= k < rules.len()
            &&& rules[k as int].replacement.occurs(v)
            &&& !rules[k as int].pattern.occurs(v)
            &&& forall|i: int| from <= i < k ==> (#[trigger] rules[i]).closed()
        },
    decreases rules.len() - from,
{
    if from < rules.len() {
        lemma_stray(rules[from].replacement, rules[from].pattern);
        lemma_first_open(rules, from + 1);
    }
}

/// A batch of rules compiles exactly when each rule's replacement holds only
/// variables of its pattern, as long as the engine has a generation left for
/// each rule. A batch with a rule that violates this is refused as a whole,
/// with the first such rule and a variable that shows the violation.
pub proof fn lemma_generate_safety(rules: Seq<RuleView>, base: u64)
    ensures
        (forall|i: int| 0 <= i < rules.len() ==> (#[trigger] rules[i]).closed()) && base
            + rules.len() <= u64::MAX ==> generated(rules, base) == Ok::<
            Seq<ClauseView>,
            CodegenErrorView,
        >(compile_all(rules, base)),
        (exists|i: int| 0 <= i < rules.len() && !(#[trigger] rules[i]).closed()) ==> (generated(
            rules,
            base,
        ) matches Err(CodegenErrorView::UndefinedVariable { rule, variable }) && {
            &&& rule < rules.len()
            &&& !rules[rule as int].closed()
            &&& rules[rule as int].replacement.occurs(variable)
            &&& !rules[rule as int].pattern.occurs(variable)
            &&& forall|i: int| 0 <= i < rule ==> (#[trigger] rules[i]).closed()
        }),
{
    lemma_first_open(rules, 0);
}

/// A variable of a compiled clause has the clause's generation.
pub proof fn lemma_compile_generation(rule: RuleView, g: u64, v: VarView)
    requires
        compile(rule, g).occurs(v),
    ensures
        v.generation == g,
{
    let c = compile(rule, g);
    let args = seq![rule.pattern.with_generation(g), rule.replacement.with_generation(g)];
    crate::term::lemma_occurs_compound(relation(), args, v);
    let i = choose|i: int| 0 <= i < args.len() && (#[trigger] args[i]).occurs(v);
    if i == 0 {
        crate::term::lemma_with_generation_occurs(rule.pattern, g, v);
    } else {
        crate::term::lemma_with_generation_occurs(rule.replacement, g, v);
    }
}

/// No two clauses of a compiled batch share a variable, whatever names the
/// rules gave to theirs.
pub proof fn lemma_generated_apart(rules: Seq<RuleView>, base: u64, i: int, j: int, v: VarView)
    requires
        generated(rules, base) is Ok,
        0 <= i < rules.len(),
        0 <= j < rules.len(),
        i != j,
    ensures
        !(compile_all(rules, base)[i].occurs(v) && compile_all(rules, base)[j].occurs(v)),
{
    if compile_all(rules, base)[i].occurs(v) && compile_all(rules, base)[j].occurs(v) {
        lemma_compile_generation(rules[i], (base + i) as u64, v);
        lemma_compile_generation(rules[j], (base + j) as u64, v);
    }
}

/// Why a batch of rules was not installed.
#[derive(Debug, PartialEq, Eq)]
pub enum InstallError {
    /// The engine holds no module with the given handle.
    UnknownModule,
    /// The batch did not compile.
    Rules(CodegenError),
}

/// The engine after a batch of closed rules was compiled and its clauses
/// were added, in order, at the end of module `module`.
pub open spec fn installed(e: EngineView, module: int, rules: Seq<RuleView>) -> EngineView {
    let m = e.modules[module];
    EngineView {
        modules: e.modules.update(
            module,
            ModuleView { name: m.name, clauses: m.clauses + compile_all(rules, e.next_generation) },
        ),
        next_generation: (e.next_generation + rules.len()) as u64,
    }
}

/// Compiles a batch of rules and asserts the clauses, in order, at the end
/// of the given module: all of them or none.
///
/// Fails with `UnknownModule` exactly when the engine holds no module with
/// that handle, and else with the compile error exactly when the batch does
/// not compile. On failure the engine is as it was, so that no clause of a
/// batch with a bad rule is ever asserted.
pub fn install(engine: &mut Engine, module: usize, rules: &Vec<Rule>) -> (r: Result<
    (),
    InstallError,
>)
    ensures
        match r {
            Ok(()) => {
                &&& module < old(engine)@.modules.len()
                &&& generated(rule_views(rules@), old(engine)@.next_generation) is Ok
                &&& final(engine)@ == installed(old(engine)@, module as int, rule_views(rules@))
            },
            Err(InstallError::UnknownModule) => module >= old(engine)@.modules.len() && final(engine)@ == old(engine)@,
            Err(InstallError::Rules(e)) => {
                &&& module < old(engine)@.modules.len()
                &&& generated(rule_views(rules@), old(engine)@.next_generation) == Err::<
                    Seq<ClauseView>,
                    CodegenErrorView,
                >(e@)
                &&& final(engine)@ == old(engine)@
            },
        },
{
    if module >= engine.module_count() {
        return Err(InstallError::UnknownModule);
    }
    match install_into(engine, module, rules) {
        Ok(()) => Ok(()),
        Err(e) => Err(InstallError::Rules(e)),
    }
}

/// Compiles a batch of rules and asserts the clauses, in order, at the end
/// of a module that the engine holds: all of them or none.
pub(crate) fn install_into(engine: &mut Engine, module: usize, rules: &Vec<Rule>) -> (r: Result<
    (),
    CodegenError,
>)
    requires
        module < old(engine)@.modules.len(),
    ensures
        match r {
            Ok(()) => generated(rule_views(rules@), old(engine)@.next_generation) is Ok && final(engine)@ == installed(old(engine)@, module as int, rule_views(rules@)),
            Err(e) => generated(rule_views(rules@), old(engine)@.next_generation) == Err::<
                Seq<ClauseView>,
                CodegenErrorView,
            >(e@) && final(engine)@ == old(engine)@,
        },
{
    let clauses = match generate(engine, rules) {
        Ok(clauses) => clauses,
        Err(e) => {
            return Err(e);
        },
    };
    let ghost start = engine@;
    let ghost compiled = clause_views(clauses@);
    proof {
        let m = start.modules[module as int];
        assert(m.clauses + compiled.take(0) =~= m.clauses);
        assert(start.modules.update(
            module as int,
            ModuleView { name: m.name, clauses: m.clauses + compiled.take(0) },
        ) =~= start.modules);
    }
    let mut i: usize = 0;
    while i < clauses.len()
        invariant
            i <= clauses.len(),
            module < start.modules.len(),
            compiled == clause_views(clauses@),
            engine@ == (EngineView {
                modules: start.modules.update(
                    module as int,
                    ModuleView {
                        name: start.modules[module as int].name,
                        clauses: start.modules[module as int].clauses + compiled.take(i as int),
                    },
                ),
                ..start
            }),
        decreases clauses.len() - i,
    {
        let ghost before = engine@;
        let r = engine.assert_clause(clauses[i].clone(), module, Position::Last);
        proof {
            assert(r is Ok);
            assert(compiled.take(i + 1) =~= compiled.take(i as int).push(compiled[i as int]));
            assert(start.modules[module as int].clauses + compiled.take(i + 1) =~= (
            start.modules[module as int].clauses + compiled.take(i as int)).push(
                compiled[i as int],
            ));
            assert(engine@.modules =~= start.modules.update(
                module as int,
                ModuleView {
                    name: start.modules[module as int].name,
                    clauses: start.modules[module as int].clauses + compiled.take(i + 1),
                },
            ));
        }
        i += 1;
    }
    assert(compiled.take(i as int) =~= compiled);
    Ok(())
}

} // verus!
