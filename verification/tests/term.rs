use mlatu::codegen::{compile_rule, generate, install, CodegenError, InstallError};
use mlatu::engine::{Engine, Position};
use mlatu::limits::{EngineError, Limits};
use mlatu::term::{bytes_eq, duplicate_clauses, duplicate_rules, duplicate_terms, Clause, Rule, Term, Variable};
use mlatu::unify::Substitution;

fn f(args: Vec<Term>) -> Term {
    Term::compound(b"f", args)
}

#[test]
fn constructors_build_what_they_say() {
    assert_eq!(Term::atom(b"zero"), Term::Atom(b"zero".to_vec()));
    assert_eq!(Term::var(b"Y"), Term::Var(Variable { name: b"Y".to_vec(), generation: 0 }));
    assert_eq!(
        Term::compound(b"s", vec![Term::atom(b"zero")]),
        Term::Compound(b"s".to_vec(), vec![Term::Atom(b"zero".to_vec())])
    );
    assert_eq!(Variable::new(b"X", 7), Variable { name: b"X".to_vec(), generation: 7 });
}

#[test]
fn same_compares_whole_trees() {
    let a = f(vec![Term::atom(b"a"), f(vec![Term::var(b"X")])]);
    assert!(a.same(&a.duplicate()));
    assert!(a.same(&a.clone()));
    assert!(!a.same(&f(vec![Term::atom(b"a"), f(vec![Term::var(b"Y")])])));
    assert!(!a.same(&f(vec![Term::atom(b"a")])));
    assert!(!a.same(&Term::compound(b"g", vec![Term::atom(b"a"), f(vec![Term::var(b"X")])])));
    assert!(!Term::atom(b"X").same(&Term::var(b"X")));
    assert!(!Term::var(b"X").same(&Term::var(b"X").rename(1)));
    assert!(Variable::new(b"X", 1).same(&Variable::new(b"X", 1)));
    assert!(!Variable::new(b"X", 1).same(&Variable::new(b"Xs", 1)));
    assert!(bytes_eq(b"abc", b"abc"));
    assert!(!bytes_eq(b"abc", b"abd"));
    assert!(!bytes_eq(b"abc", b"ab"));
    assert!(bytes_eq(b"", b""));
}

#[test]
fn occurrence_and_groundness() {
    let t = f(vec![Term::atom(b"a"), f(vec![Term::var(b"X")])]);
    assert!(t.contains(&Variable::new(b"X", 0)));
    assert!(!t.contains(&Variable::new(b"X", 1)));
    assert!(!t.contains(&Variable::new(b"a", 0)));
    assert!(!t.is_ground());
    assert!(f(vec![Term::atom(b"a"), f(vec![])]).is_ground());
    assert!(Term::atom(b"a").is_ground());
    assert!(!Term::var(b"A").is_ground());
}

#[test]
fn rename_moves_every_variable() {
    let t = f(vec![Term::var(b"X"), f(vec![Term::var(b"Y").rename(3), Term::atom(b"X")])]);
    assert_eq!(
        t.rename(9),
        f(vec![
            Term::Var(Variable::new(b"X", 9)),
            f(vec![Term::Var(Variable::new(b"Y", 9)), Term::atom(b"X")]),
        ])
    );
}

#[test]
fn ceiling_is_one_above_the_latest_generation() {
    assert_eq!(Term::atom(b"a").ceiling(), Some(0));
    assert_eq!(Term::var(b"X").ceiling(), Some(1));
    assert_eq!(f(vec![Term::var(b"X").rename(4), Term::var(b"Y").rename(2)]).ceiling(), Some(5));
    assert_eq!(f(vec![Term::var(b"X").rename(u64::MAX - 1)]).ceiling(), Some(u64::MAX));
    assert_eq!(f(vec![Term::var(b"X").rename(u64::MAX), Term::atom(b"a")]).ceiling(), None);
    assert_eq!(f(vec![]).ceiling(), Some(0));
}

#[test]
fn stray_finds_the_first_variable_outside_the_scope() {
    let scope = f(vec![Term::var(b"X"), Term::var(b"Y")]);
    assert_eq!(f(vec![Term::var(b"Y"), Term::var(b"X")]).stray(&scope), None);
    assert_eq!(
        f(vec![Term::var(b"X"), f(vec![Term::var(b"Z"), Term::var(b"W")])]).stray(&scope),
        Some(Variable::new(b"Z", 0))
    );
    assert_eq!(Term::var(b"X").rename(1).stray(&scope), Some(Variable::new(b"X", 1)));
    assert_eq!(Term::atom(b"a").stray(&scope), None);
}

#[test]
fn closed_rules_are_told_from_open_ones() {
    let x = Term::var(b"X");
    assert!(Rule::new(f(vec![x.duplicate()]), x.duplicate()).is_closed());
    assert!(Rule::new(f(vec![x.duplicate()]), Term::atom(b"a")).is_closed());
    assert!(!Rule::new(f(vec![x.duplicate()]), Term::var(b"Y")).is_closed());
    assert!(!Rule::new(Term::atom(b"a"), x).is_closed());
}

#[test]
fn clauses_rename_head_and_body() {
    let x = Term::var(b"X");
    let clause = Clause::new(f(vec![x.duplicate()]), vec![Term::compound(b"g", vec![x.duplicate()]), x.duplicate()]);
    let moved = clause.rename(5);
    assert_eq!(moved.head, f(vec![x.rename(5)]));
    assert_eq!(moved.body, vec![Term::compound(b"g", vec![x.rename(5)]), x.rename(5)]);
    assert_eq!(clause.clone(), clause);
    let fact = Clause::fact(Term::atom(b"a"));
    assert_eq!(fact.head, Term::atom(b"a"));
    assert!(fact.body.is_empty());
}

#[test]
fn copies_are_equal_to_what_they_copy() {
    let terms = vec![Term::atom(b"a"), f(vec![Term::var(b"X")])];
    assert_eq!(duplicate_terms(&terms), terms);
    let rules = vec![Rule::new(Term::atom(b"a"), Term::atom(b"b"))];
    assert_eq!(duplicate_rules(&rules), rules);
    assert_eq!(rules[0].clone(), rules[0]);
    let clauses = vec![Clause::fact(Term::atom(b"a")), Clause::new(Term::atom(b"b"), terms)];
    assert_eq!(duplicate_clauses(&clauses), clauses);
    let s = Substitution::new().unify(&Term::var(b"X"), &Term::atom(b"a"), 5).unwrap().unwrap();
    assert_eq!(s.duplicate(), s);
}

#[test]
fn unify_all_goes_from_left_to_right() {
    let xs = vec![Term::var(b"X"), Term::var(b"X")];
    let ys = vec![Term::atom(b"a"), Term::atom(b"b")];
    assert_eq!(Substitution::new().unify_all(&xs, &ys, 5), Ok(None));
    let ys = vec![Term::atom(b"a"), Term::atom(b"a")];
    assert_eq!(Substitution::new().unify_all(&xs, &ys, 5).unwrap().unwrap().len(), 1);
    assert_eq!(Substitution::new().unify_all(&xs, &ys, 1), Err(EngineError::DepthLimit));
    assert_eq!(Substitution::new().unify_all(&vec![], &vec![], 0).unwrap().unwrap().len(), 0);
    let longer = vec![Term::atom(b"a"), Term::atom(b"a"), Term::atom(b"c")];
    assert_eq!(Substitution::new().unify_all(&xs, &longer, 5).unwrap().unwrap().len(), 1);
}

#[test]
fn compile_relates_pattern_and_replacement() {
    let rule = Rule::new(f(vec![Term::var(b"X")]), Term::var(b"X"));
    let clause = compile_rule(&rule, 4);
    assert_eq!(clause.head, Term::compound(b"->", vec![f(vec![Term::var(b"X").rename(4)]), Term::var(b"X").rename(4)]));
    assert!(clause.body.is_empty());
}

#[test]
fn generations_can_run_out() {
    let mut engine = Engine::new();
    let m = engine.add_module(b"m");
    assert_eq!(engine.reserve_generations(5), Some(1));
    assert_eq!(engine.next_generation(), 6);
    assert_eq!(engine.reserve_generations(usize::MAX), None);
    assert_eq!(engine.next_generation(), 6);
    let most = (u64::MAX - 6) as usize;
    if most as u64 == u64::MAX - 6 {
        assert_eq!(engine.reserve_generations(most), Some(6));
        assert_eq!(engine.next_generation(), u64::MAX);
        let rules = vec![Rule::new(Term::atom(b"a"), Term::atom(b"b"))];
        assert_eq!(generate(&mut engine, &rules), Err(CodegenError::GenerationsExhausted));
        assert_eq!(install(&mut engine, m, &rules), Err(InstallError::Rules(CodegenError::GenerationsExhausted)));
        assert_eq!(generate(&mut engine, &vec![]), Ok(vec![]));
        let open = vec![Rule::new(Term::atom(b"a"), Term::var(b"X"))];
        assert_eq!(
            generate(&mut engine, &open),
            Err(CodegenError::UndefinedVariable { rule: 0, variable: Variable::new(b"X", 0) })
        );
    }
}

#[test]
fn install_needs_a_module() {
    let mut engine = Engine::new();
    let rules = vec![Rule::new(Term::atom(b"a"), Term::atom(b"b"))];
    assert_eq!(install(&mut engine, 0, &rules), Err(InstallError::UnknownModule));
    assert_eq!(engine.next_generation(), 1);
    let m = engine.add_module(b"m");
    assert_eq!(install(&mut engine, m, &rules), Ok(()));
    assert_eq!(engine.module(m).unwrap().len(), 1);
    assert_eq!(engine.next_generation(), 2);
}

#[test]
fn a_search_without_a_generation_left_reports_it() {
    let mut engine = Engine::new();
    let m = engine.add_module(b"m");
    engine.assert_clause(Clause::fact(f(vec![Term::atom(b"a")])), m, Position::Last).unwrap();
    engine.assert_clause(Clause::fact(f(vec![Term::atom(b"b")])), m, Position::Last).unwrap();
    let limits = Limits { depth: 8, steps: 8, rewrites: 8 };
    let goal = f(vec![Term::var(b"X").rename(u64::MAX - 1)]);
    let mut solver = engine.query(m, &goal).unwrap();
    assert_eq!(solver.next(&engine, &limits), Err(EngineError::VariableSupply));
    assert!(!solver.is_finished());
    assert_eq!(engine.solve(m, &goal, &limits, 1), Err(EngineError::VariableSupply));
    let goal = f(vec![Term::var(b"X").rename(u64::MAX - 2)]);
    assert_eq!(engine.solve(m, &goal, &limits, 1).unwrap().len(), 1);
    assert_eq!(engine.solve(m, &goal, &limits, 2), Err(EngineError::VariableSupply));
}

#[test]
fn a_search_on_a_vanished_module_reports_it() {
    let mut engine = Engine::new();
    let m = engine.add_module(b"m");
    let mut solver = engine.query(m, &Term::atom(b"a")).unwrap();
    let other = Engine::new();
    let limits = Limits { depth: 8, steps: 8, rewrites: 8 };
    assert_eq!(solver.next(&other, &limits), Err(EngineError::UnknownModule));
    assert_eq!(solver.next_within(&other, 8, 8), (Err(EngineError::UnknownModule), 8));
    assert_eq!(solver.next(&engine, &limits), Ok(None));
}
