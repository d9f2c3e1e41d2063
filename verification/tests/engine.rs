use mlatu::codegen::install;
use mlatu::engine::{Engine, Position};
use mlatu::limits::{EngineError, Limits};
use mlatu::term::{Clause, Rule, Term, Variable};

fn limits() -> Limits {
    Limits { depth: 64, steps: 1000, rewrites: 100 }
}

fn add_zero_rule() -> Rule {
    Rule::new(
        Term::compound(b"add", vec![Term::atom(b"zero"), Term::var(b"Y")]),
        Term::var(b"Y"),
    )
}

#[test]
fn query_finds_the_replacement() {
    let mut engine = Engine::new();
    let prelude = engine.add_module(b"prelude");
    assert_eq!(install(&mut engine, prelude, &vec![add_zero_rule()]), Ok(()));
    let result = Term::Var(Variable::new(b"R", 0));
    let goal = Term::compound(
        b"->",
        vec![Term::compound(b"add", vec![Term::atom(b"zero"), Term::atom(b"atom_x")]), result.duplicate()],
    );
    let mut solver = engine.query(prelude, &goal).unwrap();
    let answer = solver.next(&engine, &limits()).unwrap().unwrap();
    assert_eq!(answer.resolve(&result, 64), Ok(Term::atom(b"atom_x")));
    assert_eq!(solver.next(&engine, &limits()), Ok(None));
    assert!(solver.is_finished());
}

#[test]
fn assert_into_unknown_module_fails() {
    let mut engine = Engine::new();
    let r = engine.assert_clause(Clause::fact(Term::atom(b"a")), 3, Position::Last);
    assert_eq!(r, Err(EngineError::UnknownModule));
}

fn fact(name: &[u8], arg: &[u8]) -> Clause {
    Clause::fact(Term::compound(name, vec![Term::atom(arg)]))
}

#[test]
fn clause_inserted_first_is_tried_before_clause_inserted_last() {
    for first_then_last in [true, false] {
        let mut engine = Engine::new();
        let m = engine.add_module(b"m");
        engine.assert_clause(fact(b"p", b"middle"), m, Position::Last).unwrap();
        if first_then_last {
            engine.assert_clause(fact(b"p", b"c1"), m, Position::First).unwrap();
            engine.assert_clause(fact(b"p", b"c2"), m, Position::Last).unwrap();
        } else {
            engine.assert_clause(fact(b"p", b"c2"), m, Position::Last).unwrap();
            engine.assert_clause(fact(b"p", b"c1"), m, Position::First).unwrap();
        }
        let x = Term::var(b"X");
        let goal = Term::compound(b"p", vec![x.duplicate()]);
        let found = engine.solve(m, &goal, &limits(), 10).unwrap();
        let values: Vec<Term> = found.iter().map(|s| s.resolve(&x, 10).unwrap()).collect();
        assert_eq!(values, vec![Term::atom(b"c1"), Term::atom(b"middle"), Term::atom(b"c2")]);
    }
}

#[test]
fn body_goals_are_resolved_left_to_right_with_backtracking() {
    let mut engine = Engine::new();
    let m = engine.add_module(b"m");
    let x = Term::var(b"X");
    let y = Term::var(b"Y");
    // r(X, Y) :- p(X), q(X, Y).
    let rule = Clause::new(
        Term::compound(b"r", vec![x.duplicate(), y.duplicate()]),
        vec![
            Term::compound(b"p", vec![x.duplicate()]),
            Term::compound(b"q", vec![x.duplicate(), y.duplicate()]),
        ],
    );
    engine.assert_clause(rule, m, Position::Last).unwrap();
    engine.assert_clause(fact(b"p", b"a"), m, Position::Last).unwrap();
    engine.assert_clause(fact(b"p", b"b"), m, Position::Last).unwrap();
    engine
        .assert_clause(Clause::fact(Term::compound(b"q", vec![Term::atom(b"b"), Term::atom(b"one")])), m, Position::Last)
        .unwrap();
    engine
        .assert_clause(Clause::fact(Term::compound(b"q", vec![Term::atom(b"b"), Term::atom(b"two")])), m, Position::Last)
        .unwrap();
    let goal = Term::compound(b"r", vec![x.duplicate(), y.duplicate()]);
    let found = engine.solve(m, &goal, &limits(), 10).unwrap();
    let values: Vec<Term> = found.iter().map(|s| s.resolve(&goal, 10).unwrap()).collect();
    assert_eq!(
        values,
        vec![
            Term::compound(b"r", vec![Term::atom(b"b"), Term::atom(b"one")]),
            Term::compound(b"r", vec![Term::atom(b"b"), Term::atom(b"two")]),
        ]
    );
}

#[test]
fn clauses_are_renamed_apart_at_each_use() {
    let mut engine = Engine::new();
    let m = engine.add_module(b"m");
    let x = Term::var(b"X");
    // n(zero).  n(s(X)) :- n(X).
    engine.assert_clause(fact(b"n", b"zero"), m, Position::Last).unwrap();
    engine
        .assert_clause(
            Clause::new(
                Term::compound(b"n", vec![Term::compound(b"s", vec![x.duplicate()])]),
                vec![Term::compound(b"n", vec![x.duplicate()])],
            ),
            m,
            Position::Last,
        )
        .unwrap();
    let found = engine.solve(m, &Term::compound(b"n", vec![x.duplicate()]), &limits(), 3).unwrap();
    let values: Vec<Vec<u8>> =
        found.iter().map(|s| mlatu::print::render(&s.resolve(&x, 10).unwrap())).collect();
    assert_eq!(values, vec![b"zero".to_vec(), b"s(zero)".to_vec(), b"s(s(zero))".to_vec()]);
}

#[test]
fn a_search_can_be_taken_up_after_the_step_limit() {
    let mut engine = Engine::new();
    let m = engine.add_module(b"m");
    engine.assert_clause(fact(b"p", b"a"), m, Position::Last).unwrap();
    let x = Term::var(b"X");
    let mut solver = engine.query(m, &Term::compound(b"p", vec![x.duplicate()])).unwrap();
    assert_eq!(solver.next_within(&engine, 10, 1), (Err(EngineError::StepLimit), 0));
    assert!(!solver.is_finished());
    let (answer, left) = solver.next_within(&engine, 10, 5);
    assert_eq!(answer.unwrap().unwrap().resolve(&x, 10), Ok(Term::atom(b"a")));
    assert_eq!(left, 4);
    let (end, left) = solver.next_within(&engine, 10, 5);
    assert_eq!(end, Ok(None));
    assert_eq!(left, 4);
    assert_eq!(solver.module(), m);
}

#[test]
fn endless_search_hits_the_step_limit() {
    let mut engine = Engine::new();
    let m = engine.add_module(b"m");
    let x = Term::var(b"X");
    // p(X) :- p(X).
    engine
        .assert_clause(
            Clause::new(Term::compound(b"p", vec![x.duplicate()]), vec![Term::compound(b"p", vec![x.duplicate()])]),
            m,
            Position::Last,
        )
        .unwrap();
    assert_eq!(engine.solve(m, &Term::compound(b"p", vec![Term::atom(b"a")]), &limits(), 1), Err(EngineError::StepLimit));
}

#[test]
fn modules_are_searched_apart() {
    let mut engine = Engine::new();
    let one = engine.add_module(b"one");
    let two = engine.add_module(b"two");
    assert_eq!((one, two), (0, 1));
    engine.assert_clause(fact(b"p", b"a"), one, Position::Last).unwrap();
    let goal = Term::compound(b"p", vec![Term::var(b"X")]);
    assert_eq!(engine.solve(one, &goal, &limits(), 5).unwrap().len(), 1);
    assert_eq!(engine.solve(two, &goal, &limits(), 5).unwrap().len(), 0);
    assert_eq!(engine.module(two).unwrap().name(), &b"two".to_vec());
    assert!(engine.module(2).is_none());
}
