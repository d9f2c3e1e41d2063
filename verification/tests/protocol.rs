use mlatu::codegen::CodegenError;
use mlatu::engine::{Engine, Position};
use mlatu::limits::{EngineError, Limits};
use mlatu::parse::{rules, terms};
use mlatu::protocol::{boot, handle, serve, Fault, Request, Response, PRELUDE};
use mlatu::session::{Exchange, Session, SessionError};
use mlatu::term::{Clause, Term, Variable};

fn limits() -> Limits {
    Limits { depth: 64, steps: 1000, rewrites: 100 }
}

fn term(text: &[u8]) -> Term {
    terms(text).unwrap().remove(0)
}

fn fact(text: &[u8]) -> Clause {
    Clause::fact(term(text))
}

#[test]
fn boot_installs_all_rule_sets_in_order() {
    let sets = vec![rules(b"a -> b;").unwrap(), vec![], rules(b"b -> c; c -> d;").unwrap()];
    let engine = boot(&sets).unwrap();
    assert_eq!(engine.module_count(), 1);
    let prelude = engine.module(PRELUDE).unwrap();
    assert_eq!(prelude.name(), &b"prelude".to_vec());
    assert_eq!(prelude.len(), 3);
    assert_eq!(
        prelude.clause(2).unwrap().head,
        Term::compound(b"->", vec![Term::atom(b"c"), Term::atom(b"d")])
    );
    assert_eq!(engine.normalize(PRELUDE, &term(b"a"), &limits()), Ok(Term::atom(b"d")));
}

#[test]
fn boot_refuses_a_batch_with_an_open_rule() {
    let sets = vec![rules(b"a -> b;").unwrap(), rules(b"f(X) -> g(Y);").unwrap()];
    match boot(&sets) {
        Err(e) => assert_eq!(e, CodegenError::UndefinedVariable { rule: 1, variable: Variable::new(b"Y", 0) }),
        Ok(_) => panic!("an engine was handed out"),
    }
}

#[test]
fn responses_come_in_request_order() {
    let mut engine = boot(&vec![]).unwrap();
    let requests = vec![
        Request::Evaluate { module: PRELUDE, term: term(b"a") },
        Request::Define { module: PRELUDE, rules: rules(b"a -> b;").unwrap() },
        Request::Evaluate { module: PRELUDE, term: term(b"a") },
    ];
    let responses = serve(&mut engine, &limits(), &requests);
    assert_eq!(
        responses,
        vec![
            Response::NormalForm(Term::atom(b"a")),
            Response::Done { clauses: 1 },
            Response::NormalForm(Term::atom(b"b")),
        ]
    );
}

#[test]
fn serve_is_a_run_of_handles() {
    let requests = vec![
        Request::Define { module: PRELUDE, rules: rules(b"n -> zero;").unwrap() },
        Request::Evaluate { module: PRELUDE, term: term(b"s(n)") },
    ];
    let mut one = boot(&vec![]).unwrap();
    let mut other = boot(&vec![]).unwrap();
    let together = serve(&mut one, &limits(), &requests);
    let apart: Vec<Response> = requests.iter().map(|r| handle(&mut other, &limits(), r)).collect();
    assert_eq!(together, apart);
}

#[test]
fn a_bad_request_is_answered_not_fatal() {
    let mut engine = boot(&vec![]).unwrap();
    let requests = vec![
        Request::Evaluate { module: 9, term: term(b"a") },
        Request::Assert { module: 9, clauses: vec![fact(b"p(a)")], position: Position::Last },
        Request::Define { module: 9, rules: vec![] },
        Request::Solve { module: 9, goal: term(b"p(X)"), max: 1 },
        Request::Define { module: PRELUDE, rules: rules(b"f(X) -> g(Y);").unwrap() },
        Request::Solve { module: PRELUDE, goal: Term::var(b"X").rename(u64::MAX), max: 1 },
        Request::Evaluate { module: PRELUDE, term: term(b"a") },
    ];
    let unknown = Response::Error(Fault::Engine(EngineError::UnknownModule));
    assert_eq!(
        serve(&mut engine, &limits(), &requests),
        vec![
            Response::Error(Fault::Engine(EngineError::UnknownModule)),
            Response::Error(Fault::Engine(EngineError::UnknownModule)),
            Response::Error(Fault::Engine(EngineError::UnknownModule)),
            unknown,
            Response::Error(Fault::Rules(CodegenError::UndefinedVariable {
                rule: 0,
                variable: Variable::new(b"Y", 0)
            })),
            Response::Error(Fault::Engine(EngineError::VariableSupply)),
            Response::NormalForm(Term::atom(b"a")),
        ]
    );
    assert_eq!(engine.module(PRELUDE).unwrap().len(), 0);
}

#[test]
fn assert_inserts_each_clause_at_the_given_end() {
    let mut engine = boot(&vec![]).unwrap();
    let at_end = Request::Assert {
        module: PRELUDE,
        clauses: vec![fact(b"p(a)"), fact(b"p(b)")],
        position: Position::Last,
    };
    let at_front = Request::Assert {
        module: PRELUDE,
        clauses: vec![fact(b"p(c)"), fact(b"p(d)")],
        position: Position::First,
    };
    assert_eq!(handle(&mut engine, &limits(), &at_end), Response::Done { clauses: 2 });
    assert_eq!(handle(&mut engine, &limits(), &at_front), Response::Done { clauses: 2 });
    let stored: Vec<Term> =
        (0..4).map(|i| engine.module(PRELUDE).unwrap().clause(i).unwrap().head.duplicate()).collect();
    assert_eq!(stored, vec![term(b"p(d)"), term(b"p(c)"), term(b"p(a)"), term(b"p(b)")]);
}

#[test]
fn solve_enumerates_in_stored_order() {
    let mut engine = boot(&vec![]).unwrap();
    engine.assert_clause(fact(b"p(b)"), PRELUDE, Position::Last).unwrap();
    engine.assert_clause(fact(b"p(a)"), PRELUDE, Position::First).unwrap();
    engine.assert_clause(fact(b"q(z)"), PRELUDE, Position::Last).unwrap();
    engine.assert_clause(fact(b"p(c)"), PRELUDE, Position::Last).unwrap();
    let x = Term::var(b"X");
    let solve = |max: usize| match handle(
        &mut boot_copy(&engine),
        &limits(),
        &Request::Solve { module: PRELUDE, goal: term(b"p(X)"), max },
    ) {
        Response::Solutions(found) => {
            found.iter().map(|s| s.resolve(&x, 10).unwrap()).collect::<Vec<Term>>()
        }
        other => panic!("{:?}", other),
    };
    assert_eq!(solve(10), vec![Term::atom(b"a"), Term::atom(b"b"), Term::atom(b"c")]);
    assert_eq!(solve(2), vec![Term::atom(b"a"), Term::atom(b"b")]);
    assert_eq!(solve(1), vec![Term::atom(b"a")]);
    assert_eq!(solve(0), Vec::<Term>::new());
}

fn boot_copy(engine: &Engine) -> Engine {
    let mut copy = boot(&vec![]).unwrap();
    let module = engine.module(PRELUDE).unwrap();
    for i in 0..module.len() {
        copy.assert_clause(module.clause(i).unwrap().clone(), PRELUDE, Position::Last).unwrap();
    }
    copy
}

#[test]
fn session_turns_lines_into_requests() {
    let mut session = Session::new(PRELUDE);
    let sent = session.submit(b"add(zero, Y) -> Y;").unwrap();
    assert_eq!(sent, vec![Request::Define { module: PRELUDE, rules: rules(b"add(zero, Y) -> Y;").unwrap() }]);
    let sent = session.submit(b"add(zero, a) b").unwrap();
    assert_eq!(
        sent,
        vec![
            Request::Evaluate { module: PRELUDE, term: term(b"add(zero, a)") },
            Request::Evaluate { module: PRELUDE, term: term(b"b") },
        ]
    );
    assert_eq!(session.pending(), 3);
    assert_eq!(session.submit(b"  % nothing"), Ok(vec![]));
    assert_eq!(session.pending(), 3);
}

#[test]
fn session_reports_the_reading_that_got_further() {
    let mut session = Session::new(PRELUDE);
    match session.submit(b"f(X) -> g(X)") {
        Err(SessionError::Syntax(e)) => assert_eq!(e.offset, 12),
        other => panic!("{:?}", other),
    }
    match session.submit(b"f(a,, b)") {
        Err(SessionError::Syntax(e)) => assert_eq!(e.offset, 4),
        other => panic!("{:?}", other),
    }
    assert_eq!(session.pending(), 0);
}

#[test]
fn session_pairs_responses_with_requests_in_order() {
    let mut engine = boot(&vec![rules(b"add(zero, Y) -> Y;").unwrap()]).unwrap();
    let mut session = Session::new(PRELUDE);
    let mut sent = session.submit(b"add(zero, a) add(zero, b)").unwrap();
    sent.extend(session.submit(b"c -> d;").unwrap());
    for response in serve(&mut engine, &limits(), &sent) {
        assert_eq!(session.receive(response), Ok(()));
    }
    assert_eq!(session.pending(), 0);
    assert_eq!(session.answered(), 3);
    assert_eq!(
        session.exchange(0),
        Some(&Exchange {
            request: Request::Evaluate { module: PRELUDE, term: term(b"add(zero, a)") },
            response: Response::NormalForm(Term::atom(b"a")),
        })
    );
    assert_eq!(session.exchange(1).unwrap().response, Response::NormalForm(Term::atom(b"b")));
    assert_eq!(session.exchange(2).unwrap().response, Response::Done { clauses: 1 });
    assert_eq!(session.exchange(3), None);
}

#[test]
fn session_refuses_what_does_not_fit() {
    let mut session = Session::new(PRELUDE);
    assert_eq!(session.receive(Response::Done { clauses: 0 }), Err(SessionError::Unsolicited));
    session.submit(b"a").unwrap();
    assert_eq!(session.receive(Response::Done { clauses: 0 }), Err(SessionError::Mismatched));
    assert_eq!(session.receive(Response::Solutions(vec![])), Err(SessionError::Mismatched));
    assert_eq!(session.pending(), 1);
    assert_eq!(session.receive(Response::Error(Fault::Engine(EngineError::StepLimit))), Ok(()));
    assert_eq!(session.answered(), 1);
}

#[test]
fn session_observes_disconnection() {
    let mut session = Session::new(PRELUDE);
    session.submit(b"a b c").unwrap();
    assert!(session.is_connected());
    assert_eq!(session.disconnect(), 3);
    assert!(!session.is_connected());
    assert_eq!(session.pending(), 0);
    assert_eq!(session.submit(b"a"), Err(SessionError::Disconnected));
    assert_eq!(session.receive(Response::NormalForm(Term::atom(b"a"))), Err(SessionError::Disconnected));
}
