use mlatu::codegen::{generate, install, CodegenError, InstallError};
use mlatu::engine::{Engine, Position};
use mlatu::limits::{EngineError, Limits};
use mlatu::parse::{rules, terms};
use mlatu::term::{Clause, Term, Variable};

fn limits() -> Limits {
    Limits { depth: 64, steps: 1000, rewrites: 100 }
}

fn engine_with(text: &[u8]) -> (Engine, usize) {
    let mut engine = Engine::new();
    let prelude = engine.add_module(b"prelude");
    assert_eq!(install(&mut engine, prelude, &rules(text).unwrap()), Ok(()));
    (engine, prelude)
}

fn term(text: &[u8]) -> Term {
    terms(text).unwrap().remove(0)
}

#[test]
fn add_zero_rewrites_to_its_argument() {
    let (engine, prelude) = engine_with(b"add(zero, Y) -> Y ;");
    let nf = engine.normalize(prelude, &term(b"add(zero, atom_x)"), &limits());
    assert_eq!(nf, Ok(Term::atom(b"atom_x")));
}

#[test]
fn undefined_variable_is_refused() {
    let mut engine = Engine::new();
    let prelude = engine.add_module(b"prelude");
    let bad = rules(b"f(X) -> g(Y) ;").unwrap();
    assert_eq!(
        generate(&mut engine, &bad),
        Err(CodegenError::UndefinedVariable { rule: 0, variable: Variable::new(b"Y", 0) })
    );
    assert_eq!(
        install(&mut engine, prelude, &bad),
        Err(InstallError::Rules(CodegenError::UndefinedVariable { rule: 0, variable: Variable::new(b"Y", 0) }))
    );
    assert_eq!(engine.module(prelude).unwrap().len(), 0);
    assert_eq!(engine.next_generation(), 1);
}

#[test]
fn a_bad_rule_blocks_the_whole_batch() {
    let mut engine = Engine::new();
    let prelude = engine.add_module(b"prelude");
    let batch = rules(b"a -> b; f(X) -> g(X, Z); c -> d;").unwrap();
    assert_eq!(
        install(&mut engine, prelude, &batch),
        Err(InstallError::Rules(CodegenError::UndefinedVariable { rule: 1, variable: Variable::new(b"Z", 0) }))
    );
    assert_eq!(engine.module(prelude).unwrap().len(), 0);
}

#[test]
fn rewrites_inside_arguments() {
    let (engine, prelude) = engine_with(b"add(zero, Y) -> Y; add(s(X), Y) -> s(add(X, Y));");
    let nf = engine.normalize(prelude, &term(b"add(s(s(zero)), s(zero))"), &limits());
    assert_eq!(nf, Ok(term(b"s(s(s(zero)))")));
}

#[test]
fn one_rewrite_at_a_time() {
    let (engine, prelude) = engine_with(b"a -> b; b -> c;");
    assert_eq!(engine.rewrite(prelude, &term(b"f(a, a)"), &limits()), Ok(Some(term(b"f(b, a)"))));
    assert_eq!(engine.rewrite(prelude, &term(b"f(c, a)"), &limits()), Ok(Some(term(b"f(c, b)"))));
    assert_eq!(engine.rewrite(prelude, &term(b"f(c, c)"), &limits()), Ok(None));
    assert_eq!(engine.rewrite_root(prelude, &term(b"f(a, a)"), &limits()), Ok(None));
    assert_eq!(engine.normalize(prelude, &term(b"f(a, a)"), &limits()), Ok(term(b"f(c, c)")));
}

#[test]
fn first_rule_in_stored_order_wins() {
    let (engine, prelude) = engine_with(b"pick(X, Y) -> X; pick(X, Y) -> Y;");
    assert_eq!(engine.normalize(prelude, &term(b"pick(left, right)"), &limits()), Ok(Term::atom(b"left")));
}

#[test]
fn a_term_without_rule_is_its_own_normal_form() {
    let (engine, prelude) = engine_with(b"add(zero, Y) -> Y;");
    assert_eq!(engine.normalize(prelude, &term(b"mul(zero, X)"), &limits()), Ok(term(b"mul(zero, X)")));
}

#[test]
fn variables_of_the_term_stand_for_themselves() {
    let (engine, prelude) = engine_with(b"f(a) -> b; g(X, X) -> same; h(X) -> k(X);");
    assert_eq!(engine.normalize(prelude, &term(b"f(Z)"), &limits()), Ok(term(b"f(Z)")));
    assert_eq!(engine.normalize(prelude, &term(b"g(A, B)"), &limits()), Ok(term(b"g(A, B)")));
    assert_eq!(engine.normalize(prelude, &term(b"g(A, A)"), &limits()), Ok(term(b"same")));
    assert_eq!(engine.normalize(prelude, &term(b"h(X)"), &limits()), Ok(term(b"k(X)")));
    assert_eq!(engine.normalize(prelude, &term(b"Z"), &limits()), Ok(term(b"Z")));
}

#[test]
fn a_later_rule_applies_where_an_earlier_one_would_bind() {
    let (engine, prelude) = engine_with(b"f(a) -> first; f(Y) -> second;");
    assert_eq!(engine.normalize(prelude, &term(b"f(Z)"), &limits()), Ok(term(b"second")));
    assert_eq!(engine.normalize(prelude, &term(b"f(a)"), &limits()), Ok(term(b"first")));
}

#[test]
fn endless_rewriting_hits_the_limit() {
    let (engine, prelude) = engine_with(b"loop -> loop;");
    assert_eq!(engine.normalize(prelude, &term(b"loop"), &limits()), Err(EngineError::RewriteLimit));
    let (engine, prelude) = engine_with(b"grow(X) -> grow(s(X));");
    let tight = Limits { depth: 8, steps: 1000, rewrites: 1000 };
    assert_eq!(engine.normalize(prelude, &term(b"grow(zero)"), &tight), Err(EngineError::DepthLimit));
}

#[test]
fn step_limit_is_reported() {
    let (engine, prelude) = engine_with(b"a -> b;");
    let tight = Limits { depth: 8, steps: 1, rewrites: 10 };
    assert_eq!(engine.normalize(prelude, &term(b"a"), &tight), Err(EngineError::StepLimit));
}

#[test]
fn unknown_module_is_reported() {
    let (engine, _) = engine_with(b"a -> b;");
    assert_eq!(engine.normalize(7, &term(b"a"), &limits()), Err(EngineError::UnknownModule));
    assert_eq!(engine.rewrite(7, &term(b"a"), &limits()), Err(EngineError::UnknownModule));
    assert!(matches!(engine.query(7, &term(b"a")), Err(EngineError::UnknownModule)));
}

#[test]
fn last_generation_leaves_no_room() {
    let (engine, prelude) = engine_with(b"a -> b;");
    let top = Term::var(b"X").rename(u64::MAX);
    assert_eq!(engine.normalize(prelude, &top, &limits()), Err(EngineError::VariableSupply));
    let almost = Term::var(b"X").rename(u64::MAX - 1);
    assert_eq!(engine.normalize(prelude, &almost, &limits()), Err(EngineError::VariableSupply));
}

#[test]
fn compiled_clauses_do_not_share_variables() {
    let mut engine = Engine::new();
    let batch = rules(b"f(X) -> X; g(X) -> X;").unwrap();
    let clauses = generate(&mut engine, &batch).unwrap();
    assert_eq!(clauses.len(), 2);
    assert_eq!(clauses[0].head, Term::compound(b"->", vec![Term::compound(b"f", vec![Term::var(b"X").rename(1)]), Term::var(b"X").rename(1)]));
    assert_eq!(clauses[1].head, Term::compound(b"->", vec![Term::compound(b"g", vec![Term::var(b"X").rename(2)]), Term::var(b"X").rename(2)]));
    assert!(clauses[0].body.is_empty());
    assert_eq!(engine.next_generation(), 3);
}

#[test]
fn peano_multiplication() {
    let (engine, prelude) = engine_with(
        b"add(zero, Y) -> Y;
          add(s(X), Y) -> s(add(X, Y));
          mul(zero, Y) -> zero;
          mul(s(X), Y) -> add(Y, mul(X, Y));",
    );
    let two = b"s(s(zero))";
    let mut text = b"mul(".to_vec();
    text.extend_from_slice(two);
    text.extend_from_slice(b", ");
    text.extend_from_slice(two);
    text.extend_from_slice(b")");
    assert_eq!(engine.normalize(prelude, &term(&text), &limits()), Ok(term(b"s(s(s(s(zero))))")));
}

#[test]
fn a_clause_with_a_body_rewrites_on_condition() {
    let (mut engine, prelude) = engine_with(b"unused -> unused2;");
    let x = Term::var(b"X");
    let y = Term::var(b"Y");
    // ->(next(X), Y) :- succ(X, Y).
    let conditional = Clause::new(
        Term::compound(b"->", vec![Term::compound(b"next", vec![x.duplicate()]), y.duplicate()]),
        vec![Term::compound(b"succ", vec![x.duplicate(), y.duplicate()])],
    );
    engine.assert_clause(conditional, prelude, Position::Last).unwrap();
    engine
        .assert_clause(Clause::fact(Term::compound(b"succ", vec![Term::atom(b"one"), Term::atom(b"two")])), prelude, Position::Last)
        .unwrap();
    assert_eq!(engine.normalize(prelude, &term(b"next(one)"), &limits()), Ok(Term::atom(b"two")));
    assert_eq!(engine.normalize(prelude, &term(b"next(five)"), &limits()), Ok(term(b"next(five)")));
    assert_eq!(engine.normalize(prelude, &term(b"pair(next(one), next(one))"), &limits()), Ok(term(b"pair(two, two)")));
}

#[test]
fn the_normal_form_admits_no_rewrite() {
    let (engine, prelude) = engine_with(b"add(zero, Y) -> Y; add(s(X), Y) -> s(add(X, Y));");
    let nf = engine.normalize(prelude, &term(b"add(s(zero), add(zero, k))"), &limits()).unwrap();
    assert_eq!(nf, term(b"s(k)"));
    assert_eq!(engine.rewrite(prelude, &nf, &limits()), Ok(None));
}
