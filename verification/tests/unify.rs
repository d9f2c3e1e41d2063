use mlatu::limits::EngineError;
use mlatu::term::{Term, Variable};
use mlatu::unify::Substitution;

fn f(args: Vec<Term>) -> Term {
    Term::compound(b"f", args)
}

#[test]
fn ground_term_unifies_with_itself() {
    let t = f(vec![Term::atom(b"a"), f(vec![Term::atom(b"b")])]);
    let s = Substitution::new().unify(&t, &t, 3).unwrap().unwrap();
    assert_eq!(s.len(), 0);
}

#[test]
fn depth_below_height_is_reported() {
    let t = f(vec![Term::atom(b"a"), f(vec![Term::atom(b"b")])]);
    assert_eq!(Substitution::new().unify(&t, &t, 2), Err(EngineError::DepthLimit));
    assert_eq!(Substitution::new().unify(&t, &t, 0), Err(EngineError::DepthLimit));
}

#[test]
fn different_functor_or_arity_clash() {
    let a = f(vec![Term::var(b"X")]);
    let b = Term::compound(b"g", vec![Term::var(b"X")]);
    let c = f(vec![Term::var(b"X"), Term::var(b"Y")]);
    assert_eq!(Substitution::new().unify(&a, &b, 10), Ok(None));
    assert_eq!(Substitution::new().unify(&a, &c, 10), Ok(None));
    assert_eq!(Substitution::new().unify(&Term::atom(b"a"), &Term::atom(b"b"), 10), Ok(None));
    assert_eq!(Substitution::new().unify(&Term::atom(b"f"), &f(vec![]), 10), Ok(None));
}

#[test]
fn variables_are_bound_and_followed() {
    let x = Term::var(b"X");
    let y = Term::var(b"Y");
    let s = Substitution::new().unify(&f(vec![x.duplicate(), y.duplicate()]), &f(vec![y.duplicate(), Term::atom(b"a")]), 10);
    let s = s.unwrap().unwrap();
    assert_eq!(s.len(), 2);
    assert_eq!(s.lookup(&Variable::new(b"X", 0)), Some(&y));
    assert_eq!(s.lookup(&Variable::new(b"Y", 0)), Some(&Term::atom(b"a")));
    assert_eq!(s.lookup(&Variable::new(b"Z", 0)), None);
    assert_eq!(s.resolve(&x, 10), Ok(Term::atom(b"a")));
    assert_eq!(s.resolve(&f(vec![x.duplicate(), Term::var(b"Z")]), 10), Ok(f(vec![Term::atom(b"a"), Term::var(b"Z")])));
}

#[test]
fn a_variable_meets_itself_without_binding() {
    let x = Term::var(b"X");
    let s = Substitution::new().unify(&x, &x, 10).unwrap().unwrap();
    assert_eq!(s.len(), 0);
}

#[test]
fn variables_of_different_generations_differ() {
    let x0 = Term::var(b"X");
    let x1 = x0.rename(1);
    let s = Substitution::new().unify(&x0, &x1, 10).unwrap().unwrap();
    assert_eq!(s.len(), 1);
    assert_eq!(s.binding(0), Some((&Variable::new(b"X", 1), &x0)));
    assert_eq!(s.binding(1), None);
    let s = Substitution::new().unify(&x1, &x0, 10).unwrap().unwrap();
    assert_eq!(s.binding(0), Some((&Variable::new(b"X", 1), &x0)));
}

#[test]
fn leaves_tells_whether_a_term_is_touched() {
    let x = Term::var(b"X");
    let y = Term::var(b"Y");
    let s = Substitution::new().unify(&x, &Term::atom(b"a"), 10).unwrap().unwrap();
    assert!(!s.leaves(&f(vec![Term::atom(b"b"), x.duplicate()])));
    assert!(s.leaves(&f(vec![Term::atom(b"b"), y.duplicate()])));
    assert!(s.leaves(&Term::atom(b"a")));
}

#[test]
fn no_occurs_check_and_the_depth_bounds_the_cycle() {
    let x = Term::var(b"X");
    let fx = f(vec![x.duplicate()]);
    let s = Substitution::new().unify(&x, &fx, 10).unwrap().unwrap();
    assert_eq!(s.len(), 1);
    assert_eq!(s.resolve(&x, 50), Err(EngineError::DepthLimit));
    assert_eq!(s.duplicate().unify(&fx, &x, 50), Err(EngineError::DepthLimit));
}
