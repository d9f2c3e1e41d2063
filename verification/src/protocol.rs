//! The messages between the engine and its clients, and what the engine
//! answers to each.
//!
//! The engine belongs to one thread. That thread takes one request at a
//! time, answers it in full, and only then takes the next: `handle` is one
//! such turn, and `serve` is a run of turns over the requests in the order
//! in which they came. Each request has exactly one response, so responses
//! leave in the order in which their requests arrived. A request is checked
//! before it reaches the search, and whatever goes wrong with it comes back
//! as a response: no request ends the thread.

use crate::codegen::{
    generated, install, install_into, installed, CodegenError, CodegenErrorView, InstallError,
};
use crate::engine::{answers, initial, subst_views, Engine, EngineView, Position};
use crate::limits::{EngineError, Limits};
use crate::rewrite::normal_form;
use crate::engine::ModuleView;
use crate::term::{
    clause_views, duplicate_clauses, duplicate_rules, rule_views, Clause, ClauseView, Rule,
    RuleView, Term, TermView,
};
use crate::unify::{SubstView, Substitution};
use vstd::prelude::*;

verus! {

/// The model of a request.
pub enum RequestView {
    Assert { module: nat, clauses: Seq<ClauseView>, position: Position },
    Define { module: nat, rules: Seq<RuleView> },
    Evaluate { module: nat, term: TermView },
    Solve { module: nat, goal: TermView, max: nat },
}

/// What a client asks of the engine.
#[derive(Debug, PartialEq, Eq)]
pub enum Request {
    /// Insert compiled clauses into a module, one after the other, each at
    /// the given end.
    Assert { module: usize, clauses: Vec<Clause>, position: Position },
    /// Compile rules and add their clauses at the end of a module.
    Define { module: usize, rules: Vec<Rule> },
    /// Rewrite a term to normal form with the clauses of a module.
    Evaluate { module: usize, term: Term },
    /// Find the first `max` answers to a goal in a module.
    Solve { module: usize, goal: Term, max: usize },
}

impl View for Request {
    type V = RequestView;

    open spec fn view(&self) -> RequestView {
        match self {
            Request::Assert { module, clauses, position } => RequestView::Assert {
                module: *module as nat,
                clauses: clause_views(clauses@),
                position: *position,
            },
            Request::Define { module, rules } => RequestView::Define {
                module: *module as nat,
                rules: rule_views(rules@),
            },
            Request::Evaluate { module, term } => RequestView::Evaluate {
                module: *module as nat,
                term: term@,
            },
            Request::Solve { module, goal, max } => RequestView::Solve {
                module: *module as nat,
                goal: goal@,
                max: *max as nat,
            },
        }
    }
}

/// The model of a reason for which a request failed.
pub enum FaultView {
    Engine(EngineError),
    Rules(CodegenErrorView),
}

/// Why a request failed.
#[derive(Debug, PartialEq, Eq)]
pub enum Fault {
    /// The engine could not carry the request out.
    Engine(EngineError),
    /// The rules of the request do not compile.
    Rules(CodegenError),
}

impl View for Fault {
    type V = FaultView;

    open spec fn view(&self) -> FaultView {
        match self {
            Fault::Engine(e) => FaultView::Engine(*e),
            Fault::Rules(e) => FaultView::Rules(e@),
        }
    }
}

/// The model of a response.
pub enum ResponseView {
    Done { clauses: nat },
    NormalForm(TermView),
    Solutions(Seq<SubstView>),
    Error(FaultView),
}

/// What the engine answers.
#[derive(Debug, PartialEq, Eq)]
pub enum Response {
    /// The clauses were added; their number.
    Done { clauses: usize },
    /// The normal form of the term.
    NormalForm(Term),
    /// The answers found, in the order of the search.
    Solutions(Vec<Substitution>),
    /// The request failed, and the engine is as it was.
    Error(Fault),
}

impl View for Response {
    type V = ResponseView;

    open spec fn view(&self) -> ResponseView {
        match self {
            Response::Done { clauses } => ResponseView::Done { clauses: *clauses as nat },
            Response::NormalForm(t) => ResponseView::NormalForm(t@),
            Response::Solutions(found) => ResponseView::Solutions(subst_views(found@)),
            Response::Error(fault) => ResponseView::Error(fault@),
        }
    }
}

/// The models of a list of requests, in order.
pub open spec fn request_views(rs: Seq<Request>) -> Seq<RequestView> {
    Seq::new(rs.len(), |i: int| rs[i]@)
}

/// The models of a list of responses, in order.
pub open spec fn response_views(rs: Seq<Response>) -> Seq<ResponseView> {
    Seq::new(rs.len(), |i: int| rs[i]@)
}

/// The engine after the clauses from index `from` on were inserted into the
/// module, one after the other, each at the given end.
pub open spec fn asserted(
    e: EngineView,
    module: int,
    clauses: Seq<ClauseView>,
    position: Position,
    from: int,
) -> EngineView
    decreases clauses.len() - from,
{
    if from < 0 || from >= clauses.len() {
        e
    } else {
        asserted(e.inserted(clauses[from], module, position), module, clauses, position, from + 1)
    }
}

/// The engine after a request, and the response to it.
pub open spec fn respond(e: EngineView, limits: Limits, request: RequestView) -> (
    EngineView,
    ResponseView,
) {
    match request {
        RequestView::Assert { module, clauses, position } => if module >= e.modules.len() {
            (e, ResponseView::Error(FaultView::Engine(EngineError::UnknownModule)))
        } else {
            (
                asserted(e, module as int, clauses, position, 0),
                ResponseView::Done { clauses: clauses.len() },
            )
        },
        RequestView::Define { module, rules } => if module >= e.modules.len() {
            (e, ResponseView::Error(FaultView::Engine(EngineError::UnknownModule)))
        } else {
            match generated(rules, e.next_generation) {
                Err(x) => (e, ResponseView::Error(FaultView::Rules(x))),
                Ok(_) => (
                    installed(e, module as int, rules),
                    ResponseView::Done { clauses: rules.len() },
                ),
            }
        },
        RequestView::Evaluate { module, term } => if module >= e.modules.len() {
            (e, ResponseView::Error(FaultView::Engine(EngineError::UnknownModule)))
        } else {
            match normal_form(
                e.modules[module as int].clauses,
                module,
                term,
                limits,
                limits.rewrites as nat,
            ) {
                Ok(nf) => (e, ResponseView::NormalForm(nf)),
                Err(x) => (e, ResponseView::Error(FaultView::Engine(x))),
            }
        },
        RequestView::Solve { module, goal, max } => if module >= e.modules.len() {
            (e, ResponseView::Error(FaultView::Engine(EngineError::UnknownModule)))
        } else if goal.ceiling() > u64::MAX {
            (e, ResponseView::Error(FaultView::Engine(EngineError::VariableSupply)))
        } else {
            match answers(
                e.modules[module as int].clauses,
                initial(module, goal),
                limits.depth as nat,
                limits.steps as nat,
                max,
            ) {
                Ok(found) => (e, ResponseView::Solutions(found)),
                Err(x) => (e, ResponseView::Error(FaultView::Engine(x))),
            }
        },
    }
}

/// The engine after the first `n` of the requests, each answered in full
/// before the next is taken.
pub open spec fn state_after(e: EngineView, limits: Limits, requests: Seq<RequestView>, n: nat) -> EngineView
    decreases n,
{
    if n == 0 || n > requests.len() {
        e
    } else {
        respond(state_after(e, limits, requests, (n - 1) as nat), limits, requests[n - 1]).0
    }
}

/// The responses to the requests, in the order of the requests: the one at
/// index `i` is the answer to the request at index `i`, given by the engine
/// as the requests before it left it.
pub open spec fn responses(e: EngineView, limits: Limits, requests: Seq<RequestView>) -> Seq<
    ResponseView,
> {
    Seq::new(
        requests.len(),
        |i: int| respond(state_after(e, limits, requests, i as nat), limits, requests[i]).1,
    )
}

/// Of two requests, the first to arrive is the first to be answered, and the
/// second is answered by the engine as the first left it.
pub proof fn lemma_responses_in_order(
    e: EngineView,
    limits: Limits,
    first: RequestView,
    second: RequestView,
)
    ensures
        responses(e, limits, seq![first, second]) == seq![
            respond(e, limits, first).1,
            respond(respond(e, limits, first).0, limits, second).1,
        ],
        state_after(e, limits, seq![first, second], 2) == respond(
            respond(e, limits, first).0,
            limits,
            second,
        ).0,
{
    let requests = seq![first, second];
    assert(state_after(e, limits, requests, 0) == e);
    assert(state_after(e, limits, requests, 1) == respond(e, limits, requests[0]).0);
    assert(responses(e, limits, requests) =~= seq![
        respond(e, limits, first).1,
        respond(respond(e, limits, first).0, limits, second).1,
    ]);
}

/// Inserts the clauses into the module, one after the other, each at the
/// given end.
fn assert_all(engine: &mut Engine, module: usize, clauses: &Vec<Clause>, position: Position)
    requires
        module < old(engine)@.modules.len(),
    ensures
        final(engine)@ == asserted(
            old(engine)@,
            module as int,
            clause_views(clauses@),
            position,
            0,
        ),
{
    let mut i: usize = 0;
    while i < clauses.len()
        invariant
            i <= clauses.len(),
            module < engine@.modules.len(),
            asserted(old(engine)@, module as int, clause_views(clauses@), position, 0) == asserted(
                engine@,
                module as int,
                clause_views(clauses@),
                position,
                i as int,
            ),
        decreases clauses.len() - i,
    {
        assert(clause_views(clauses@)[i as int] == clauses@[i as int]@);
        let ghost before = engine@;
        let r = engine.assert_clause(clauses[i].clone(), module, position);
        assert(engine@.modules.len() == before.modules.len());
        i += 1;
    }
}

/// Answers one request. The engine changes only where the request adds
/// clauses and succeeds.
pub fn handle(engine: &mut Engine, limits: &Limits, request: &Request) -> (response: Response)
    ensures
        (final(engine)@, response@) == respond(old(engine)@, *limits, request@),
{
    match request {
        Request::Assert { module, clauses, position } => {
            if *module >= engine.module_count() {
                return Response::Error(Fault::Engine(EngineError::UnknownModule));
            }
            assert_all(engine, *module, clauses, *position);
            Response::Done { clauses: clauses.len() }
        },
        Request::Define { module, rules } => match install(engine, *module, rules) {
            Ok(()) => Response::Done { clauses: rules.len() },
            Err(InstallError::UnknownModule) => Response::Error(
                Fault::Engine(EngineError::UnknownModule),
            ),
            Err(InstallError::Rules(e)) => Response::Error(Fault::Rules(e)),
        },
        Request::Evaluate { module, term } => match engine.normalize(*module, term, limits) {
            Ok(nf) => Response::NormalForm(nf),
            Err(e) => Response::Error(Fault::Engine(e)),
        },
        Request::Solve { module, goal, max } => match engine.solve(*module, goal, limits, *max) {
            Ok(found) => Response::Solutions(found),
            Err(e) => Response::Error(Fault::Engine(e)),
        },
    }
}

/// Answers the requests one after the other, in their order, and returns
/// the responses in the same order.
pub fn serve(engine: &mut Engine, limits: &Limits, requests: &Vec<Request>) -> (out: Vec<Response>)
    ensures
        response_views(out@) == responses(old(engine)@, *limits, request_views(requests@)),
        final(engine)@ == state_after(
            old(engine)@,
            *limits,
            request_views(requests@),
            requests@.len(),
        ),
{
    let ghost views = request_views(requests@);
    let ghost start = engine@;
    let mut out: Vec<Response> = Vec::new();
    let mut i: usize = 0;
    while i < requests.len()
        invariant
            i <= requests.len(),
            views == request_views(requests@),
            out.len() == i,
            engine@ == state_after(start, *limits, views, i as nat),
            forall|j: int|
                0 <= j < i ==> (#[trigger] out@[j])@ == respond(
                    state_after(start, *limits, views, j as nat),
                    *limits,
                    views[j],
                ).1,
        decreases requests.len() - i,
    {
        assert(views[i as int] == requests@[i as int]@);
        let response = handle(engine, limits, &requests[i]);
        out.push(response);
        i += 1;
    }
    assert(response_views(out@) =~= responses(start, *limits, views));
    out
}

impl Clone for Request {
    fn clone(&self) -> (r: Request)
        ensures
            r@ == self@,
    {
        match self {
            Request::Assert { module, clauses, position } => Request::Assert {
                module: *module,
                clauses: duplicate_clauses(clauses),
                position: *position,
            },
            Request::Define { module, rules } => Request::Define {
                module: *module,
                rules: duplicate_rules(rules),
            },
            Request::Evaluate { module, term } => Request::Evaluate {
                module: *module,
                term: term.duplicate(),
            },
            Request::Solve { module, goal, max } => Request::Solve {
                module: *module,
                goal: goal.duplicate(),
                max: *max,
            },
        }
    }
}

/// Whether a response is of a kind that answers the request: an error
/// answers any request, and else clauses added answer `Assert` and `Define`,
/// a normal form answers `Evaluate`, and solutions answer `Solve`.
pub open spec fn fits(request: RequestView, response: ResponseView) -> bool {
    match response {
        ResponseView::Error(_) => true,
        ResponseView::Done { .. } => request is Assert || request is Define,
        ResponseView::NormalForm(_) => request is Evaluate,
        ResponseView::Solutions(_) => request is Solve,
    }
}

/// What the engine answers is of a kind that answers the request.
pub proof fn lemma_respond_fits(e: EngineView, limits: Limits, request: RequestView)
    ensures
        fits(request, respond(e, limits, request).1),
{
}

impl Response {
    /// Whether the response is of a kind that answers the request.
    pub fn answers(&self, request: &Request) -> (r: bool)
        ensures
            r == fits(request@, self@),
    {
        match self {
            Response::Error(_) => true,
            Response::Done { .. } => match request {
                Request::Assert { .. } => true,
                Request::Define { .. } => true,
                _ => false,
            },
            Response::NormalForm(_) => match request {
                Request::Evaluate { .. } => true,
                _ => false,
            },
            Response::Solutions(_) => match request {
                Request::Solve { .. } => true,
                _ => false,
            },
        }
    }
}

/// The handle of the module that `boot` makes.
pub const PRELUDE: usize = 0;

/// The name of the module that `boot` makes: the bytes of `prelude`.
pub open spec fn prelude_name() -> Seq<u8> {
    seq![112u8, 114u8, 101u8, 108u8, 117u8, 100u8, 101u8]
}

/// The engine before the first rule: one empty module, the prelude.
pub open spec fn fresh() -> EngineView {
    EngineView {
        modules: seq![ModuleView { name: prelude_name(), clauses: Seq::empty() }],
        next_generation: 1,
    }
}

/// The rules of the first `n` rule sets, one set after the other.
pub open spec fn joined(sets: Seq<Seq<RuleView>>, n: nat) -> Seq<RuleView>
    decreases n,
{
    if n == 0 || n > sets.len() {
        Seq::empty()
    } else {
        joined(sets, (n - 1) as nat) + sets[n - 1]
    }
}

/// The models of a list of rule sets, in order.
pub open spec fn rule_set_views(sets: Seq<Vec<Rule>>) -> Seq<Seq<RuleView>> {
    Seq::new(sets.len(), |i: int| rule_views(sets[i]@))
}

/// The rules of all the sets, one set after the other.
pub fn join(sets: &Vec<Vec<Rule>>) -> (all: Vec<Rule>)
    ensures
        rule_views(all@) == joined(rule_set_views(sets@), sets@.len()),
{
    let mut all: Vec<Rule> = Vec::new();
    let mut i: usize = 0;
    assert(rule_views(all@) =~= Seq::<RuleView>::empty());
    while i < sets.len()
        invariant
            i <= sets.len(),
            rule_views(all@) == joined(rule_set_views(sets@), i as nat),
        decreases sets.len() - i,
    {
        let set = &sets[i];
        let ghost base = rule_views(all@);
        let mut j: usize = 0;
        while j < set.len()
            invariant
                j <= set.len(),
                rule_views(all@) == base + rule_views(set@).take(j as int),
            decreases set.len() - j,
        {
            let ghost before = rule_views(all@);
            all.push(set[j].clone());
            assert(rule_views(all@) =~= before.push(set@[j as int]@));
            assert(rule_views(set@).take(j + 1) =~= rule_views(set@).take(j as int).push(
                set@[j as int]@,
            ));
            j += 1;
        }
        assert(rule_views(set@).take(j as int) =~= rule_views(set@));
        assert(rule_set_views(sets@)[i as int] == rule_views(set@));
        i += 1;
    }
    all
}

/// Makes the engine that a session starts with: the prelude module, holding
/// the clauses of all the rule sets, compiled as one batch.
///
/// Fails exactly when the batch does not compile. No engine is handed out
/// then, so that no request can be served from a part of the rules.
pub fn boot(sets: &Vec<Vec<Rule>>) -> (r: Result<Engine, CodegenError>)
    ensures
        match r {
            Ok(engine) => generated(joined(rule_set_views(sets@), sets@.len()), 1) is Ok
                && engine@ == installed(
                fresh(),
                PRELUDE as int,
                joined(rule_set_views(sets@), sets@.len()),
            ),
            Err(e) => generated(joined(rule_set_views(sets@), sets@.len()), 1) == Err::<
                Seq<ClauseView>,
                CodegenErrorView,
            >(e@),
        },
{
    let mut engine = Engine::new();
    let name: [u8; 7] = [112, 114, 101, 108, 117, 100, 101];
    let prelude = engine.add_module(name.as_slice());
    assert(name@ =~= prelude_name());
    assert(engine@.modules =~= fresh().modules);
    let rules = join(sets);
    match install_into(&mut engine, prelude, &rules) {
        Ok(()) => Ok(engine),
        Err(e) => Err(e),
    }
}

} // verus!
