//! The front end's side of the protocol.
//!
//! A session turns what the user enters into requests and pairs each
//! response with the request that it answers. It does no input or output
//! itself: the caller sends what `submit` returns, hands each response that
//! arrives to `receive`, and calls `disconnect` when the engine is gone.
//! Responses arrive in the order of the requests, so the oldest request
//! without a response is the one that the next response answers.

use crate::parse::{parse_rules, parse_terms, rules, terms, ParseError};
use crate::protocol::{fits, request_views, Request, RequestView, Response, ResponseView};
use crate::term::{rule_views, term_views, RuleView, TermView};
use std::collections::VecDeque;
use vstd::prelude::*;

verus! {

/// What a line of input holds.
pub enum Reading {
    /// One rule or more, to be added to the engine.
    Rules(Seq<RuleView>),
    /// Terms, each to be rewritten to normal form.
    Terms(Seq<TermView>),
}

/// What a line of input holds. A line that reads as one rule or more holds
/// rules. Any other line is read as terms; where it is no sequence of terms
/// either, the error is that of the reading that got further into the line,
/// that of the terms where both got equally far.
pub open spec fn read_line(line: Seq<u8>) -> Result<Reading, ParseError> {
    match parse_rules(line) {
        Ok(rs) => if rs.len() > 0 {
            Ok(Reading::Rules(rs))
        } else {
            match parse_terms(line) {
                Ok(ts) => Ok(Reading::Terms(ts)),
                Err(e) => Err(e),
            }
        },
        Err(as_rules) => match parse_terms(line) {
            Ok(ts) => Ok(Reading::Terms(ts)),
            Err(as_terms) => if as_rules.offset > as_terms.offset {
                Err(as_rules)
            } else {
                Err(as_terms)
            },
        },
    }
}

/// The requests that a line's content becomes: one `Define` for rules, one
/// `Evaluate` for each term.
pub open spec fn requests_for(module: nat, reading: Reading) -> Seq<RequestView> {
    match reading {
        Reading::Rules(rules) => seq![RequestView::Define { module, rules }],
        Reading::Terms(ts) => Seq::new(
            ts.len(),
            |i: int| RequestView::Evaluate { module, term: ts[i] },
        ),
    }
}

/// The model of a session.
pub struct SessionView {
    /// The module that the session's requests name.
    pub module: nat,
    /// The requests sent and not yet answered, oldest first.
    pub pending: Seq<RequestView>,
    /// The requests answered, each with its response, oldest first.
    pub transcript: Seq<(RequestView, ResponseView)>,
    /// Whether the engine is still there.
    pub connected: bool,
}

/// A request with the response that answered it.
#[derive(Debug, PartialEq, Eq)]
pub struct Exchange {
    pub request: Request,
    pub response: Response,
}

/// Why a session refused an input or a response.
#[derive(Debug, Clone, Copy, PartialEq, Eq, Hash, Structural)]
pub enum SessionError {
    /// The line is neither rules nor terms.
    Syntax(ParseError),
    /// The engine is gone.
    Disconnected,
    /// A response came though no request waits for one.
    Unsolicited,
    /// The response is not of a kind that answers the oldest request.
    Mismatched,
}

/// A front end's session with the engine.
pub struct Session {
    module: usize,
    pending: VecDeque<Request>,
    transcript: Vec<Exchange>,
    connected: bool,
}

impl View for Session {
    type V = SessionView;

    closed spec fn view(&self) -> SessionView {
        SessionView {
            module: self.module as nat,
            pending: Seq::new(self.pending@.len(), |i: int| self.pending@[i]@),
            transcript: Seq::new(
                self.transcript@.len(),
                |i: int| (self.transcript@[i].request@, self.transcript@[i].response@),
            ),
            connected: self.connected,
        }
    }
}

/// The model of what `submit` returns.
pub open spec fn submitted_view(r: Result<Vec<Request>, SessionError>) -> Result<
    Seq<RequestView>,
    SessionError,
> {
    match r {
        Ok(requests) => Ok(request_views(requests@)),
        Err(e) => Err(e),
    }
}

impl SessionView {
    /// What `submit` returns for a line.
    pub open spec fn submitted(self, line: Seq<u8>) -> Result<Seq<RequestView>, SessionError> {
        if !self.connected {
            Err(SessionError::Disconnected)
        } else {
            match read_line(line) {
                Err(e) => Err(SessionError::Syntax(e)),
                Ok(reading) => Ok(requests_for(self.module, reading)),
            }
        }
    }

    /// The session after a line was submitted: the requests made of it wait
    /// behind those that waited before.
    pub open spec fn after_submit(self, line: Seq<u8>) -> SessionView {
        match self.submitted(line) {
            Ok(requests) => SessionView { pending: self.pending + requests, ..self },
            Err(_) => self,
        }
    }

    /// What `receive` returns for a response.
    pub open spec fn received(self, response: ResponseView) -> Result<(), SessionError> {
        if !self.connected {
            Err(SessionError::Disconnected)
        } else if self.pending.len() == 0 {
            Err(SessionError::Unsolicited)
        } else if !fits(self.pending[0], response) {
            Err(SessionError::Mismatched)
        } else {
            Ok(())
        }
    }

    /// The session after a response arrived: where it is accepted, it is
    /// paired with the oldest waiting request.
    pub open spec fn after_receive(self, response: ResponseView) -> SessionView {
        match self.received(response) {
            Ok(()) => SessionView {
                pending: self.pending.skip(1),
                transcript: self.transcript.push((self.pending[0], response)),
                ..self
            },
            Err(_) => self,
        }
    }
}

/// The first two responses that arrive answer the first two requests that
/// wait, in their order.
pub proof fn lemma_pairs_in_order(s: SessionView, first: ResponseView, second: ResponseView)
    requires
        s.connected,
        s.pending.len() >= 2,
        fits(s.pending[0], first),
        fits(s.pending[1], second),
    ensures
        s.after_receive(first).after_receive(second).transcript == s.transcript.push(
            (s.pending[0], first),
        ).push((s.pending[1], second)),
        s.after_receive(first).after_receive(second).pending == s.pending.skip(2),
{
    let one = s.after_receive(first);
    assert(one.pending[0] == s.pending[1]);
    assert(one.pending.skip(1) =~= s.pending.skip(2));
}

impl Session {
    /// A session whose requests name the given module, with nothing sent
    /// yet.
    pub fn new(module: usize) -> (s: Session)
        ensures
            s@ == (SessionView {
                module: module as nat,
                pending: Seq::empty(),
                transcript: Seq::empty(),
                connected: true,
            }),
    {
        let s = Session {
            module,
            pending: VecDeque::new(),
            transcript: Vec::new(),
            connected: true,
        };
        assert(s@.pending =~= Seq::empty());
        assert(s@.transcript =~= Seq::empty());
        s
    }

    /// The number of requests that wait for a response.
    pub fn pending(&self) -> (n: usize)
        ensures
            n == self@.pending.len(),
    {
        self.pending.len()
    }

    /// Whether the engine is still there.
    pub fn is_connected(&self) -> (r: bool)
        ensures
            r == self@.connected,
    {
        self.connected
    }

    /// The number of requests answered.
    pub fn answered(&self) -> (n: usize)
        ensures
            n == self@.transcript.len(),
    {
        self.transcript.len()
    }

    /// The request and response at index `i` of the transcript, if there
    /// are that many.
    pub fn exchange(&self, i: usize) -> (x: Option<&Exchange>)
        ensures
            match x {
                Some(x) => i < self@.transcript.len() && (x.request@, x.response@)
                    == self@.transcript[i as int],
                None => i >= self@.transcript.len(),
            },
    {
        if i < self.transcript.len() {
            Some(&self.transcript[i])
        } else {
            None
        }
    }

    /// Reads a line of input and returns the requests to send for it, which
    /// from now on wait for their responses.
    ///
    /// Fails with `Disconnected` exactly when the engine is gone, and else
    /// with `Syntax` exactly when the line is neither rules nor terms. On
    /// failure nothing is to be sent and the session is as it was.
    pub fn submit(&mut self, line: &[u8]) -> (r: Result<Vec<Request>, SessionError>)
        ensures
            submitted_view(r) == old(self)@.submitted(line@),
            final(self)@ == old(self)@.after_submit(line@),
    {
        if !self.connected {
            return Err(SessionError::Disconnected);
        }
        let module = self.module;
        let mut requests: Vec<Request> = Vec::new();
        let as_rules = rules(line);
        let rules_error = match as_rules {
            Ok(rs) => {
                if rs.len() > 0 {
                    requests.push(Request::Define { module, rules: rs });
                    assert(request_views(requests@) =~= requests_for(
                        module as nat,
                        Reading::Rules(rule_views(rs@)),
                    ));
                    self.enqueue(&requests);
                    return Ok(requests);
                }
                None
            },
            Err(e) => Some(e),
        };
        match terms(line) {
            Ok(ts) => {
                let mut i: usize = 0;
                while i < ts.len()
                    invariant
                        i <= ts.len(),
                        requests.len() == i,
                        forall|j: int|
                            0 <= j < i ==> (#[trigger] requests@[j])@ == (RequestView::Evaluate {
                                module: module as nat,
                                term: ts@[j]@,
                            }),
                    decreases ts.len() - i,
                {
                    requests.push(Request::Evaluate { module, term: ts[i].duplicate() });
                    i += 1;
                }
                assert(request_views(requests@) =~= requests_for(
                    module as nat,
                    Reading::Terms(term_views(ts@)),
                ));
                self.enqueue(&requests);
                Ok(requests)
            },
            Err(as_terms) => match rules_error {
                Some(as_rules) => if as_rules.offset > as_terms.offset {
                    Err(SessionError::Syntax(as_rules))
                } else {
                    Err(SessionError::Syntax(as_terms))
                },
                None => Err(SessionError::Syntax(as_terms)),
            },
        }
    }

    /// Puts copies of the requests at the end of those that wait.
    fn enqueue(&mut self, requests: &Vec<Request>)
        ensures
            final(self)@ == (SessionView {
                pending: old(self)@.pending + request_views(requests@),
                ..old(self)@
            }),
    {
        let mut i: usize = 0;
        while i < requests.len()
            invariant
                i <= requests.len(),
                self@ == (SessionView {
                    pending: old(self)@.pending + request_views(requests@).take(i as int),
                    ..old(self)@
                }),
            decreases requests.len() - i,
        {
            let ghost before = self@.pending;
            self.pending.push_back(requests[i].clone());
            assert(self@.pending =~= before.push(requests@[i as int]@));
            assert(request_views(requests@).take(i + 1) =~= request_views(requests@).take(
                i as int,
            ).push(requests@[i as int]@));
            assert(self@.pending =~= old(self)@.pending + request_views(requests@).take(i + 1));
            assert(self@.transcript =~= old(self)@.transcript);
            i += 1;
        }
        assert(request_views(requests@).take(i as int) =~= request_views(requests@));
    }

    /// Takes a response that arrived and pairs it with the oldest request
    /// that waits.
    ///
    /// Fails with `Disconnected` exactly when the engine is gone, else with
    /// `Unsolicited` exactly when no request waits, and else with
    /// `Mismatched` exactly when the response is not of a kind that answers
    /// the oldest request. On failure the session is as it was.
    pub fn receive(&mut self, response: Response) -> (r: Result<(), SessionError>)
        ensures
            r == old(self)@.received(response@),
            final(self)@ == old(self)@.after_receive(response@),
    {
        if !self.connected {
            return Err(SessionError::Disconnected);
        }
        if self.pending.len() == 0 {
            return Err(SessionError::Unsolicited);
        }
        if !response.answers(&self.pending[0]) {
            return Err(SessionError::Mismatched);
        }
        let request = self.pending.pop_front().unwrap();
        self.transcript.push(Exchange { request, response });
        assert(self@.pending =~= old(self)@.pending.skip(1));
        assert(self@.transcript =~= old(self)@.transcript.push(
            (old(self)@.pending[0], response@),
        ));
        Ok(())
    }

    /// Marks the engine as gone and returns the number of requests that will
    /// get no response. From now on every input and response is refused.
    pub fn disconnect(&mut self) -> (abandoned: usize)
        ensures
            abandoned == old(self)@.pending.len(),
            final(self)@ == (SessionView {
                pending: Seq::empty(),
                connected: false,
                ..old(self)@
            }),
    {
        let abandoned = self.pending.len();
        self.pending.clear();
        self.connected = false;
        assert(self@.pending =~= Seq::empty());
        assert(self@.transcript =~= old(self)@.transcript);
        abandoned
    }
}

} // verus!
