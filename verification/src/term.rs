//! Terms, rules and clauses, and the mathematical models that the contracts
//! of the whole crate are stated over.

use vstd::prelude::*;

verus! {

/// The model of a variable: its name as written, and the generation that
/// tells apart variables of the same name that belong to different clauses.
pub struct VarView {
    pub name: Seq<u8>,
    pub generation: u64,
}

/// The model of a term: a finite tree.
pub enum TermView {
    Atom(Seq<u8>),
    Var(VarView),
    Compound(Seq<u8>, Seq<TermView>),
}

/// A variable. Two variables are the same when both name and generation agree.
#[derive(Debug, PartialEq, Eq, Hash)]
pub struct Variable {
    pub name: Vec<u8>,
    pub generation: u64,
}

/// A term: an atom, a variable, or a functor applied to an ordered list of
/// arguments. A term is never changed once built.
#[derive(Debug, PartialEq, Eq, Hash)]
pub enum Term {
    Atom(Vec<u8>),
    Var(Variable),
    Compound(Vec<u8>, Vec<Term>),
}

impl View for Variable {
    type V = VarView;

    open spec fn view(&self) -> VarView {
        VarView { name: self.name@, generation: self.generation }
    }
}

/// The model of a term.
pub open spec fn term_view(t: Term) -> TermView
    decreases t,
{
    match t {
        Term::Atom(name) => TermView::Atom(name@),
        Term::Var(v) => TermView::Var(v@),
        Term::Compound(functor, args) => TermView::Compound(
            functor@,
            Seq::new(
                args@.len(),
                |i: int|
                    if 0 <= i < args@.len() {
                        term_view(args@[i])
                    } else {
                        TermView::Atom(Seq::empty())
                    },
            ),
        ),
    }
}

impl View for Term {
    type V = TermView;

    open spec fn view(&self) -> TermView {
        term_view(*self)
    }
}

/// The models of a list of terms, in order.
pub open spec fn term_views(ts: Seq<Term>) -> Seq<TermView> {
    Seq::new(ts.len(), |i: int| ts[i]@)
}

impl TermView {
    /// Whether the variable `v` occurs in the term.
    pub open spec fn occurs(self, v: VarView) -> bool
        decreases self,
    {
        match self {
            TermView::Atom(_) => false,
            TermView::Var(w) => w == v,
            TermView::Compound(_, args) => exists|i: int|
                0 <= i < args.len() && (#[trigger] args[i]).occurs(v),
        }
    }

    /// Whether the term holds no variable.
    pub open spec fn ground(self) -> bool {
        forall|v: VarView| !self.occurs(v)
    }

    /// The number of nodes on the longest path from the root to a leaf.
    pub open spec fn height(self) -> nat
        decreases self,
    {
        match self {
            TermView::Atom(_) => 1,
            TermView::Var(_) => 1,
            TermView::Compound(_, args) => 1 + max_height(args),
        }
    }

    /// The term with every variable moved to generation `g`.
    pub open spec fn with_generation(self, g: u64) -> TermView
        decreases self,
    {
        match self {
            TermView::Atom(name) => TermView::Atom(name),
            TermView::Var(v) => TermView::Var(VarView { name: v.name, generation: g }),
            TermView::Compound(functor, args) => TermView::Compound(
                functor,
                Seq::new(
                    args.len(),
                    |i: int|
                        if 0 <= i < args.len() {
                            args[i].with_generation(g)
                        } else {
                            TermView::Atom(Seq::empty())
                        },
                ),
            ),
        }
    }

    /// The least number above the generation of every variable of the term.
    pub open spec fn ceiling(self) -> nat
        decreases self,
    {
        match self {
            TermView::Atom(_) => 0,
            TermView::Var(v) => (v.generation + 1) as nat,
            TermView::Compound(_, args) => max_ceiling(args),
        }
    }

    /// The first variable of the term, reading left to right, that does not
    /// occur in `scope`.
    pub open spec fn stray(self, scope: TermView) -> Option<VarView>
        decreases self, 0nat,
    {
        match self {
            TermView::Atom(_) => None,
            TermView::Var(v) => if scope.occurs(v) {
                None
            } else {
                Some(v)
            },
            TermView::Compound(_, args) => first_stray(args, scope, 0),
        }
    }
}

/// The greatest height among `ts`, zero when there is none.
pub open spec fn max_height(ts: Seq<TermView>) -> nat
    decreases ts,
{
    if ts.len() == 0 {
        0
    } else {
        let rest = max_height(ts.drop_last());
        let last = ts.last().height();
        if last > rest {
            last
        } else {
            rest
        }
    }
}

/// The greatest ceiling among `ts`, zero when there is none.
pub open spec fn max_ceiling(ts: Seq<TermView>) -> nat
    decreases ts,
{
    if ts.len() == 0 {
        0
    } else {
        let rest = max_ceiling(ts.drop_last());
        let last = ts.last().ceiling();
        if last > rest {
            last
        } else {
            rest
        }
    }
}

/// The first stray variable among `ts[from..]`.
pub open spec fn first_stray(ts: Seq<TermView>, scope: TermView, from: int) -> Option<VarView>
    decreases ts, ts.len() - from,
{
    if from < 0 || from >= ts.len() {
        None
    } else {
        match ts[from].stray(scope) {
            Some(v) => Some(v),
            None => first_stray(ts, scope, from + 1),
        }
    }
}

/// Whether two byte strings are equal.
pub fn bytes_eq(a: &[u8], b: &[u8]) -> (same: bool)
    ensures
        same == (a@ == b@),
{
    if a.len() != b.len() {
        return false;
    }
    let mut i: usize = 0;
    while i < a.len()
        invariant
            i <= a.len(),
            a.len() == b.len(),
            forall|j: int| 0 <= j < i ==> a@[j] == b@[j],
        decreases a.len() - i,
    {
        if a[i] != b[i] {
            return false;
        }
        i += 1;
    }
    assert(a@ =~= b@);
    true
}

/// The model of a compound term is the functor's bytes over the models of
/// the arguments.
pub proof fn lemma_view_compound(functor: Vec<u8>, args: Vec<Term>)
    ensures
        Term::Compound(functor, args)@ == TermView::Compound(functor@, term_views(args@)),
{
    assert(term_view(Term::Compound(functor, args))->Compound_1 =~= term_views(args@));
}

/// An argument of a compound term is a smaller term than the compound.
pub proof fn lemma_argument_decreases(t: Term, i: int)
    requires
        t is Compound,
        0 <= i < t->Compound_1@.len(),
    ensures
        decreases_to!(t => t->Compound_1@[i]),
{
    vstd::std_specs::vec::axiom_vec_index_decreases(t->Compound_1, i);
}

impl Variable {
    /// The variable of the given name and generation.
    pub fn new(name: &[u8], generation: u64) -> (v: Variable)
        ensures
            v@ == (VarView { name: name@, generation }),
    {
        Variable { name: vstd::slice::slice_to_vec(name), generation }
    }

    /// Whether two variables are the same variable.
    pub fn same(&self, other: &Variable) -> (r: bool)
        ensures
            r == (self@ == other@),
    {
        self.generation == other.generation && bytes_eq(self.name.as_slice(), other.name.as_slice())
    }
}

impl Clone for Variable {
    fn clone(&self) -> (r: Variable)
        ensures
            r@ == self@,
    {
        Variable { name: self.name.clone(), generation: self.generation }
    }
}

impl Term {
    /// The atom of the given name.
    pub fn atom(name: &[u8]) -> (t: Term)
        ensures
            t@ == TermView::Atom(name@),
    {
        Term::Atom(vstd::slice::slice_to_vec(name))
    }

    /// The variable of the given name, of generation zero, as the parser
    /// makes it.
    pub fn var(name: &[u8]) -> (t: Term)
        ensures
            t@ == TermView::Var(VarView { name: name@, generation: 0 }),
    {
        Term::Var(Variable::new(name, 0))
    }

    /// The compound term of the given functor and arguments.
    pub fn compound(functor: &[u8], args: Vec<Term>) -> (t: Term)
        ensures
            t@ == TermView::Compound(functor@, term_views(args@)),
    {
        let f = vstd::slice::slice_to_vec(functor);
        proof {
            lemma_view_compound(f, args);
        }
        Term::Compound(f, args)
    }

    /// Whether two terms are the same tree.
    pub fn same(&self, other: &Term) -> (r: bool)
        ensures
            r == (self@ == other@),
        decreases self,
    {
        match self {
            Term::Atom(a) => match other {
                Term::Atom(b) => bytes_eq(a.as_slice(), b.as_slice()),
                _ => false,
            },
            Term::Var(v) => match other {
                Term::Var(w) => v.same(w),
                _ => false,
            },
            Term::Compound(f, xs) => match other {
                Term::Compound(g, ys) => {
                    proof {
                        lemma_view_compound(*f, *xs);
                        lemma_view_compound(*g, *ys);
                    }
                    if !bytes_eq(f.as_slice(), g.as_slice()) || xs.len() != ys.len() {
                        assert(term_views(xs@).len() == xs.len() && term_views(ys@).len() == ys.len());
                        return false;
                    }
                    let mut i: usize = 0;
                    while i < xs.len()
                        invariant
                            i <= xs.len(),
                            xs.len() == ys.len(),
                            *self == Term::Compound(*f, *xs),
                            self@ == TermView::Compound(f@, term_views(xs@)),
                            other@ == TermView::Compound(g@, term_views(ys@)),
                            forall|j: int| 0 <= j < i ==> xs@[j]@ == ys@[j]@,
                        decreases xs.len() - i,
                    {
                        proof {
                            lemma_argument_decreases(*self, i as int);
                        }
                        if !xs[i].same(&ys[i]) {
                            assert(term_views(xs@)[i as int] != term_views(ys@)[i as int]);
                            return false;
                        }
                        i += 1;
                    }
                    assert(term_views(xs@) =~= term_views(ys@));
                    true
                },
                _ => false,
            },
        }
    }
}

impl Term {
    /// A copy of the term.
    pub fn duplicate(&self) -> (r: Term)
        ensures
            r@ == self@,
        decreases self,
    {
        match self {
            Term::Atom(name) => Term::Atom(name.clone()),
            Term::Var(v) => Term::Var(v.clone()),
            Term::Compound(functor, args) => {
                let mut copy: Vec<Term> = Vec::new();
                let mut i: usize = 0;
                while i < args.len()
                    invariant
                        i <= args.len(),
                        copy.len() == i,
                        *self == Term::Compound(*functor, *args),
                        forall|j: int| 0 <= j < i ==> copy@[j]@ == args@[j]@,
                    decreases args.len() - i,
                {
                    proof {
                        lemma_argument_decreases(*self, i as int);
                    }
                    let arg = args[i].duplicate();
                    copy.push(arg);
                    i += 1;
                }
                let f = functor.clone();
                proof {
                    lemma_view_compound(*functor, *args);
                    lemma_view_compound(f, copy);
                    assert(term_views(copy@) =~= term_views(args@));
                }
                Term::Compound(f, copy)
            },
        }
    }
}

/// The model of an optional variable.
pub open spec fn var_option_view(v: Option<Variable>) -> Option<VarView> {
    match v {
        Some(v) => Some(v@),
        None => None,
    }
}

/// A variable occurs in a compound term exactly when it occurs in one of the
/// arguments.
pub proof fn lemma_occurs_compound(functor: Seq<u8>, args: Seq<TermView>, v: VarView)
    ensures
        TermView::Compound(functor, args).occurs(v) <==> exists|i: int|
            0 <= i < args.len() && (#[trigger] args[i]).occurs(v),
{
    assert(TermView::Compound(functor, args)->Compound_1 == args);
}

/// A compound term is ground exactly when each of its arguments is.
pub proof fn lemma_ground_compound(functor: Seq<u8>, args: Seq<TermView>)
    ensures
        TermView::Compound(functor, args).ground() <==> forall|i: int|
            0 <= i < args.len() ==> (#[trigger] args[i]).ground(),
{
    let t = TermView::Compound(functor, args);
    if t.ground() {
        assert forall|i: int| 0 <= i < args.len() implies (#[trigger] args[i]).ground() by {
            assert forall|v: VarView| !args[i].occurs(v) by {
                lemma_occurs_compound(functor, args, v);
                assert(!t.occurs(v));
            }
        }
    }
    if forall|i: int| 0 <= i < args.len() ==> (#[trigger] args[i]).ground() {
        assert forall|v: VarView| !t.occurs(v) by {
            lemma_occurs_compound(functor, args, v);
            if t.occurs(v) {
                let i = choose|i: int| 0 <= i < args.len() && (#[trigger] args[i]).occurs(v);
                assert(args[i].ground());
            }
        }
    }
}

/// What `max_ceiling` is a maximum of: it bounds every member, and some
/// member reaches it unless it is zero.
pub proof fn lemma_max_ceiling(ts: Seq<TermView>)
    ensures
        forall|i: int| 0 <= i < ts.len() ==> (#[trigger] ts[i]).ceiling() <= max_ceiling(ts),
        max_ceiling(ts) == 0 || exists|i: int|
            0 <= i < ts.len() && (#[trigger] ts[i]).ceiling() == max_ceiling(ts),
    decreases ts.len(),
{
    if ts.len() > 0 {
        let rest = ts.drop_last();
        lemma_max_ceiling(rest);
        assert forall|i: int| 0 <= i < ts.len() implies (#[trigger] ts[i]).ceiling() <= max_ceiling(
            ts,
        ) by {
            if i < ts.len() - 1 {
                assert(rest[i] == ts[i]);
            }
        }
        if max_ceiling(ts) != 0 {
            if ts.last().ceiling() > max_ceiling(rest) {
                assert(ts[ts.len() - 1].ceiling() == max_ceiling(ts));
            } else {
                let i = choose|i: int|
                    0 <= i < rest.len() && (#[trigger] rest[i]).ceiling() == max_ceiling(rest);
                assert(ts[i] == rest[i]);
            }
        }
    }
}

/// The ceiling of a prefix extended by one term.
pub proof fn lemma_max_ceiling_push(ts: Seq<TermView>, t: TermView)
    ensures
        max_ceiling(ts.push(t)) == if t.ceiling() > max_ceiling(ts) {
            t.ceiling()
        } else {
            max_ceiling(ts)
        },
{
    assert(ts.push(t).drop_last() =~= ts);
}

/// Every member of `ts` is at most `max_height(ts)` high.
pub proof fn lemma_max_height(ts: Seq<TermView>)
    ensures
        forall|i: int| 0 <= i < ts.len() ==> (#[trigger] ts[i]).height() <= max_height(ts),
    decreases ts.len(),
{
    if ts.len() > 0 {
        let rest = ts.drop_last();
        lemma_max_height(rest);
        assert forall|i: int| 0 <= i < ts.len() implies (#[trigger] ts[i]).height() <= max_height(
            ts,
        ) by {
            if i < ts.len() - 1 {
                assert(rest[i] == ts[i]);
            }
        }
    }
}

/// Every variable of a term has a generation below the term's ceiling.
pub proof fn lemma_ceiling_bounds(t: TermView, v: VarView)
    requires
        t.occurs(v),
    ensures
        v.generation < t.ceiling(),
    decreases t,
{
    match t {
        TermView::Compound(_, args) => {
            let i = choose|i: int| 0 <= i < args.len() && (#[trigger] args[i]).occurs(v);
            lemma_ceiling_bounds(args[i], v);
            lemma_max_ceiling(args);
        },
        _ => {},
    }
}

/// A term moved to generation `g` holds only variables of generation `g`,
/// under the names it had.
pub proof fn lemma_with_generation_occurs(t: TermView, g: u64, v: VarView)
    ensures
        t.with_generation(g).occurs(v) <==> v.generation == g && exists|old_generation: u64|
            t.occurs(VarView { name: v.name, generation: old_generation }),
    decreases t,
{
    match t {
        TermView::Atom(_) => {},
        TermView::Var(w) => {
            if v.generation == g && v.name == w.name {
                assert(t.occurs(VarView { name: v.name, generation: w.generation }));
            }
        },
        TermView::Compound(_, args) => {
            let moved = t.with_generation(g)->Compound_1;
            assert forall|i: int| 0 <= i < args.len() implies (moved[i].occurs(v) <==> v.generation
                == g && exists|old_generation: u64| (#[trigger] args[i]).occurs(
                VarView { name: v.name, generation: old_generation },
            )) by {
                lemma_with_generation_occurs(args[i], g, v);
            }
            if t.with_generation(g).occurs(v) {
                let i = choose|i: int| 0 <= i < moved.len() && (#[trigger] moved[i]).occurs(v);
                let old_generation = choose|old_generation: u64|
                    args[i].occurs(VarView { name: v.name, generation: old_generation });
                assert(t.occurs(VarView { name: v.name, generation: old_generation }));
            }
            if v.generation == g && exists|old_generation: u64|
                t.occurs(VarView { name: v.name, generation: old_generation }) {
                let old_generation = choose|old_generation: u64|
                    t.occurs(VarView { name: v.name, generation: old_generation });
                let w = VarView { name: v.name, generation: old_generation };
                let i = choose|i: int| 0 <= i < args.len() && (#[trigger] args[i]).occurs(w);
                assert(moved[i].occurs(v));
            }
        },
    }
}

/// A term moved to generation `g` has no variable of a later generation.
pub proof fn lemma_with_generation_ceiling(t: TermView, g: u64)
    ensures
        t.with_generation(g).ceiling() <= g + 1,
    decreases t,
{
    match t {
        TermView::Compound(_, args) => {
            let moved = t.with_generation(g)->Compound_1;
            assert forall|i: int| 0 <= i < moved.len() implies (#[trigger] moved[i]).ceiling() <= g
                + 1 by {
                lemma_with_generation_ceiling(args[i], g);
            }
            lemma_max_ceiling(moved);
        },
        _ => {},
    }
}

/// A term has no stray variable exactly when each of its variables occurs in
/// the scope; a stray variable occurs in the term and not in the scope.
pub proof fn lemma_stray(t: TermView, scope: TermView)
    ensures
        t.stray(scope) is None <==> forall|v: VarView| t.occurs(v) ==> scope.occurs(v),
        t.stray(scope) matches Some(v) ==> t.occurs(v) && !scope.occurs(v),
    decreases t,
{
    match t {
        TermView::Atom(_) => {},
        TermView::Var(w) => {
            if !scope.occurs(w) {
                assert(t.occurs(w));
            }
        },
        TermView::Compound(functor, args) => {
            lemma_first_stray(t, scope, 0);
            assert forall|v: VarView| t.occurs(v) && t.stray(scope) is None implies scope.occurs(
                v,
            ) by {
                lemma_occurs_compound(functor, args, v);
                let i = choose|i: int| 0 <= i < args.len() && (#[trigger] args[i]).occurs(v);
                assert(args[i].occurs(v));
            }
            if forall|v: VarView| t.occurs(v) ==> scope.occurs(v) {
                assert forall|i: int, v: VarView|
                    0 <= i < args.len() && (#[trigger] args[i].occurs(v)) implies scope.occurs(
                    v,
                ) by {
                    lemma_occurs_compound(functor, args, v);
                }
            }
        },
    }
}

/// The same, for the arguments of a compound term from index `from` on.
pub proof fn lemma_first_stray(t: TermView, scope: TermView, from: int)
    requires
        t is Compound,
        0 <= from <= t->Compound_1.len(),
    ensures
        first_stray(t->Compound_1, scope, from) is None <==> forall|i: int, v: VarView|
            from <= i < t->Compound_1.len() && (#[trigger] t->Compound_1[i].occurs(v))
                ==> scope.occurs(v),
        first_stray(t->Compound_1, scope, from) matches Some(v) ==> t.occurs(v) && !scope.occurs(v),
    decreases t, t->Compound_1.len() - from,
{
    let args = t->Compound_1;
    if from < args.len() {
        lemma_stray(args[from], scope);
        lemma_first_stray(t, scope, from + 1);
        match args[from].stray(scope) {
            Some(v) => {
                assert(args[from].occurs(v));
                lemma_occurs_compound(t->Compound_0, args, v);
            },
            None => {
                assert forall|i: int, v: VarView|
                    from <= i < args.len() && (#[trigger] args[i].occurs(v)) && first_stray(
                        args,
                        scope,
                        from,
                    ) is None implies scope.occurs(v) by {
                    if i == from {
                    } else {
                    }
                }
            },
        }
    }
}

impl Term {
    /// Whether the variable occurs in the term.
    pub fn contains(&self, v: &Variable) -> (r: bool)
        ensures
            r == self@.occurs(v@),
        decreases self,
    {
        match self {
            Term::Atom(_) => false,
            Term::Var(w) => w.same(v),
            Term::Compound(functor, args) => {
                proof {
                    lemma_view_compound(*functor, *args);
                }
                let mut i: usize = 0;
                while i < args.len()
                    invariant
                        i <= args.len(),
                        *self == Term::Compound(*functor, *args),
                        self@ == TermView::Compound(functor@, term_views(args@)),
                        forall|j: int| 0 <= j < i ==> !(#[trigger] term_views(args@)[j]).occurs(v@),
                    decreases args.len() - i,
                {
                    proof {
                        lemma_argument_decreases(*self, i as int);
                    }
                    if args[i].contains(v) {
                        assert(self@->Compound_1 == term_views(args@));
                        assert(term_views(args@)[i as int].occurs(v@));
                        return true;
                    }
                    i += 1;
                }
                assert(self@->Compound_1 == term_views(args@));
                false
            },
        }
    }

    /// Whether the term holds no variable.
    pub fn is_ground(&self) -> (r: bool)
        ensures
            r == self@.ground(),
        decreases self,
    {
        match self {
            Term::Atom(_) => true,
            Term::Var(v) => {
                assert(self@.occurs(v@));
                false
            },
            Term::Compound(functor, args) => {
                proof {
                    lemma_view_compound(*functor, *args);
                    lemma_ground_compound(functor@, term_views(args@));
                }
                let mut i: usize = 0;
                while i < args.len()
                    invariant
                        i <= args.len(),
                        *self == Term::Compound(*functor, *args),
                        forall|j: int| 0 <= j < i ==> (#[trigger] term_views(args@)[j]).ground(),
                    decreases args.len() - i,
                {
                    proof {
                        lemma_argument_decreases(*self, i as int);
                    }
                    if !args[i].is_ground() {
                        assert(!term_views(args@)[i as int].ground());
                        proof {
                            lemma_view_compound(*functor, *args);
                            lemma_ground_compound(functor@, term_views(args@));
                        }
                        return false;
                    }
                    i += 1;
                }
                true
            },
        }
    }

    /// The term with every variable moved to generation `g`.
    pub fn rename(&self, g: u64) -> (r: Term)
        ensures
            r@ == self@.with_generation(g),
        decreases self,
    {
        match self {
            Term::Atom(name) => Term::Atom(name.clone()),
            Term::Var(v) => Term::Var(Variable { name: v.name.clone(), generation: g }),
            Term::Compound(functor, args) => {
                let mut moved: Vec<Term> = Vec::new();
                let mut i: usize = 0;
                while i < args.len()
                    invariant
                        i <= args.len(),
                        moved.len() == i,
                        *self == Term::Compound(*functor, *args),
                        forall|j: int| 0 <= j < i ==> moved@[j]@ == args@[j]@.with_generation(g),
                    decreases args.len() - i,
                {
                    proof {
                        lemma_argument_decreases(*self, i as int);
                    }
                    let arg = args[i].rename(g);
                    moved.push(arg);
                    i += 1;
                }
                let f = functor.clone();
                proof {
                    lemma_view_compound(*functor, *args);
                    lemma_view_compound(f, moved);
                    assert(term_views(moved@) =~= self@.with_generation(g)->Compound_1);
                }
                Term::Compound(f, moved)
            },
        }
    }

    /// The least number above the generation of every variable of the term,
    /// or `None` when that number does not fit in a `u64`.
    pub fn ceiling(&self) -> (r: Option<u64>)
        ensures
            match r {
                Some(c) => c == self@.ceiling(),
                None => self@.ceiling() > u64::MAX,
            },
        decreases self,
    {
        match self {
            Term::Atom(_) => Some(0),
            Term::Var(v) => if v.generation == u64::MAX {
                None
            } else {
                Some(v.generation + 1)
            },
            Term::Compound(functor, args) => {
                proof {
                    lemma_view_compound(*functor, *args);
                }
                let mut top: u64 = 0;
                let mut i: usize = 0;
                while i < args.len()
                    invariant
                        i <= args.len(),
                        *self == Term::Compound(*functor, *args),
                        self@ == TermView::Compound(functor@, term_views(args@)),
                        top == max_ceiling(term_views(args@).take(i as int)),
                    decreases args.len() - i,
                {
                    proof {
                        lemma_argument_decreases(*self, i as int);
                        lemma_max_ceiling_push(
                            term_views(args@).take(i as int),
                            term_views(args@)[i as int],
                        );
                        assert(term_views(args@).take(i as int).push(term_views(args@)[i as int])
                            =~= term_views(args@).take(i + 1));
                    }
                    match args[i].ceiling() {
                        Some(c) => {
                            if c > top {
                                top = c;
                            }
                        },
                        None => {
                            proof {
                                lemma_max_ceiling(term_views(args@));
                            }
                            return None;
                        },
                    }
                    i += 1;
                }
                assert(term_views(args@).take(i as int) =~= term_views(args@));
                Some(top)
            },
        }
    }

    /// The first variable of the term, reading left to right, that does not
    /// occur in `scope`.
    pub fn stray(&self, scope: &Term) -> (r: Option<Variable>)
        ensures
            var_option_view(r) == self@.stray(scope@),
        decreases self,
    {
        match self {
            Term::Atom(_) => None,
            Term::Var(v) => if scope.contains(v) {
                None
            } else {
                Some(v.clone())
            },
            Term::Compound(functor, args) => {
                proof {
                    lemma_view_compound(*functor, *args);
                }
                let mut i: usize = 0;
                while i < args.len()
                    invariant
                        i <= args.len(),
                        *self == Term::Compound(*functor, *args),
                        self@ == TermView::Compound(functor@, term_views(args@)),
                        self@.stray(scope@) == first_stray(term_views(args@), scope@, i as int),
                    decreases args.len() - i,
                {
                    proof {
                        lemma_argument_decreases(*self, i as int);
                    }
                    match args[i].stray(scope) {
                        Some(v) => {
                            return Some(v);
                        },
                        None => {},
                    }
                    i += 1;
                }
                None
            },
        }
    }
}

impl Clone for Term {
    fn clone(&self) -> (r: Term)
        ensures
            r@ == self@,
    {
        self.duplicate()
    }
}

/// The model of a rule.
pub struct RuleView {
    pub pattern: TermView,
    pub replacement: TermView,
}

impl RuleView {
    /// Whether every variable of the replacement occurs in the pattern.
    pub open spec fn closed(self) -> bool {
        forall|v: VarView| self.replacement.occurs(v) ==> self.pattern.occurs(v)
    }
}

/// A rewrite rule: a term that matches `pattern` is replaced by
/// `replacement`.
#[derive(Debug, PartialEq, Eq, Hash)]
pub struct Rule {
    pub pattern: Term,
    pub replacement: Term,
}

impl View for Rule {
    type V = RuleView;

    open spec fn view(&self) -> RuleView {
        RuleView { pattern: self.pattern@, replacement: self.replacement@ }
    }
}

impl Rule {
    /// The rule from `pattern` to `replacement`.
    pub fn new(pattern: Term, replacement: Term) -> (r: Rule)
        ensures
            r@ == (RuleView { pattern: pattern@, replacement: replacement@ }),
    {
        Rule { pattern, replacement }
    }

    /// Whether every variable of the replacement occurs in the pattern.
    pub fn is_closed(&self) -> (r: bool)
        ensures
            r == self@.closed(),
    {
        proof {
            lemma_stray(self.replacement@, self.pattern@);
        }
        self.replacement.stray(&self.pattern).is_none()
    }
}

impl Clone for Rule {
    fn clone(&self) -> (r: Rule)
        ensures
            r@ == self@,
    {
        Rule { pattern: self.pattern.duplicate(), replacement: self.replacement.duplicate() }
    }
}

/// The models of a list of rules, in order.
pub open spec fn rule_views(rs: Seq<Rule>) -> Seq<RuleView> {
    Seq::new(rs.len(), |i: int| rs[i]@)
}

/// The model of a clause.
pub struct ClauseView {
    pub head: TermView,
    pub body: Seq<TermView>,
}

impl ClauseView {
    /// The clause with every variable moved to generation `g`.
    pub open spec fn with_generation(self, g: u64) -> ClauseView {
        ClauseView {
            head: self.head.with_generation(g),
            body: Seq::new(self.body.len(), |i: int| self.body[i].with_generation(g)),
        }
    }

    /// Whether the variable occurs in the head or in a goal of the body.
    pub open spec fn occurs(self, v: VarView) -> bool {
        self.head.occurs(v) || exists|i: int|
            0 <= i < self.body.len() && (#[trigger] self.body[i]).occurs(v)
    }
}

/// A clause: `head` holds when every goal of `body` holds, taken in order.
#[derive(Debug, PartialEq, Eq, Hash)]
pub struct Clause {
    pub head: Term,
    pub body: Vec<Term>,
}

impl View for Clause {
    type V = ClauseView;

    open spec fn view(&self) -> ClauseView {
        ClauseView { head: self.head@, body: term_views(self.body@) }
    }
}

/// The models of a list of clauses, in order.
pub open spec fn clause_views(cs: Seq<Clause>) -> Seq<ClauseView> {
    Seq::new(cs.len(), |i: int| cs[i]@)
}

/// A copy of a list of terms.
pub fn duplicate_terms(ts: &Vec<Term>) -> (r: Vec<Term>)
    ensures
        term_views(r@) == term_views(ts@),
{
    let mut copy: Vec<Term> = Vec::new();
    let mut i: usize = 0;
    while i < ts.len()
        invariant
            i <= ts.len(),
            copy.len() == i,
            forall|j: int| 0 <= j < i ==> copy@[j]@ == ts@[j]@,
        decreases ts.len() - i,
    {
        copy.push(ts[i].duplicate());
        i += 1;
    }
    assert(term_views(copy@) =~= term_views(ts@));
    copy
}

impl Clause {
    /// The clause with the given head and body.
    pub fn new(head: Term, body: Vec<Term>) -> (c: Clause)
        ensures
            c@ == (ClauseView { head: head@, body: term_views(body@) }),
    {
        Clause { head, body }
    }

    /// The clause without a body.
    pub fn fact(head: Term) -> (c: Clause)
        ensures
            c@ == (ClauseView { head: head@, body: Seq::empty() }),
    {
        let body: Vec<Term> = Vec::new();
        assert(term_views(body@) =~= Seq::empty());
        Clause { head, body }
    }

    /// The clause with every variable moved to generation `g`.
    pub fn rename(&self, g: u64) -> (c: Clause)
        ensures
            c@ == self@.with_generation(g),
    {
        let head = self.head.rename(g);
        let mut body: Vec<Term> = Vec::new();
        let mut i: usize = 0;
        while i < self.body.len()
            invariant
                i <= self.body.len(),
                body.len() == i,
                forall|j: int| 0 <= j < i ==> body@[j]@ == self.body@[j]@.with_generation(g),
            decreases self.body.len() - i,
        {
            body.push(self.body[i].rename(g));
            i += 1;
        }
        assert(term_views(body@) =~= self@.with_generation(g).body);
        Clause { head, body }
    }
}

impl Clone for Clause {
    fn clone(&self) -> (c: Clause)
        ensures
            c@ == self@,
    {
        Clause { head: self.head.duplicate(), body: duplicate_terms(&self.body) }
    }
}

/// A copy of a list of rules.
pub fn duplicate_rules(rs: &Vec<Rule>) -> (r: Vec<Rule>)
    ensures
        rule_views(r@) == rule_views(rs@),
{
    let mut copy: Vec<Rule> = Vec::new();
    let mut i: usize = 0;
    while i < rs.len()
        invariant
            i <= rs.len(),
            copy.len() == i,
            forall|j: int| 0 <= j < i ==> copy@[j]@ == rs@[j]@,
        decreases rs.len() - i,
    {
        copy.push(rs[i].clone());
        i += 1;
    }
    assert(rule_views(copy@) =~= rule_views(rs@));
    copy
}

/// A copy of a list of clauses.
pub fn duplicate_clauses(cs: &Vec<Clause>) -> (r: Vec<Clause>)
    ensures
        clause_views(r@) == clause_views(cs@),
{
    let mut copy: Vec<Clause> = Vec::new();
    let mut i: usize = 0;
    while i < cs.len()
        invariant
            i <= cs.len(),
            copy.len() == i,
            forall|j: int| 0 <= j < i ==> copy@[j]@ == cs@[j]@,
        decreases cs.len() - i,
    {
        copy.push(cs[i].clone());
        i += 1;
    }
    assert(clause_views(copy@) =~= clause_views(cs@));
    copy
}

} // verus!
