//! A pool of terms that stores each distinct term once, so that two terms are equal exactly when
//! they have the same index.

use vstd::prelude::*;

use crate::ast::sort::same_sort;
use crate::ast::{names_eq, sort_eq, Binder, Constant, Operator, ParamOperator, Sort, Term, TermId};
use crate::automata::{Automaton, State, Transition};

verus! {

/// Whether two automata are equal: same name, states and initial state.
pub open spec fn automaton_eq(a: Automaton, b: Automaton) -> bool {
    &&& a.name@ == b.name@
    &&& a.initial_state == b.initial_state
    &&& a.all_states.len() == b.all_states.len()
    &&& forall|i: int| #![trigger a.all_states[i]] 0 <= i < a.all_states.len() ==> {
        &&& a.all_states[i].id@ == b.all_states[i].id@
        &&& a.all_states[i].accept == b.all_states[i].accept
        &&& a.all_states[i].transitions@ == b.all_states[i].transitions@
    }
}

/// Whether two constants are equal.
pub open spec fn constant_eq(a: Constant, b: Constant) -> bool {
    match (a, b) {
        (Constant::Integer(x), Constant::Integer(y)) => x == y,
        (Constant::String(x), Constant::String(y)) => x@ == y@,
        (Constant::RegLan(x), Constant::RegLan(y)) => automaton_eq(x, y),
        _ => false,
    }
}

/// Whether two lists of sorted variables are equal.
pub open spec fn sorted_vars_eq(a: Seq<(String, Sort)>, b: Seq<(String, Sort)>) -> bool {
    a.len() == b.len() && forall|i: int| #![trigger a[i]] 0 <= i < a.len() ==> a[i].0@ == b[i].0@ && sort_eq(a[i].1, b[i].1)
}

/// Whether two lists of `let` bindings are equal.
pub open spec fn bindings_eq(a: Seq<(String, TermId)>, b: Seq<(String, TermId)>) -> bool {
    a.len() == b.len() && forall|i: int| #![trigger a[i]] 0 <= i < a.len() ==> a[i].0@ == b[i].0@ && a[i].1 == b[i].1
}

/// Whether two terms are equal: the same constructor over equal parts, subterms being compared
/// by index.
pub open spec fn term_eq(a: Term, b: Term) -> bool {
    match (a, b) {
        (Term::Const(x), Term::Const(y)) => constant_eq(x, y),
        (Term::Var(n, s), Term::Var(m, r)) => n@ == m@ && sort_eq(s, r),
        (Term::App(f, x), Term::App(g, y)) => f == g && x@ == y@,
        (Term::Op(o, x), Term::Op(p, y)) => o == p && x@ == y@,
        (Term::ParamOp { op: o, op_args: oa, args: x }, Term::ParamOp { op: p, op_args: pa, args: y }) => o == p && oa@ == pa@ && x@ == y@,
        (Term::AsOp(o, s, x), Term::AsOp(p, r, y)) => o == p && sort_eq(s, r) && x@ == y@,
        (Term::Binder(q, vs, t), Term::Binder(r, ws, u)) => q == r && sorted_vars_eq(vs@, ws@) && t == u,
        (Term::Let(bs, t), Term::Let(cs, u)) => bindings_eq(bs@, cs@) && t == u,
        (Term::Match(t, cs), Term::Match(u, ds)) => t == u && cs@ == ds@,
        _ => false,
    }
}

/// The subterms of a term, by index.
pub open spec fn children(t: Term) -> Seq<TermId> {
    match t {
        Term::Const(_) => Seq::empty(),
        Term::Var(_, _) => Seq::empty(),
        Term::App(f, x) => seq![f] + x@,
        Term::Op(_, x) => x@,
        Term::ParamOp { op: _, op_args: oa, args: x } => oa@ + x@,
        Term::AsOp(_, _, x) => x@,
        Term::Binder(_, _, t) => seq![t],
        Term::Let(bs, t) => bs@.map_values(|b: (String, TermId)| b.1).push(t),
        Term::Match(t, cs) => seq![t] + cs@.map_values(|c: (TermId, TermId)| c.0) + cs@.map_values(|c: (TermId, TermId)| c.1),
    }
}

/// Every subterm of `t` has an index below `n`.
pub open spec fn children_below(t: Term, n: int) -> bool {
    forall|k: int| 0 <= k < children(t).len() ==> #[trigger] children(t)[k] < n
}

fn same_automaton(a: &Automaton, b: &Automaton) -> (res: bool)
    ensures
        res == automaton_eq(*a, *b),
{
    if !a.name.eq(&b.name) || a.initial_state != b.initial_state || a.all_states.len() != b.all_states.len() {
        return false;
    }
    for i in 0..a.all_states.len()
        invariant
            a.all_states.len() == b.all_states.len(),
            forall|k: int| #![trigger a.all_states[k]] 0 <= k < i ==> {
                &&& a.all_states[k].id@ == b.all_states[k].id@
                &&& a.all_states[k].accept == b.all_states[k].accept
                &&& a.all_states[k].transitions@ == b.all_states[k].transitions@
            },
    {
        let s = &a.all_states[i];
        let t = &b.all_states[i];
        if !s.id.eq(&t.id) || s.accept != t.accept || s.transitions.len() != t.transitions.len() {
            return false;
        }
        for j in 0..s.transitions.len()
            invariant
                i < a.all_states.len(),
                a.all_states.len() == b.all_states.len(),
                *s == a.all_states[i as int],
                *t == b.all_states[i as int],
                s.transitions@.len() == t.transitions@.len(),
                forall|m: int| 0 <= m < j ==> s.transitions@[m] == t.transitions@[m],
        {
            if s.transitions[j] != t.transitions[j] {
                assert(a.all_states[i as int].transitions@[j as int] != b.all_states[i as int].transitions@[j as int]);
                assert(!(a.all_states[i as int].transitions@ == b.all_states[i as int].transitions@));
                return false;
            }
        }
        assert(s.transitions@ =~= t.transitions@);
    }
    true
}

fn same_constant(a: &Constant, b: &Constant) -> (res: bool)
    ensures
        res == constant_eq(*a, *b),
{
    match (a, b) {
        (Constant::Integer(x), Constant::Integer(y)) => *x == *y,
        (Constant::String(x), Constant::String(y)) => x.eq(y),
        (Constant::RegLan(x), Constant::RegLan(y)) => same_automaton(x, y),
        _ => false,
    }
}

pub(crate) fn same_ids(a: &Vec<TermId>, b: &Vec<TermId>) -> (res: bool)
    ensures
        res == (a@ == b@),
{
    if a.len() != b.len() {
        return false;
    }
    for i in 0..a.len()
        invariant
            a@.len() == b@.len(),
            forall|k: int| 0 <= k < i ==> a@[k] == b@[k],
    {
        if a[i] != b[i] {
            return false;
        }
    }
    assert(a@ =~= b@);
    true
}

pub(crate) fn same_sorted_vars(a: &Vec<(String, Sort)>, b: &Vec<(String, Sort)>) -> (res: bool)
    ensures
        res == sorted_vars_eq(a@, b@),
{
    if a.len() != b.len() {
        return false;
    }
    for i in 0..a.len()
        invariant
            a@.len() == b@.len(),
            forall|k: int| #![trigger a@[k]] 0 <= k < i ==> a@[k].0@ == b@[k].0@ && sort_eq(a@[k].1, b@[k].1),
    {
        if !a[i].0.eq(&b[i].0) || !same_sort(&a[i].1, &b[i].1) {
            return false;
        }
    }
    true
}

fn same_bindings(a: &Vec<(String, TermId)>, b: &Vec<(String, TermId)>) -> (res: bool)
    ensures
        res == bindings_eq(a@, b@),
{
    if a.len() != b.len() {
        return false;
    }
    for i in 0..a.len()
        invariant
            a@.len() == b@.len(),
            forall|k: int| #![trigger a@[k]] 0 <= k < i ==> a@[k].0@ == b@[k].0@ && a@[k].1 == b@[k].1,
    {
        if !a[i].0.eq(&b[i].0) || a[i].1 != b[i].1 {
            return false;
        }
    }
    true
}

fn same_cases(a: &Vec<(TermId, TermId)>, b: &Vec<(TermId, TermId)>) -> (res: bool)
    ensures
        res == (a@ == b@),
{
    if a.len() != b.len() {
        return false;
    }
    for i in 0..a.len()
        invariant
            a@.len() == b@.len(),
            forall|k: int| 0 <= k < i ==> a@[k] == b@[k],
    {
        if a[i].0 != b[i].0 || a[i].1 != b[i].1 {
            return false;
        }
    }
    assert(a@ =~= b@);
    true
}

/// Whether two terms are equal, comparing subterms by index.
pub fn same_term(a: &Term, b: &Term) -> (res: bool)
    ensures
        res == term_eq(*a, *b),
{
    match (a, b) {
        (Term::Const(x), Term::Const(y)) => same_constant(x, y),
        (Term::Var(n, s), Term::Var(m, r)) => n.eq(m) && same_sort(s, r),
        (Term::App(f, x), Term::App(g, y)) => *f == *g && same_ids(x, y),
        (Term::Op(o, x), Term::Op(p, y)) => *o == *p && same_ids(x, y),
        (Term::ParamOp { op: o, op_args: oa, args: x }, Term::ParamOp { op: p, op_args: pa, args: y }) =>
            *o == *p && same_ids(oa, pa) && same_ids(x, y),
        (Term::AsOp(o, s, x), Term::AsOp(p, r, y)) => *o == *p && same_sort(s, r) && same_ids(x, y),
        (Term::Binder(q, vs, t), Term::Binder(r, ws, u)) => *q == *r && same_sorted_vars(vs, ws) && *t == *u,
        (Term::Let(bs, t), Term::Let(cs, u)) => same_bindings(bs, cs) && *t == *u,
        (Term::Match(t, cs), Term::Match(u, ds)) => *t == *u && same_cases(cs, ds),
        _ => false,
    }
}

/// A pool of terms. Each term is stored once, after its subterms; a term is designated by its
/// index in the pool.
pub struct PrimitivePool {
    terms: Vec<Term>,
}

impl PrimitivePool {
    /// The number of terms in the pool.
    pub closed spec fn size(&self) -> nat {
        self.terms@.len()
    }

    /// The term at index `id`.
    pub closed spec fn node(&self, id: TermId) -> Term {
        self.terms@[id as int]
    }

    /// Subterms come before the terms that contain them, and no term is stored twice.
    pub closed spec fn wf(&self) -> bool {
        &&& forall|i: int| 0 <= i < self.terms@.len() ==> children_below(#[trigger] self.terms@[i], i)
        &&& forall|i: int, j: int| 0 <= i < j < self.terms@.len() ==> !term_eq(#[trigger] self.terms@[i], #[trigger] self.terms@[j])
    }

    /// No term is stored twice: two indices of equal terms are the same.
    pub proof fn lemma_unique(&self, x: TermId, y: TermId)
        requires
            self.wf(),
            x < self.size(),
            y < self.size(),
            term_eq(self.node(x), self.node(y)),
            term_eq(self.node(y), self.node(x)),
        ensures
            x == y,
    {
        if x < y {
            assert(!term_eq(self.terms@[x as int], self.terms@[y as int]));
        } else if y < x {
            assert(!term_eq(self.terms@[y as int], self.terms@[x as int]));
        }
    }

    /// The subterms of the term at `id` come before it.
    pub proof fn lemma_children_below(&self, id: TermId)
        requires
            self.wf(),
            id < self.size(),
        ensures
            children_below(self.node(id), id as int),
    {
    }

    /// An empty pool.
    pub fn new() -> (p: PrimitivePool)
        ensures
            p.wf(),
            p.size() == 0,
    {
        PrimitivePool { terms: Vec::new() }
    }

    /// The number of terms in the pool.
    pub fn len(&self) -> (n: usize)
        ensures
            n == self.size(),
    {
        self.terms.len()
    }

    /// The term at index `id`.
    pub fn get(&self, id: TermId) -> (t: &Term)
        requires
            id < self.size(),
        ensures
            *t == self.node(id),
    {
        &self.terms[id]
    }

    /// Adds a term whose subterms are in the pool, and returns its index: that of an equal term
    /// already in the pool, or a new one at the end.
    pub fn add(&mut self, term: Term) -> (id: TermId)
        requires
            old(self).wf(),
            children_below(term, old(self).size() as int),
        ensures
            final(self).wf(),
            id < final(self).size(),
            id <= old(self).size(),
            forall|i: TermId| i < old(self).size() ==> #[trigger] final(self).node(i) == old(self).node(i),
            id < old(self).size() ==> final(self).size() == old(self).size() && term_eq(old(self).node(id), term),
            id == old(self).size() ==> final(self).size() == old(self).size() + 1 && final(self).node(id) == term
                && forall|i: TermId| i < old(self).size() ==> !term_eq(#[trigger] old(self).node(i), term),
    {
        for i in 0..self.terms.len()
            invariant
                self.wf(),
                self.terms@ == old(self).terms@,
                forall|k: int| 0 <= k < i ==> !term_eq(#[trigger] self.terms@[k], term),
        {
            if same_term(&self.terms[i], &term) {
                return i;
            }
        }
        let id = self.terms.len();
        let ghost old_terms = self.terms@;
        self.terms.push(term);
        proof {
            assert(self.terms@ =~= old_terms.push(term));
            assert forall|i: int| 0 <= i < self.terms@.len() implies children_below(#[trigger] self.terms@[i], i) by {
                if i < old_terms.len() {
                    assert(self.terms@[i] == old_terms[i]);
                }
            }
            assert forall|i: int, j: int| 0 <= i < j < self.terms@.len() implies !term_eq(#[trigger] self.terms@[i], #[trigger] self.terms@[j]) by {
                assert(self.terms@[i] == old_terms[i]);
                if j < old_terms.len() {
                    assert(self.terms@[j] == old_terms[j]);
                }
            }
        }
        id
    }
}


impl Term {
    /// A string constant.
    pub fn new_string(s: &str) -> (t: Term)
        ensures
            t matches Term::Const(Constant::String(x)) && x@ == s@,
    {
        Term::Const(Constant::String(s.to_owned()))
    }

    /// An integer constant.
    pub fn new_int(i: i64) -> (t: Term)
        ensures
            t matches Term::Const(Constant::Integer(x)) && x == i,
    {
        Term::Const(Constant::Integer(i))
    }

    /// A variable of the given sort.
    pub fn new_var(name: &str, sort: Sort) -> (t: Term)
        ensures
            t matches Term::Var(n, s) && n@ == name@ && s == sort,
    {
        Term::Var(name.to_owned(), sort)
    }
}

/// The arguments of the term at `id`, if it is an application of `op`.
pub open spec fn args_of(pool: PrimitivePool, id: TermId, op: Operator) -> Option<Seq<TermId>> {
    if id < pool.size() {
        match pool.node(id) {
            Term::Op(o, a) => if o == op { Some(a@) } else { None },
            _ => None,
        }
    } else {
        None
    }
}

/// Whether the term at `id` is the application of `op` to `args`.
pub open spec fn is_op(pool: PrimitivePool, id: TermId, op: Operator, args: Seq<TermId>) -> bool {
    args_of(pool, id, op) == Some(args)
}

/// Whether the term at `id` is the string constant `s`.
pub open spec fn is_string(pool: PrimitivePool, id: TermId, s: Seq<char>) -> bool {
    &&& id < pool.size()
    &&& pool.node(id) matches Term::Const(Constant::String(x)) && x@ == s
}

/// Whether the term at `id` is the integer constant `i`.
pub open spec fn is_int(pool: PrimitivePool, id: TermId, i: i64) -> bool {
    &&& id < pool.size()
    &&& pool.node(id) matches Term::Const(Constant::Integer(x)) && x == i
}

/// `new` holds the terms of `old`, at the same indices, and maybe more.
pub open spec fn extends(new: PrimitivePool, old: PrimitivePool) -> bool {
    &&& old.size() <= new.size()
    &&& forall|i: TermId| i < old.size() ==> #[trigger] new.node(i) == old.node(i)
}

/// Every index of `ids` designates a term of the pool.
pub open spec fn all_below(ids: Seq<TermId>, n: nat) -> bool {
    forall|k: int| 0 <= k < ids.len() ==> #[trigger] ids[k] < n
}

/// A pool that extends another one gives the same arguments to the terms of the other.
pub proof fn lemma_extends_args(new: PrimitivePool, old: PrimitivePool, id: TermId, op: Operator)
    requires
        extends(new, old),
        id < old.size(),
    ensures
        args_of(new, id, op) == args_of(old, id, op),
{
    assert(new.node(id) == old.node(id));
}

/// Extension of pools is transitive.
pub proof fn lemma_extends_trans(p3: PrimitivePool, p2: PrimitivePool, p1: PrimitivePool)
    requires
        extends(p3, p2),
        extends(p2, p1),
    ensures
        extends(p3, p1),
{
    assert forall|i: TermId| i < p1.size() implies #[trigger] p3.node(i) == p1.node(i) by {
        assert(p3.node(i) == p2.node(i));
    }
}

impl PrimitivePool {
    /// Adds the application of `op` to `args`.
    pub fn add_op(&mut self, op: Operator, args: Vec<TermId>) -> (id: TermId)
        requires
            old(self).wf(),
            all_below(args@, old(self).size()),
        ensures
            final(self).wf(),
            extends(*final(self), *old(self)),
            is_op(*final(self), id, op, args@),
            forall|i: TermId| old(self).size() <= i < final(self).size() ==> is_op(*final(self), i, op, args@),
    {
        let ghost a = args@;
        let ghost before = *self;
        let t = Term::Op(op, args);
        let id = self.add(t);
        proof {
            if id < before.size() {
                assert(self.node(id) == before.node(id));
            }
        }
        id
    }

    /// Adds the application of `op` to the argument `a`.
    pub fn add_op1(&mut self, op: Operator, a: TermId) -> (id: TermId)
        requires
            old(self).wf(),
            a < old(self).size(),
        ensures
            final(self).wf(),
            extends(*final(self), *old(self)),
            is_op(*final(self), id, op, seq![a]),
            forall|i: TermId| old(self).size() <= i < final(self).size() ==> is_op(*final(self), i, op, seq![a]),
    {
        let args = vec![a];
        assert(args@ =~= seq![a]);
        self.add_op(op, args)
    }

    /// Adds the application of `op` to the arguments `a` and `b`.
    pub fn add_op2(&mut self, op: Operator, a: TermId, b: TermId) -> (id: TermId)
        requires
            old(self).wf(),
            a < old(self).size(),
            b < old(self).size(),
        ensures
            final(self).wf(),
            extends(*final(self), *old(self)),
            is_op(*final(self), id, op, seq![a, b]),
            forall|i: TermId| old(self).size() <= i < final(self).size() ==> is_op(*final(self), i, op, seq![a, b]),
    {
        let args = vec![a, b];
        assert(args@ =~= seq![a, b]);
        self.add_op(op, args)
    }

    /// Adds the application of `op` to the arguments `a`, `b` and `c`.
    pub fn add_op3(&mut self, op: Operator, a: TermId, b: TermId, c: TermId) -> (id: TermId)
        requires
            old(self).wf(),
            a < old(self).size(),
            b < old(self).size(),
            c < old(self).size(),
        ensures
            final(self).wf(),
            extends(*final(self), *old(self)),
            is_op(*final(self), id, op, seq![a, b, c]),
            forall|i: TermId| old(self).size() <= i < final(self).size() ==> is_op(*final(self), i, op, seq![a, b, c]),
    {
        let args = vec![a, b, c];
        assert(args@ =~= seq![a, b, c]);
        self.add_op(op, args)
    }

    /// Adds a string constant.
    pub fn add_string(&mut self, s: &str) -> (id: TermId)
        requires
            old(self).wf(),
        ensures
            final(self).wf(),
            extends(*final(self), *old(self)),
            is_string(*final(self), id, s@),
    {
        let ghost before = *self;
        let t = Term::new_string(s);
        let ghost tt = t;
        let id = self.add(t);
        proof {
            if id < before.size() {
                assert(self.node(id) == before.node(id));
                assert(term_eq(before.node(id), tt));
                assert(id < self.size());
                assert(self.node(id) matches Term::Const(Constant::String(x)) && x@ == s@);
            } else {
                assert(self.node(id) == tt);
            }
        }
        id
    }

    /// Adds an integer constant.
    pub fn add_int(&mut self, i: i64) -> (id: TermId)
        requires
            old(self).wf(),
        ensures
            final(self).wf(),
            extends(*final(self), *old(self)),
            is_int(*final(self), id, i),
    {
        let ghost before = *self;
        let t = Term::new_int(i);
        let id = self.add(t);
        proof {
            if id < before.size() {
                assert(self.node(id) == before.node(id));
            }
        }
        id
    }

    /// The arguments of the term at `id`, if it is an application of `op`.
    pub fn op_args(&self, id: TermId, op: Operator) -> (res: Option<&Vec<TermId>>)
        requires
            id < self.size(),
        ensures
            match res {
                Some(a) => args_of(*self, id, op) == Some(a@),
                None => args_of(*self, id, op) is None,
            },
    {
        match self.get(id) {
            Term::Op(o, a) => if *o == op { Some(a) } else { None },
            _ => None,
        }
    }
}


/// Whether an operator yields a Boolean.
pub open spec fn boolean_op(op: Operator) -> bool {
    op == Operator::True || op == Operator::False || op == Operator::Not || op == Operator::Implies
        || op == Operator::And || op == Operator::Or || op == Operator::Xor || op == Operator::Equals
        || op == Operator::Distinct || op == Operator::LessThan || op == Operator::GreaterThan
        || op == Operator::LessEq || op == Operator::GreaterEq || op == Operator::IsInt
        || op == Operator::StrLessThan || op == Operator::StrLessEq || op == Operator::PrefixOf
        || op == Operator::SuffixOf || op == Operator::Contains || op == Operator::StrInRe
}

/// The sort of the term at `id`, where the pool determines it: variables carry their sort,
/// constants have the sort of their kind, Boolean operators yield `Bool`, `store` keeps the sort
/// of its array, `select` yields the element sort of its array, `ite` the sort of its branches,
/// `choice` the sort of its variable, `let` the sort of its body, and an application the result
/// sort of its function.
pub open spec fn term_sort(pool: PrimitivePool, id: TermId) -> Option<Sort>
    decreases id,
{
    if id >= pool.size() {
        None
    } else {
        match pool.node(id) {
            Term::Var(_, s) => Some(s),
            Term::Const(Constant::Integer(_)) => Some(Sort::Int),
            Term::Const(Constant::String(_)) => Some(Sort::String),
            Term::Const(Constant::RegLan(_)) => Some(Sort::RegLan),
            Term::Op(op, args) => if boolean_op(op) {
                Some(Sort::Bool)
            } else if (op == Operator::Store || op == Operator::Ite) && args.len() == 3 {
                let c = if op == Operator::Store { args[0] } else { args[1] };
                if c < id { term_sort(pool, c) } else { None }
            } else if op == Operator::Select && args.len() == 2 && args[0] < id {
                match term_sort(pool, args[0]) {
                    Some(Sort::Array(_, e)) => Some(*e),
                    _ => None,
                }
            } else {
                None
            },
            Term::Binder(b, vs, _) => if b == crate::ast::Binder::Choice && vs.len() == 1 {
                Some(vs[0].1)
            } else if b == crate::ast::Binder::Forall || b == crate::ast::Binder::Exists {
                Some(Sort::Bool)
            } else {
                None
            },
            Term::Let(_, body) => if body < id { term_sort(pool, body) } else { None },
            Term::App(f, _) => if f < id {
                match term_sort(pool, f) {
                    Some(Sort::Function(ss)) => if ss.len() > 0 { Some(ss[ss.len() - 1]) } else { None },
                    _ => None,
                }
            } else {
                None
            },
            _ => None,
        }
    }
}

/// Whether an optional sort is equal to the sort a term has, if any.
pub open spec fn same_opt_sort(a: Option<Sort>, b: Option<Sort>) -> bool {
    match (a, b) {
        (Some(x), Some(y)) => sort_eq(x, y),
        (None, None) => true,
        _ => false,
    }
}

impl PrimitivePool {
    /// The sort of the term at `id`, if the pool determines it (see `term_sort`).
    pub fn sort(&self, id: TermId) -> (res: Option<Sort>)
        requires
            self.wf(),
            id < self.size(),
        ensures
            same_opt_sort(res, term_sort(*self, id)),
        decreases id,
    {
        proof {
            self.lemma_children_below(id);
        }
        match self.get(id) {
            Term::Var(_, s) => Some(s.copy()),
            Term::Const(Constant::Integer(_)) => Some(Sort::Int),
            Term::Const(Constant::String(_)) => Some(Sort::String),
            Term::Const(Constant::RegLan(_)) => Some(Sort::RegLan),
            Term::Op(op, args) => {
                let op = *op;
                if op == Operator::True || op == Operator::False || op == Operator::Not || op == Operator::Implies
                    || op == Operator::And || op == Operator::Or || op == Operator::Xor || op == Operator::Equals
                    || op == Operator::Distinct || op == Operator::LessThan || op == Operator::GreaterThan
                    || op == Operator::LessEq || op == Operator::GreaterEq || op == Operator::IsInt
                    || op == Operator::StrLessThan || op == Operator::StrLessEq || op == Operator::PrefixOf
                    || op == Operator::SuffixOf || op == Operator::Contains || op == Operator::StrInRe {
                    Some(Sort::Bool)
                } else if (op == Operator::Store || op == Operator::Ite) && args.len() == 3 {
                    let c = if op == Operator::Store { args[0] } else { args[1] };
                    assert(children(self.node(id))[if op == Operator::Store { 0int } else { 1int }] == c);
                    self.sort(c)
                } else if op == Operator::Select && args.len() == 2 {
                    assert(children(self.node(id))[0] == args@[0]);
                    match self.sort(args[0]) {
                        Some(Sort::Array(_, e)) => Some(*e),
                        _ => None,
                    }
                } else {
                    None
                }
            },
            Term::Binder(b, vs, _) => {
                if *b == crate::ast::Binder::Choice && vs.len() == 1 {
                    Some(vs[0].1.copy())
                } else if *b == crate::ast::Binder::Forall || *b == crate::ast::Binder::Exists {
                    Some(Sort::Bool)
                } else {
                    None
                }
            },
            Term::Let(bs, body) => {
                assert(children(self.node(id)).last() == *body);
                self.sort(*body)
            },
            Term::App(f, _) => {
                assert(children(self.node(id))[0] == *f);
                match self.sort(*f) {
                    Some(Sort::Function(ss)) => {
                        let mut ss = ss;
                        let ghost all = ss@;
                        let last = ss.pop();
                        proof {
                            if all.len() > 0 {
                                assert(all[all.len() - 1] == last->Some_0);
                            }
                        }
                        last
                    },
                    _ => None,
                }
            },
            _ => None,
        }
    }
}

} // verus!
