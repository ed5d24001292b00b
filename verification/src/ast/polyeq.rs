//! Equality of terms up to the order of the two sides of equalities.

use vstd::prelude::*;

use crate::ast::pool::{children, children_below, sorted_vars_eq, PrimitivePool};
use crate::ast::{Operator, Term, TermId};

verus! {

/// Whether the terms at `a` and `b` are equal up to the order of the two sides of each equality,
/// inside applications of operators and functions and inside binders.
pub open spec fn polyeq(pool: PrimitivePool, a: TermId, b: TermId) -> bool
    decreases a + b,
{
    if a == b {
        true
    } else if a < pool.size() && b < pool.size() {
        match (pool.node(a), pool.node(b)) {
            (Term::Op(o, x), Term::Op(p, y)) => o == p && x.len() == y.len() && (
                if o == Operator::Equals && x.len() == 2 {
                    x[0] < a && y[0] < b && x[1] < a && y[1] < b && (
                        (polyeq(pool, x[0], y[0]) && polyeq(pool, x[1], y[1]))
                        || (polyeq(pool, x[0], y[1]) && polyeq(pool, x[1], y[0])))
                } else {
                    forall|i: int| 0 <= i < x.len() ==> x[i] < a && y[i] < b && polyeq(pool, #[trigger] x[i], y[i])
                }),
            (Term::App(f, x), Term::App(g, y)) => f < a && g < b && polyeq(pool, f, g) && x.len() == y.len()
                && forall|i: int| 0 <= i < x.len() ==> x[i] < a && y[i] < b && polyeq(pool, #[trigger] x[i], y[i]),
            (Term::Binder(q, vs, t), Term::Binder(r, ws, u)) => q == r && sorted_vars_eq(vs@, ws@) && t < a && u < b
                && polyeq(pool, t, u),
            _ => false,
        }
    } else {
        false
    }
}

/// Whether two lists of terms are equal pairwise, up to the order of the sides of equalities.
fn polyeq_lists(pool: &PrimitivePool, x: &Vec<TermId>, y: &Vec<TermId>, a: TermId, b: TermId) -> (res: bool)
    requires
        pool.wf(),
        a < pool.size(),
        b < pool.size(),
        x@.len() == y@.len(),
        forall|k: int| 0 <= k < x@.len() ==> #[trigger] x@[k] < a,
        forall|k: int| 0 <= k < y@.len() ==> #[trigger] y@[k] < b,
    ensures
        res == forall|i: int| 0 <= i < x@.len() ==> x@[i] < a && y@[i] < b && polyeq(*pool, #[trigger] x@[i], y@[i]),
    decreases a + b, 0nat,
{
    for i in 0..x.len()
        invariant
            pool.wf(),
            a < pool.size(),
            b < pool.size(),
            x@.len() == y@.len(),
            forall|k: int| 0 <= k < x@.len() ==> #[trigger] x@[k] < a,
            forall|k: int| 0 <= k < y@.len() ==> #[trigger] y@[k] < b,
            forall|k: int| 0 <= k < i ==> x@[k] < a && y@[k] < b && polyeq(*pool, #[trigger] x@[k], y@[k]),
    {
        assert(x@[i as int] < a && y@[i as int] < b);
        if !polyeq_terms(pool, x[i], y[i]) {
            return false;
        }
    }
    true
}

/// Whether the terms at `a` and `b` are equal up to the order of the two sides of equalities.
pub fn polyeq_terms(pool: &PrimitivePool, a: TermId, b: TermId) -> (res: bool)
    requires
        pool.wf(),
        a < pool.size(),
        b < pool.size(),
    ensures
        res == polyeq(*pool, a, b),
    decreases a + b, 1nat,
{
    if a == b {
        return true;
    }
    proof {
        pool.lemma_children_below(a);
        pool.lemma_children_below(b);
    }
    match (pool.get(a), pool.get(b)) {
        (Term::Op(o, x), Term::Op(p, y)) => {
            if *o != *p || x.len() != y.len() {
                return false;
            }
            assert(children(pool.node(a)) == x@);
            assert(children(pool.node(b)) == y@);
            assert(forall|k: int| 0 <= k < x@.len() ==> #[trigger] x@[k] < a) by {
                assert forall|k: int| 0 <= k < x@.len() implies #[trigger] x@[k] < a by {
                    assert(children(pool.node(a))[k] == x@[k]);
                }
            }
            assert(forall|k: int| 0 <= k < y@.len() ==> #[trigger] y@[k] < b) by {
                assert forall|k: int| 0 <= k < y@.len() implies #[trigger] y@[k] < b by {
                    assert(children(pool.node(b))[k] == y@[k]);
                }
            }
            if *o == Operator::Equals && x.len() == 2 {
                (polyeq_terms(pool, x[0], y[0]) && polyeq_terms(pool, x[1], y[1]))
                    || (polyeq_terms(pool, x[0], y[1]) && polyeq_terms(pool, x[1], y[0]))
            } else {
                polyeq_lists(pool, x, y, a, b)
            }
        },
        (Term::App(f, x), Term::App(g, y)) => {
            if x.len() != y.len() {
                return false;
            }
            assert(children(pool.node(a))[0] == *f);
            assert(children(pool.node(b))[0] == *g);
            assert(forall|k: int| 0 <= k < x@.len() ==> #[trigger] x@[k] < a) by {
                assert forall|k: int| 0 <= k < x@.len() implies #[trigger] x@[k] < a by {
                    assert(children(pool.node(a))[k + 1] == x@[k]);
                }
            }
            assert(forall|k: int| 0 <= k < y@.len() ==> #[trigger] y@[k] < b) by {
                assert forall|k: int| 0 <= k < y@.len() implies #[trigger] y@[k] < b by {
                    assert(children(pool.node(b))[k + 1] == y@[k]);
                }
            }
            polyeq_terms(pool, *f, *g) && polyeq_lists(pool, x, y, a, b)
        },
        (Term::Binder(q, vs, t), Term::Binder(r, ws, u)) => {
            assert(children(pool.node(a))[0] == *t);
            assert(children(pool.node(b))[0] == *u);
            *q == *r && crate::ast::pool::same_sorted_vars(vs, ws) && polyeq_terms(pool, *t, *u)
        },
        _ => false,
    }
}

} // verus!
