//! Automata for regular expressions: the automaton of each operator, built from those of its
//! arguments.

use vstd::prelude::*;

use crate::ast::pool::{automaton_eq, extends, is_op, PrimitivePool};
use crate::ast::{Constant, Operator, Term, TermId};
use crate::automata::determinize::subsets_below;
use crate::automata::language::{accepts_word, lemma_complement_of_dfa, no_eps, simulates, symbols};
use crate::automata::operations::{edge, has_reachable_accepting_state, intersection, is_path, is_product, lemma_pairs_bound, lemma_product_no_eps, reachable};
use crate::automata::{insert_transition, Automaton, State, StateId, Transition, Trigger};
use crate::error::CheckerError;
use crate::text::char_text;

verus! {

/// An epsilon transition to `to`.
pub open spec fn eps(to: StateId) -> Transition {
    Transition { to, trigger: Trigger::Epsilon }
}

/// A transition consuming exactly the symbol `c`.
pub open spec fn on_symbol(to: StateId, c: u16) -> Transition {
    Transition { to, trigger: Trigger::Range(c, c) }
}

/// `t` with its target moved `k` states further.
pub open spec fn shift(t: Transition, k: int) -> Transition {
    Transition { to: (t.to + k) as usize, trigger: t.trigger }
}

/// Each transition of `ts` with its target moved `k` states further.
pub open spec fn shifted(ts: Seq<Transition>, k: int) -> Seq<Transition> {
    ts.map_values(|t: Transition| shift(t, k))
}

/// `t` is the state `s` with its transitions moved `k` states further.
pub open spec fn is_shifted(s: State, t: State, k: int) -> bool {
    &&& t.id@ == s.id@
    &&& t.accept == s.accept
    &&& t.transitions@ == shifted(s.transitions@, k)
}

/// Every target of `a` moved `k` states further is still a `usize`.
pub open spec fn shiftable(a: Automaton, k: int) -> bool {
    forall|s: int, j: int| 0 <= s < a.all_states.len() && 0 <= j < a.all_states[s].transitions.len()
        ==> #[trigger] a.all_states[s].transitions[j].to + k <= usize::MAX
}

fn shift_transitions(ts: &Vec<Transition>, k: usize) -> (res: Vec<Transition>)
    requires
        forall|j: int| 0 <= j < ts@.len() ==> #[trigger] ts@[j].to + k <= usize::MAX,
    ensures
        res@ == shifted(ts@, k as int),
        ts@.no_duplicates() ==> res@.no_duplicates(),
{
    let mut res: Vec<Transition> = Vec::new();
    for j in 0..ts.len()
        invariant
            forall|m: int| 0 <= m < ts@.len() ==> #[trigger] ts@[m].to + k <= usize::MAX,
            res@ == shifted(ts@.take(j as int), k as int),
    {
        let t = ts[j];
        res.push(Transition { to: t.to + k, trigger: t.trigger });
        assert(ts@.take(j + 1) =~= ts@.take(j as int).push(t));
        assert(res@ =~= shifted(ts@.take(j + 1), k as int));
    }
    assert(ts@.take(ts@.len() as int) =~= ts@);
    proof {
        if ts@.no_duplicates() {
            assert forall|a: int, b: int| 0 <= a < res@.len() && 0 <= b < res@.len() && a != b implies res@[a] != res@[b] by {
                assert(ts@[a] != ts@[b]);
            }
        }
    }
    res
}

/// The states of `states` with their transitions moved `k` states further.
fn shift_states(states: &Vec<State>, k: usize) -> (res: Vec<State>)
    requires
        forall|s: int, j: int| 0 <= s < states@.len() && 0 <= j < states@[s].transitions@.len()
            ==> #[trigger] states@[s].transitions@[j].to + k <= usize::MAX,
    ensures
        res@.len() == states@.len(),
        forall|s: int| 0 <= s < states@.len() ==> is_shifted(states@[s], #[trigger] res@[s], k as int),
        forall|s: int| 0 <= s < states@.len() && states@[s].transitions@.no_duplicates() ==> (#[trigger] res@[s]).transitions@.no_duplicates(),
{
    let mut res: Vec<State> = Vec::new();
    for s in 0..states.len()
        invariant
            forall|q: int, j: int| 0 <= q < states@.len() && 0 <= j < states@[q].transitions@.len()
                ==> #[trigger] states@[q].transitions@[j].to + k <= usize::MAX,
            res@.len() == s,
            forall|q: int| 0 <= q < s ==> is_shifted(states@[q], #[trigger] res@[q], k as int),
            forall|q: int| 0 <= q < s && states@[q].transitions@.no_duplicates() ==> (#[trigger] res@[q]).transitions@.no_duplicates(),
    {
        let st = &states[s];
        assert forall|j: int| 0 <= j < st.transitions@.len() implies #[trigger] st.transitions@[j].to + k <= usize::MAX by {
            assert(states@[s as int].transitions@[j] == st.transitions@[j]);
        }
        let ts = shift_transitions(&st.transitions, k);
        res.push(State { id: st.id.clone(), accept: st.accept, transitions: ts });
    }
    res
}

/// The automaton of `(re.* r)`, from the automaton `a` of `r`: a new accepting initial state
/// with an epsilon transition to the initial state of `a`, and an epsilon transition back to it
/// from each accepting state of `a`.
pub open spec fn is_kleene_of(res: Automaton, a: Automaton) -> bool {
    let n = a.all_states.len();
    &&& res.name@ == "re_kleene_closure"@
    &&& res.initial_state == n
    &&& res.all_states.len() == n + 1
    &&& forall|k: int| #![trigger res.all_states[k]] 0 <= k < n ==> {
        &&& res.all_states[k].id@ == a.all_states[k].id@
        &&& res.all_states[k].accept == a.all_states[k].accept
        &&& forall|u: Transition| #![trigger res.all_states[k].transitions@.contains(u)] res.all_states[k].transitions@.contains(u)
            <==> (a.all_states[k].transitions@.contains(u) || (a.all_states[k].accept && u == eps(a.initial_state)))
    }
    &&& res.all_states[n as int].id@ == "new_init"@
    &&& res.all_states[n as int].accept
    &&& res.all_states[n as int].transitions@ == seq![eps(a.initial_state)]
}

/// Builds the automaton of `(re.* r)` from the automaton `a` of `r`.
pub fn kleene_closure(a: &Automaton) -> (res: Automaton)
    requires
        a.wf(),
        a.all_states.len() < usize::MAX,
    ensures
        res.wf(),
        is_kleene_of(res, *a),
{
    let n = a.all_states.len();
    let back = Transition::new(a.initial_state, Trigger::Epsilon);
    let mut states: Vec<State> = Vec::new();
    let mut k: usize = 0;
    while k < n
        invariant
            n == a.all_states.len(),
            k <= n,
            a.wf(),
            back == eps(a.initial_state),
            states@.len() == k,
            forall|q: int| #![trigger states@[q]] 0 <= q < k ==> {
                &&& states@[q].id@ == a.all_states[q].id@
                &&& states@[q].accept == a.all_states[q].accept
                &&& states@[q].transitions@.no_duplicates()
                &&& forall|u: Transition| #![trigger states@[q].transitions@.contains(u)] states@[q].transitions@.contains(u)
                    <==> (a.all_states[q].transitions@.contains(u) || (a.all_states[q].accept && u == back))
            },
        decreases n - k,
    {
        let mut st = a.all_states[k].duplicate();
        assert(a.all_states[k as int].transitions@.no_duplicates());
        if st.accept {
            insert_transition(&mut st.transitions, back);
        }
        let ghost before = states@;
        states.push(st);
        assert forall|q: int| 0 <= q < k + 1 implies #[trigger] states@[q] == (if q < k { before[q] } else { st }) by {}
        k += 1;
    }
    let init = State { id: String::from_str("new_init"), accept: true, transitions: vec![back] };
    states.push(init);
    let res = Automaton { name: String::from_str("re_kleene_closure"), all_states: states, initial_state: n };
    proof {
        assert(res.all_states[n as int].transitions@ =~= seq![back]);
        assert forall|s: int, j: int| 0 <= s < res.all_states.len() && 0 <= j < res.all_states[s].transitions.len()
            implies #[trigger] res.all_states[s].transitions[j].to < res.all_states.len() by {
            let u = res.all_states[s].transitions@[j];
            assert(res.all_states[s].transitions[j] == u);
            if s < n {
                assert(res.all_states[s] == states@[s]);
                assert(res.all_states[s].transitions@.contains(u));
                if a.all_states[s].transitions@.contains(u) {
                    let m = choose|m: int| 0 <= m < a.all_states[s].transitions@.len() && a.all_states[s].transitions@[m] == u;
                    assert(a.all_states[s].transitions[m].to < n);
                } else {
                    assert(u == back);
                }
            } else {
                assert(u == back);
            }
        }
        assert forall|k: int| #![trigger res.all_states[k]] 0 <= k < n implies {
            &&& res.all_states[k].id@ == a.all_states[k].id@
            &&& res.all_states[k].accept == a.all_states[k].accept
            &&& forall|u: Transition| #![trigger res.all_states[k].transitions@.contains(u)] res.all_states[k].transitions@.contains(u)
                <==> (a.all_states[k].transitions@.contains(u) || (a.all_states[k].accept && u == eps(a.initial_state)))
        } by {
            assert(res.all_states[k] == states@[k]);
        }
    }
    res
}

/// The automaton of `(re.++ r s)`, from the automata `a1` of `r` and `a2` of `s`: the states of
/// `a1`, none accepting, with an epsilon transition from each formerly accepting one to the
/// initial state of `a2`, followed by the states of `a2`.
pub open spec fn is_concat_of(res: Automaton, a1: Automaton, a2: Automaton) -> bool {
    let n1 = a1.all_states.len();
    let n2 = a2.all_states.len();
    &&& res.name@ == "re_concat"@
    &&& res.initial_state == a1.initial_state
    &&& res.all_states.len() == n1 + n2
    &&& forall|k: int| #![trigger res.all_states[k]] 0 <= k < n1 ==> {
        &&& res.all_states[k].id@ == a1.all_states[k].id@
        &&& !res.all_states[k].accept
        &&& forall|u: Transition| #![trigger res.all_states[k].transitions@.contains(u)] res.all_states[k].transitions@.contains(u)
            <==> (a1.all_states[k].transitions@.contains(u) || (a1.all_states[k].accept && u == eps((a2.initial_state + n1) as usize)))
    }
    &&& forall|k: int| 0 <= k < n2 ==> is_shifted(a2.all_states[k], #[trigger] res.all_states[n1 + k], n1 as int)
}

/// Builds the automaton of `(re.++ r s)` from the automata `a1` of `r` and `a2` of `s`.
pub fn concat(a1: &Automaton, a2: &Automaton) -> (res: Automaton)
    requires
        a1.wf(),
        a2.wf(),
        a1.all_states.len() + a2.all_states.len() <= usize::MAX,
    ensures
        res.wf(),
        is_concat_of(res, *a1, *a2),
{
    let n1 = a1.all_states.len();
    let n2 = a2.all_states.len();
    let forward = Transition::new(a2.initial_state + n1, Trigger::Epsilon);
    let mut states: Vec<State> = Vec::new();
    let mut k: usize = 0;
    while k < n1
        invariant
            n1 == a1.all_states.len(),
            k <= n1,
            a1.wf(),
            forward == eps((a2.initial_state + n1) as usize),
            states@.len() == k,
            forall|q: int| #![trigger states@[q]] 0 <= q < k ==> {
                &&& states@[q].id@ == a1.all_states[q].id@
                &&& !states@[q].accept
                &&& states@[q].transitions@.no_duplicates()
                &&& forall|u: Transition| #![trigger states@[q].transitions@.contains(u)] states@[q].transitions@.contains(u)
                    <==> (a1.all_states[q].transitions@.contains(u) || (a1.all_states[q].accept && u == forward))
            },
        decreases n1 - k,
    {
        let mut st = a1.all_states[k].duplicate();
        assert(a1.all_states[k as int].transitions@.no_duplicates());
        let was = st.accept;
        if was {
            insert_transition(&mut st.transitions, forward);
        }
        assert(forall|u: Transition| #![trigger st.transitions@.contains(u)] st.transitions@.contains(u)
            <==> (a1.all_states[k as int].transitions@.contains(u) || (a1.all_states[k as int].accept && u == forward)));
        st.accept = false;
        let ghost before = states@;
        states.push(st);
        assert forall|q: int| 0 <= q < k + 1 implies #[trigger] states@[q] == (if q < k { before[q] } else { st }) by {}
        k += 1;
    }
    assert forall|s: int, j: int| 0 <= s < a2.all_states@.len() && 0 <= j < a2.all_states@[s].transitions@.len()
        implies #[trigger] a2.all_states@[s].transitions@[j].to + n1 <= usize::MAX by {
        assert(a2.all_states[s].transitions[j].to < n2);
    }
    let mut tail = shift_states(&a2.all_states, n1);
    let ghost head = states@;
    let ghost tail0 = tail@;
    states.append(&mut tail);
    let res = Automaton { name: String::from_str("re_concat"), all_states: states, initial_state: a1.initial_state };
    proof {
        assert forall|k: int| 0 <= k < n2 implies is_shifted(a2.all_states[k], #[trigger] res.all_states[n1 + k], n1 as int) by {
            assert(res.all_states[n1 + k] == tail0[k]);
            assert(is_shifted(a2.all_states@[k], tail0[k], n1 as int));
        }
        assert forall|s: int, j: int| 0 <= s < res.all_states.len() && 0 <= j < res.all_states[s].transitions.len()
            implies #[trigger] res.all_states[s].transitions[j].to < res.all_states.len() by {
            let u = res.all_states[s].transitions@[j];
            assert(res.all_states[s].transitions[j] == u);
            if s < n1 {
                assert(res.all_states[s] == head[s]);
                assert(res.all_states[s].transitions@.contains(u));
                if a1.all_states[s].transitions@.contains(u) {
                    let m = choose|m: int| 0 <= m < a1.all_states[s].transitions@.len() && a1.all_states[s].transitions@[m] == u;
                    assert(a1.all_states[s].transitions[m].to < n1);
                } else {
                    assert(u == forward);
                }
            } else {
                assert(res.all_states[s] == tail0[s - n1]);
                assert(is_shifted(a2.all_states[s - n1], res.all_states[s], n1 as int));
                assert(a2.all_states[s - n1].transitions[j].to < n2);
                assert(res.all_states[s].transitions@[j] == shift(a2.all_states[s - n1].transitions@[j], n1 as int));
            }
        }
        assert forall|s: int| 0 <= s < res.all_states.len() implies #[trigger] res.all_states[s].transitions@.no_duplicates() by {
            if s >= n1 {
                assert(res.all_states[s] == tail0[s - n1]);
                assert(a2.all_states@[s - n1].transitions@.no_duplicates());
            } else {
                assert(res.all_states[s] == head[s]);
            }
        }
    }
    res
}

/// The index, in the automaton of a union, of the first state of its `i`-th component: the
/// states of the components follow a new initial state, in order.
pub open spec fn offset(v: Seq<Automaton>, i: int) -> int
    decreases i,
{
    if i <= 0 {
        1
    } else {
        offset(v, i - 1) + v[i - 1].all_states.len()
    }
}

/// Offsets grow with the components, each of which has at least one state.
proof fn lemma_offset_grows(v: Seq<Automaton>, m: int, i: int)
    requires
        0 <= m < i <= v.len(),
        forall|q: int| 0 <= q < v.len() ==> (#[trigger] v[q]).wf(),
    ensures
        offset(v, m) + v[m].all_states.len() <= offset(v, i),
        1 <= offset(v, m),
    decreases i,
{
    if m < i - 1 {
        lemma_offset_grows(v, m, i - 1);
        assert(v[i - 1].wf());
    }
    lemma_offset_positive(v, m);
}

pub(crate) proof fn lemma_offset_positive(v: Seq<Automaton>, m: int)
    ensures
        1 <= offset(v, m),
    decreases m,
{
    if m > 0 {
        lemma_offset_positive(v, m - 1);
    }
}

/// The automaton of `(re.union r_1 ... r_n)`, from the automata `v` of the `r_i`: a new initial
/// state, not accepting, with an epsilon transition to the first state of each component, then
/// the states of the components, in order.
pub open spec fn is_union_of(res: Automaton, v: Seq<Automaton>) -> bool {
    &&& res.name@ == "re_union"@
    &&& res.initial_state == 0
    &&& res.all_states.len() == offset(v, v.len() as int)
    &&& res.all_states[0].id@ == "init"@
    &&& !res.all_states[0].accept
    &&& res.all_states[0].transitions@ == Seq::new(v.len(), |m: int| eps(offset(v, m) as usize))
    &&& forall|m: int, k: int| #![trigger v[m].all_states[k]] 0 <= m < v.len() && 0 <= k < v[m].all_states.len()
        ==> is_shifted(v[m].all_states[k], res.all_states[offset(v, m) + k], offset(v, m))
}

/// Builds the automaton of `(re.union r_1 ... r_n)` from the automata `v` of the `r_i`.
pub fn union(v: &Vec<Automaton>) -> (res: Automaton)
    requires
        forall|m: int| 0 <= m < v@.len() ==> (#[trigger] v@[m]).wf(),
        offset(v@, v@.len() as int) <= usize::MAX,
    ensures
        res.wf(),
        is_union_of(res, v@),
{
    let ghost vs = v@;
    let mut states: Vec<State> = Vec::new();
    states.push(State::new("init", false));
    let mut init_ts: Vec<Transition> = Vec::new();
    let mut i: usize = 0;
    while i < v.len()
        invariant
            vs == v@,
            i <= vs.len(),
            forall|m: int| 0 <= m < vs.len() ==> (#[trigger] vs[m]).wf(),
            offset(vs, vs.len() as int) <= usize::MAX,
            states@.len() == offset(vs, i as int),
            states@[0].id@ == "init"@,
            !states@[0].accept,
            init_ts@ == Seq::new(i as nat, |m: int| eps(offset(vs, m) as usize)),
            forall|m: int, k: int| #![trigger vs[m].all_states[k]] 0 <= m < i && 0 <= k < vs[m].all_states.len()
                ==> is_shifted(vs[m].all_states[k], states@[offset(vs, m) + k], offset(vs, m)),
            forall|q: int| 1 <= q < states@.len() ==> (#[trigger] states@[q]).transitions@.no_duplicates(),
            forall|q: int, j: int| 1 <= q < states@.len() && 0 <= j < states@[q].transitions@.len()
                ==> #[trigger] states@[q].transitions@[j].to < states@.len(),
        decreases vs.len() - i,
    {
        let a = &v[i];
        proof {
            lemma_offset_grows(vs, i as int, vs.len() as int);
            assert(a.wf());
        }
        let off = states.len();
        init_ts.push(Transition::new(off, Trigger::Epsilon));
        assert forall|q: int, j: int| 0 <= q < a.all_states@.len() && 0 <= j < a.all_states@[q].transitions@.len()
            implies #[trigger] a.all_states@[q].transitions@[j].to + off <= usize::MAX by {
            assert(a.all_states[q].transitions[j].to < a.all_states.len());
        }
        let mut shifted_states = shift_states(&a.all_states, off);
        let ghost before = states@;
        let ghost added = shifted_states@;
        states.append(&mut shifted_states);
        proof {
            assert(init_ts@ =~= Seq::new((i + 1) as nat, |m: int| eps(offset(vs, m) as usize)));
            assert forall|m: int, k: int| #![trigger vs[m].all_states[k]] 0 <= m < i + 1 && 0 <= k < vs[m].all_states.len()
                implies is_shifted(vs[m].all_states[k], states@[offset(vs, m) + k], offset(vs, m)) by {
                if m < i {
                    lemma_offset_grows(vs, m, i as int);
                    assert(states@[offset(vs, m) + k] == before[offset(vs, m) + k]);
                } else {
                    assert(states@[offset(vs, m) + k] == added[k]);
                    assert(vs[m].all_states[k] == a.all_states@[k]);
                }
            }
            assert forall|q: int| 1 <= q < states@.len() implies (#[trigger] states@[q]).transitions@.no_duplicates() by {
                if q >= before.len() {
                    assert(states@[q] == added[q - before.len()]);
                    assert(a.all_states@[q - before.len()].transitions@.no_duplicates());
                } else {
                    assert(states@[q] == before[q]);
                }
            }
            assert forall|q: int, j: int| 1 <= q < states@.len() && 0 <= j < states@[q].transitions@.len()
                implies #[trigger] states@[q].transitions@[j].to < states@.len() by {
                if q >= before.len() {
                    let k = q - before.len();
                    assert(states@[q] == added[k]);
                    assert(is_shifted(a.all_states@[k], added[k], off as int));
                    assert(a.all_states[k].transitions[j].to < a.all_states.len());
                    assert(states@[q].transitions@[j] == shift(a.all_states@[k].transitions@[j], off as int));
                } else {
                    assert(states@[q] == before[q]);
                }
            }
        }
        i += 1;
    }
    let ghost ts = init_ts@;
    let init = State { id: String::from_str("init"), accept: false, transitions: init_ts };
    let ghost before = states@;
    proof {
        lemma_offset_positive(vs, vs.len() as int);
    }
    states.set(0, init);
    let res = Automaton { name: String::from_str("re_union"), all_states: states, initial_state: 0 };
    proof {
        assert forall|m: int, k: int| #![trigger vs[m].all_states[k]] 0 <= m < vs.len() && 0 <= k < vs[m].all_states.len()
            implies is_shifted(vs[m].all_states[k], res.all_states[offset(vs, m) + k], offset(vs, m)) by {
            lemma_offset_grows(vs, m, vs.len() as int);
            assert(res.all_states[offset(vs, m) + k] == before[offset(vs, m) + k]);
        }
        assert forall|a: int, b: int| 0 <= a < ts.len() && 0 <= b < ts.len() && a != b implies ts[a] != ts[b] by {
            lemma_offset_grows(vs, a, vs.len() as int);
            lemma_offset_grows(vs, b, vs.len() as int);
            if a < b {
                lemma_offset_grows(vs, a, b);
            } else {
                lemma_offset_grows(vs, b, a);
            }
            assert(ts[a].to != ts[b].to);
        }
        assert forall|s: int, j: int| 0 <= s < res.all_states.len() && 0 <= j < res.all_states[s].transitions.len()
            implies #[trigger] res.all_states[s].transitions[j].to < res.all_states.len() by {
            if s == 0 {
                lemma_offset_grows(vs, j, vs.len() as int);
                assert(res.all_states[0].transitions[j] == ts[j]);
            } else {
                assert(res.all_states[s] == before[s]);
                assert(res.all_states[s].transitions[j] == before[s].transitions@[j]);
            }
        }
        assert forall|s: int| 0 <= s < res.all_states.len() implies #[trigger] res.all_states[s].transitions@.no_duplicates() by {
            if s > 0 {
                assert(res.all_states[s] == before[s]);
            }
        }
    }
    res
}

/// The automaton of `(str.to_re s)`: a chain of states, one more than the characters of `s`,
/// each consuming the next character, of which the last accepts.
pub open spec fn is_str_to_re(res: Automaton, s: Seq<char>) -> bool {
    &&& res.name@ == "str_to_re"@
    &&& res.initial_state == 0
    &&& res.all_states.len() == s.len() + 1
    &&& res.all_states[0].id@ == "init"@
    &&& res.all_states[0].accept == (s.len() == 0)
    &&& res.all_states[0].transitions@ == (if s.len() == 0 { Seq::empty() } else { seq![on_symbol(1, s[0] as u16)] })
    &&& forall|k: int| #![trigger res.all_states[k]] 1 <= k <= s.len() ==> {
        &&& res.all_states[k].id@ == seq![s[k - 1]]
        &&& res.all_states[k].accept == (k == s.len())
        &&& res.all_states[k].transitions@ == (if k < s.len() { seq![on_symbol((k + 1) as usize, s[k] as u16)] } else { Seq::empty() })
    }
}

/// Builds the automaton of `(str.to_re s)`.
pub fn str_to_re(s: &str) -> (res: Automaton)
    ensures
        res.wf(),
        is_str_to_re(res, s@),
{
    let mut chars: Vec<char> = Vec::new();
    for c in it: s.chars()
        invariant
            it.seq() == s@,
            chars@ == s@.take(it.index()),
    {
        assert(s@.take(it.index() + 1) =~= s@.take(it.index()).push(c));
        chars.push(c);
    }
    assert(chars@ =~= s@);
    let n = chars.len();
    let mut states: Vec<State> = Vec::new();
    if n == 0 {
        states.push(State::new("init", true));
        let res = Automaton { name: String::from_str("str_to_re"), all_states: states, initial_state: 0 };
        assert(res.all_states[0].transitions@ =~= Seq::empty());
        return res;
    }
    states.push(State { id: String::from_str("init"), accept: false, transitions: vec![Transition::new(1, Trigger::Range(chars[0] as u16, chars[0] as u16))] });
    let mut i: usize = 0;
    while i < n
        invariant
            n == chars@.len(),
            chars@ == s@,
            0 < n,
            i <= n,
            states@.len() == i + 1,
            states@[0].id@ == "init"@,
            !states@[0].accept,
            states@[0].transitions@ == seq![on_symbol(1, s@[0] as u16)],
            forall|k: int| #![trigger states@[k]] 1 <= k <= i ==> {
                &&& states@[k].id@ == seq![s@[k - 1]]
                &&& states@[k].accept == (k == n)
                &&& states@[k].transitions@ == (if k < n { seq![on_symbol((k + 1) as usize, s@[k] as u16)] } else { Seq::empty() })
            },
        decreases n - i,
    {
        let c = chars[i];
        let mut transitions: Vec<Transition> = Vec::new();
        if i + 1 < n {
            let next = chars[i + 1];
            transitions.push(Transition::new(i + 2, Trigger::Range(next as u16, next as u16)));
        }
        let ghost before = states@;
        let st = State { id: char_text(c), accept: i + 1 == n, transitions };
        states.push(st);
        proof {
            assert forall|k: int| #![trigger states@[k]] 1 <= k <= i + 1 implies {
                &&& states@[k].id@ == seq![s@[k - 1]]
                &&& states@[k].accept == (k == n)
                &&& states@[k].transitions@ == (if k < n { seq![on_symbol((k + 1) as usize, s@[k] as u16)] } else { Seq::empty() })
            } by {
                if k <= i {
                    assert(states@[k] == before[k]);
                } else {
                    assert(states@[k] == st);
                    if k < n {
                        assert(st.transitions@ =~= seq![on_symbol((k + 1) as usize, s@[k] as u16)]);
                    } else {
                        assert(st.transitions@ =~= Seq::<Transition>::empty());
                    }
                }
            }
        }
        i += 1;
    }
    let res = Automaton { name: String::from_str("str_to_re"), all_states: states, initial_state: 0 };
    proof {
        assert forall|q: int, j: int| 0 <= q < res.all_states.len() && 0 <= j < res.all_states[q].transitions.len()
            implies #[trigger] res.all_states[q].transitions[j].to < res.all_states.len() by {
            if q > 0 {
                assert(res.all_states[q] == states@[q]);
            }
        }
        assert forall|q: int| 0 <= q < res.all_states.len() implies #[trigger] res.all_states[q].transitions@.no_duplicates() by {
            if q > 0 {
                assert(res.all_states[q] == states@[q]);
            }
        }
    }
    res
}

/// An automaton of a single state, with a loop on every symbol, accepting when `accept` holds.
pub open spec fn is_single_loop(res: Automaton, name: Seq<char>, accept: bool) -> bool {
    &&& res.name@ == name
    &&& res.initial_state == 0
    &&& res.all_states.len() == 1
    &&& res.all_states[0].id@ == "init"@
    &&& res.all_states[0].accept == accept
    &&& res.all_states[0].transitions@ == seq![Transition { to: 0, trigger: Trigger::Range(0, 0xffff) }]
}

/// An automaton of two states: the initial one, not accepting, goes to the accepting one on a
/// symbol in `[l, r]`.
pub open spec fn is_single_step(res: Automaton, name: Seq<char>, l: u16, r: u16) -> bool {
    &&& res.name@ == name
    &&& res.initial_state == 0
    &&& res.all_states.len() == 2
    &&& res.all_states[0].id@ == "init"@
    &&& !res.all_states[0].accept
    &&& res.all_states[0].transitions@ == seq![Transition { to: 1, trigger: Trigger::Range(l, r) }]
    &&& res.all_states[1].id@ == "accept"@
    &&& res.all_states[1].accept
    &&& res.all_states[1].transitions@.len() == 0
}

fn single_loop(name: &str, accept: bool) -> (res: Automaton)
    ensures
        res.wf(),
        is_single_loop(res, name@, accept),
{
    let st = State { id: String::from_str("init"), accept, transitions: vec![Transition::new(0, Trigger::Range(0, 0xffff))] };
    let res = Automaton { name: String::from_str(name), all_states: vec![st], initial_state: 0 };
    assert(res.all_states[0].transitions@ =~= seq![Transition { to: 0, trigger: Trigger::Range(0, 0xffff) }]);
    res
}

fn single_step(name: &str, l: u16, r: u16) -> (res: Automaton)
    ensures
        res.wf(),
        is_single_step(res, name@, l, r),
{
    let init = State { id: String::from_str("init"), accept: false, transitions: vec![Transition::new(1, Trigger::Range(l, r))] };
    let fin = State::new("accept", true);
    let res = Automaton { name: String::from_str(name), all_states: vec![init, fin], initial_state: 0 };
    assert(res.all_states[0].transitions@ =~= seq![Transition { to: 1, trigger: Trigger::Range(l, r) }]);
    res
}

/// Builds the automaton of `re.none`: a single rejecting state that loops on every symbol.
pub fn re_none() -> (res: Automaton)
    ensures
        res.wf(),
        is_single_loop(res, "re_none"@, false),
{
    single_loop("re_none", false)
}

/// Builds the automaton of `re.all`: a single accepting state that loops on every symbol.
pub fn re_all() -> (res: Automaton)
    ensures
        res.wf(),
        is_single_loop(res, "re_all"@, true),
{
    single_loop("re_all", true)
}

/// Builds the automaton of `re.allchar`: one step on any symbol.
pub fn re_allchar() -> (res: Automaton)
    ensures
        res.wf(),
        is_single_step(res, "re_allchar"@, 0, 0xffff),
{
    single_step("re_allchar", 0, 0xffff)
}

/// Builds the automaton of `(re.range c1 c2)`: one step on a symbol from `c1` to `c2`.
pub fn re_range(c1: u16, c2: u16) -> (res: Automaton)
    ensures
        res.wf(),
        is_single_step(res, "re_range"@, c1, c2),
{
    single_step("re_range", c1, c2)
}

/// Whether some accepting state of `a` can be reached from its initial state.
pub open spec fn productive(a: Automaton) -> bool {
    exists|s: StateId| s < a.all_states.len() && a.all_states[s as int].accept && #[trigger] reachable(a, a.initial_state, s)
}

/// Two automata with the same states and transitions are productive together.
proof fn lemma_eq_productive(a: Automaton, b: Automaton)
    requires
        automaton_eq(a, b),
    ensures
        productive(a) <==> productive(b),
{
    assert forall|x: StateId, y: StateId| #[trigger] edge(a, x, y) <==> edge(b, x, y) by {
        if x < a.all_states.len() {
            assert(a.all_states[x as int].transitions@ == b.all_states[x as int].transitions@);
        }
    }
    assert forall|p: Seq<StateId>| #[trigger] is_path(a, p) <==> is_path(b, p) by {
        if is_path(a, p) {
            assert forall|i: int| 0 <= i < p.len() - 1 implies #[trigger] edge(b, p[i], p[i + 1]) by {
                assert(edge(a, p[i], p[i + 1]));
            }
        }
        if is_path(b, p) {
            assert forall|i: int| 0 <= i < p.len() - 1 implies #[trigger] edge(a, p[i], p[i + 1]) by {
                assert(edge(b, p[i], p[i + 1]));
            }
        }
    }
    if productive(a) {
        let s = choose|s: StateId| s < a.all_states.len() && a.all_states[s as int].accept && #[trigger] reachable(a, a.initial_state, s);
        let p = choose|p: Seq<StateId>| #[trigger] is_path(a, p) && p[0] == a.initial_state && p.last() == s;
        assert(is_path(b, p));
        assert(reachable(b, b.initial_state, s));
    }
    if productive(b) {
        let s = choose|s: StateId| s < b.all_states.len() && b.all_states[s as int].accept && #[trigger] reachable(b, b.initial_state, s);
        let p = choose|p: Seq<StateId>| #[trigger] is_path(b, p) && p[0] == b.initial_state && p.last() == s;
        assert(is_path(a, p));
        assert(reachable(a, a.initial_state, s));
    }
}

/// The positions, among the first `n` components, of those that are productive.
pub open spec fn productive_positions(comps: Seq<Automaton>, n: int) -> Seq<int>
    decreases n,
{
    if n <= 0 {
        Seq::empty()
    } else {
        let r = productive_positions(comps, n - 1);
        if productive(comps[n - 1]) { r.push(n - 1) } else { r }
    }
}

/// The number of states of the components of `comps` at the first `j` positions of `kp`.
pub open spec fn kept_size(comps: Seq<Automaton>, kp: Seq<int>, j: int) -> int
    decreases j,
{
    if j <= 0 {
        0
    } else {
        kept_size(comps, kp, j - 1) + comps[kp[j - 1]].all_states.len()
    }
}

proof fn lemma_kept_size_mono(comps: Seq<Automaton>, kp: Seq<int>, i: int, j: int)
    requires
        0 <= i <= j,
    ensures
        kept_size(comps, kp, i) <= kept_size(comps, kp, j),
    decreases j - i,
{
    if i < j {
        lemma_kept_size_mono(comps, kp, i, j - 1);
    }
}

/// The `j`-th automaton of `chain` concatenates the one before and the component at the `j`-th
/// position of `kp`.
pub open spec fn concat_link(comps: Seq<Automaton>, kp: Seq<int>, chain: Seq<Automaton>, j: int) -> bool {
    is_concat_of(chain[j], chain[j - 1], comps[kp[j]])
}

/// `chain` joins, one after the other, the components of `comps` at the positions `kp`: its first
/// automaton is a copy of the first of them, and each next one concatenates the one before and
/// the next of them.
pub open spec fn concat_chain(comps: Seq<Automaton>, kp: Seq<int>, chain: Seq<Automaton>) -> bool {
    &&& chain.len() == kp.len()
    &&& kp.len() >= 1
    &&& automaton_eq(chain[0], comps[kp[0]])
    &&& forall|j: int| 1 <= j < chain.len() ==> #[trigger] concat_link(comps, kp, chain, j)
}

/// The automaton of a concatenation, from the automata `comps` of its components: those that
/// accept nothing reachable are left out, and the remaining ones are concatenated in order.
pub open spec fn is_concat_of_components(res: Automaton, comps: Seq<Automaton>) -> bool {
    let kept = productive_positions(comps, comps.len() as int);
    exists|chain: Seq<Automaton>| #[trigger] concat_chain(comps, kept, chain) && res == chain.last()
}

/// The automata `comps` of the components of a concatenation leave it with no productive
/// component, or with productive ones too large together for a `usize` to count their states.
pub open spec fn concat_fails(comps: Seq<Automaton>) -> bool {
    let kp = productive_positions(comps, comps.len() as int);
    kp.len() == 0 || kept_size(comps, kp, kp.len() as int) > usize::MAX
}

/// Builds the automaton of a concatenation from the automata `comps` of its components. Fails
/// when no component is productive, or when the concatenation would have more states than a
/// `usize` counts.
pub fn concat_components(comps: &Vec<Automaton>) -> (res: Result<Automaton, CheckerError>)
    requires
        forall|m: int| 0 <= m < comps@.len() ==> (#[trigger] comps@[m]).wf(),
    ensures
        res matches Ok(a) ==> a.wf() && is_concat_of_components(a, comps@),
        res is Err ==> res == Err::<Automaton, CheckerError>(CheckerError::Unspecified),
        res is Err <==> concat_fails(comps@),
{
    let mut kept: Vec<usize> = Vec::new();
    let mut i: usize = 0;
    while i < comps.len()
        invariant
            i <= comps@.len(),
            forall|m: int| 0 <= m < comps@.len() ==> (#[trigger] comps@[m]).wf(),
            kept@.map_values(|k: usize| k as int) == productive_positions(comps@, i as int),
            forall|j: int| 0 <= j < kept@.len() ==> #[trigger] kept@[j] < i,
        decreases comps@.len() - i,
    {
        let c = comps[i].duplicate();
        proof {
            lemma_eq_productive(c, comps@[i as int]);
        }
        if has_reachable_accepting_state(c) {
            kept.push(i);
        }
        assert(kept@.map_values(|k: usize| k as int) =~= productive_positions(comps@, i + 1));
        i += 1;
    }
    let ghost kp = productive_positions(comps@, comps@.len() as int);
    assert(kept@.len() == kp.len());
    assert(forall|j: int| 0 <= j < kept@.len() ==> kp[j] == #[trigger] kept@[j] as int);
    if kept.len() == 0 {
        return Err(CheckerError::Unspecified);
    }
    let mut res = comps[kept[0]].duplicate();
    let ghost mut chain: Seq<Automaton> = seq![res];
    assert(kp[0] == kept@[0] as int);
    assert(kept_size(comps@, kp, 1) == kept_size(comps@, kp, 0) + comps@[kp[0]].all_states.len());
    let mut j: usize = 1;
    while j < kept.len()
        invariant
            forall|m: int| 0 <= m < comps@.len() ==> (#[trigger] comps@[m]).wf(),
            forall|q: int| 0 <= q < kept@.len() ==> #[trigger] kept@[q] < comps@.len(),
            forall|q: int| 0 <= q < kept@.len() ==> kp[q] == #[trigger] kept@[q] as int,
            kept@.len() == kp.len(),
            kp == productive_positions(comps@, comps@.len() as int),
            1 <= j <= kept@.len(),
            res.wf(),
            chain.len() == j,
            chain.last() == res,
            automaton_eq(chain[0], comps@[kp[0]]),
            forall|q: int| 1 <= q < chain.len() ==> #[trigger] concat_link(comps@, kp, chain, q),
            res.all_states.len() == kept_size(comps@, kp, j as int),
        decreases kept@.len() - j,
    {
        let next = &comps[kept[j]];
        if res.all_states.len() > usize::MAX - next.all_states.len() {
            proof {
                assert(kp[j as int] == kept@[j as int] as int);
                assert(kept_size(comps@, kp, j + 1) == kept_size(comps@, kp, j as int) + comps@[kp[j as int]].all_states.len());
                assert(kept_size(comps@, kp, j + 1) > usize::MAX);
                lemma_kept_size_mono(comps@, kp, j + 1, kp.len() as int);
            }
            return Err(CheckerError::Unspecified);
        }
        let ghost before = chain;
        res = concat(&res, next);
        proof {
            assert(kp[j as int] == kept@[j as int] as int);
            assert(kept_size(comps@, kp, j + 1) == kept_size(comps@, kp, j as int) + comps@[kp[j as int]].all_states.len());
            chain = chain.push(res);
            assert(concat_link(comps@, kp, chain, j as int));
            assert forall|q: int| 1 <= q < chain.len() implies #[trigger] concat_link(comps@, kp, chain, q) by {
                if q < j {
                    assert(concat_link(comps@, kp, before, q));
                    assert(chain[q] == before[q] && chain[q - 1] == before[q - 1]);
                }
            }
        }
        j += 1;
    }
    proof {
        assert(concat_chain(comps@, kp, chain));
    }
    Ok(res)
}

/// The automaton `res` is `b` with its accepting and rejecting states swapped, with the name of
/// `b` followed by `_complement`.
pub open spec fn is_complement_of(res: Automaton, b: Automaton) -> bool {
    &&& res.name@ == b.name@ + "_complement"@
    &&& res.initial_state == b.initial_state
    &&& res.all_states.len() == b.all_states.len()
    &&& forall|i: int| #![trigger res.all_states[i]] 0 <= i < b.all_states.len() ==> {
        &&& res.all_states[i].id@ == b.all_states[i].id@
        &&& res.all_states[i].accept == !b.all_states[i].accept
        &&& res.all_states[i].transitions@ == b.all_states[i].transitions@
    }
}

/// Every regular-expression operator of the node has the arguments that its automaton reads, and
/// an automaton constant is well formed.
pub open spec fn regex_node_ok(t: Term) -> bool {
    match t {
        Term::Op(op, args) => {
            &&& (op == Operator::ReKleeneClosure || op == Operator::ReKleeneCross || op == Operator::ReComplement
                || op == Operator::StrToRe) ==> args@.len() >= 1
            &&& op == Operator::ReIntersection ==> args@.len() >= 2
        },
        Term::Const(Constant::RegLan(a)) => a.wf(),
        _ => true,
    }
}

/// Whether the automaton of an application of `op` is built from those of its arguments.
pub open spec fn builds_from_args(op: Operator) -> bool {
    ||| op == Operator::ReKleeneClosure
    ||| op == Operator::ReKleeneCross
    ||| op == Operator::ReComplement
    ||| op == Operator::ReConcat
    ||| op == Operator::ReUnion
    ||| op == Operator::ReIntersection
}

/// The regular expression `t`, and each regular expression under it whose automaton the
/// automaton of `t` is built from, satisfy `regex_node_ok`.
pub open spec fn regex_wf_at(pool: PrimitivePool, t: TermId) -> bool
    decreases t,
{
    &&& t < pool.size()
    &&& regex_node_ok(pool.node(t))
    &&& match pool.node(t) {
        Term::Op(op, args) => builds_from_args(op) ==> forall|k: int| #![trigger args@[k]]
            0 <= k < args@.len() ==> args@[k] < t && regex_wf_at(pool, args@[k]),
        _ => true,
    }
}

/// `regex_wf_at` stays true when the pool grows.
pub proof fn lemma_regex_wf_extends(p_new: PrimitivePool, p_old: PrimitivePool, t: TermId)
    requires
        extends(p_new, p_old),
        regex_wf_at(p_old, t),
    ensures
        regex_wf_at(p_new, t),
    decreases t,
{
    assert(p_new.node(t) == p_old.node(t));
    if let Term::Op(op, args) = p_old.node(t) {
        if builds_from_args(op) {
            assert forall|k: int| #![trigger args@[k]] 0 <= k < args@.len() implies args@[k] < t && regex_wf_at(p_new, args@[k]) by {
                lemma_regex_wf_extends(p_new, p_old, args@[k]);
            }
        }
    }
}


/// A bound on the number of states of the product of determinizations of the first `j` automata
/// of `v`: the product of the numbers of sets of states of each, plus one.
pub open spec fn size_bound(v: Seq<Automaton>, j: int) -> int
    decreases j,
{
    if j <= 0 {
        1
    } else {
        size_bound(v, j - 1) * (subsets_below(v[j - 1].all_states.len() as nat).len() + 1)
    }
}

proof fn lemma_size_bound_mono(v: Seq<Automaton>, i: int, j: int)
    requires
        0 <= i <= j,
    ensures
        1 <= size_bound(v, i) <= size_bound(v, j),
    decreases j,
{
    if j > 0 {
        if i == j {
            lemma_size_bound_mono(v, j - 1, j - 1);
        } else {
            lemma_size_bound_mono(v, i, j - 1);
        }
        let a = size_bound(v, j - 1);
        let b = subsets_below(v[j - 1].all_states.len() as nat).len() + 1;
        assert(1 <= a <= a * b) by (nonlinear_arith)
            requires
                a >= 1,
                b >= 1,
        ;
    }
}

/// A copy of a deterministic and complete automaton has no epsilon transition.
proof fn lemma_copy_of_dfa_no_eps(c: Automaton, d: Automaton)
    requires
        d.is_dfa(),
        automaton_eq(c, d),
    ensures
        no_eps(c),
{
    assert forall|s: int, j: int| 0 <= s < c.all_states.len() && 0 <= j < c.all_states[s].transitions.len()
        implies #[trigger] c.all_states[s].transitions@[j].trigger != Trigger::Epsilon by {
        assert(d.all_states[s].is_dfa_state());
        assert(c.all_states[s].transitions@ == d.all_states[s].transitions@);
        assert(d.all_states[s].transitions@[j].trigger != Trigger::Epsilon);
    }
}

/// The automata `v` are automata of the first `v.len()` regular expressions of `args`, all below
/// `t`.
pub open spec fn denote_all(pool: PrimitivePool, args: Seq<TermId>, t: TermId, v: Seq<Automaton>) -> bool {
    &&& v.len() <= args.len()
    &&& forall|k: int| #![trigger v[k]] 0 <= k < v.len() ==> args[k] < t && denotes(pool, args[k], v[k]) && v[k].wf()
}

/// Whether `Automaton::create_from_regex_operators` may fail on the regular expression `t`: a
/// `str.to_re` of a term that is not a string constant, a `re.range` without two non-empty string
/// constants, a term that is not a regular expression, a regular expression under `t` that
/// fails, or an automaton too large for a `usize` to count its states (for `re.inter`, whose
/// automata are made deterministic first, any automata of its arguments); or a concatenation
/// whose components leave none that accepts anything.
pub open spec fn regex_fails(pool: PrimitivePool, t: TermId) -> bool
    decreases t,
{
    match pool.node(t) {
        Term::Const(Constant::RegLan(_)) => false,
        Term::Op(op, args) => {
            if op == Operator::StrToRe {
                !(pool.node(args@[0]) matches Term::Const(Constant::String(_)))
            } else if op == Operator::ReAllChar || op == Operator::ReAll || op == Operator::ReNone {
                false
            } else if op == Operator::ReRange {
                range_bounds(pool, args@) is None
            } else if op == Operator::ReKleeneClosure || op == Operator::ReComplement || op == Operator::ReKleeneCross {
                args@.len() >= 1 && args@[0] < t && (regex_fails(pool, args@[0])
                    || (op != Operator::ReComplement && exists|b: Automaton| #![trigger b.wf()] denotes(pool, args@[0], b) && b.wf()
                        && b.all_states.len() == usize::MAX)
                    || (op == Operator::ReKleeneCross && exists|b: Automaton, k: Automaton| #![trigger is_kleene_of(k, b)]
                        denotes(pool, args@[0], b) && b.wf() && is_kleene_of(k, b) && concat_fails(seq![b, k])))
            } else if op == Operator::ReConcat || op == Operator::ReUnion || op == Operator::ReIntersection {
                ||| exists|k: int| #![trigger args@[k]] 0 <= k < args@.len() && args@[k] < t && regex_fails(pool, args@[k])
                ||| (op == Operator::ReConcat && exists|v: Seq<Automaton>| #![trigger concat_fails(v)]
                        denote_all(pool, args@, t, v) && v.len() == args@.len() && concat_fails(v))
                ||| (op == Operator::ReUnion && exists|v: Seq<Automaton>| #![trigger offset(v, v.len() as int)]
                        denote_all(pool, args@, t, v) && offset(v, v.len() as int) > usize::MAX)
                ||| (op == Operator::ReIntersection && exists|v: Seq<Automaton>| #![trigger size_bound(v, v.len() as int)]
                        denote_all(pool, args@, t, v) && v.len() == args@.len() && size_bound(v, v.len() as int) > usize::MAX)
            } else {
                true
            }
        },
        _ => true,
    }
}

/// The bounds of `(re.range s1 s2)`: the first characters of the string constants `s1` and `s2`,
/// as 16-bit symbols.
pub open spec fn range_bounds(pool: PrimitivePool, args: Seq<TermId>) -> Option<(u16, u16)> {
    if args.len() < 2 {
        None
    } else {
        match (pool.node(args[0]), pool.node(args[1])) {
            (Term::Const(Constant::String(s1)), Term::Const(Constant::String(s2))) =>
                if s1@.len() > 0 && s2@.len() > 0 { Some((s1@[0] as u16, s2@[0] as u16)) } else { None },
            _ => None,
        }
    }
}

/// What the automaton of the regular expression `t` is, or which error it gives, as far as the
/// operator at the root of `t` decides it.
pub open spec fn regex_shape(pool: PrimitivePool, t: TermId, res: Result<Automaton, CheckerError>) -> bool {
    match pool.node(t) {
        Term::Const(Constant::RegLan(b)) => res matches Ok(a) && automaton_eq(a, b),
        Term::Op(op, args) => {
            if op == Operator::StrToRe {
                match pool.node(args@[0]) {
                    Term::Const(Constant::String(s)) => res matches Ok(a) && is_str_to_re(a, s@),
                    _ => res == Err::<Automaton, CheckerError>(CheckerError::ExpectedStringConstantInsideStrToRe(args@[0])),
                }
            } else if op == Operator::ReAllChar {
                res matches Ok(a) && is_single_step(a, "re_allchar"@, 0, 0xffff)
            } else if op == Operator::ReAll {
                res matches Ok(a) && is_single_loop(a, "re_all"@, true)
            } else if op == Operator::ReNone {
                res matches Ok(a) && is_single_loop(a, "re_none"@, false)
            } else if op == Operator::ReRange {
                match range_bounds(pool, args@) {
                    Some((c1, c2)) => res matches Ok(a) && is_single_step(a, "re_range"@, c1, c2),
                    None => res == Err::<Automaton, CheckerError>(CheckerError::Unspecified),
                }
            } else if op == Operator::ReKleeneClosure {
                res matches Ok(a) ==> exists|b: Automaton| #[trigger] is_kleene_of(a, b) && b.wf()
            } else if op == Operator::ReComplement {
                res matches Ok(a) ==> exists|b: Automaton| #[trigger] is_complement_of(a, b) && b.wf() && (b.ranges_valid() ==> b.is_dfa())
            } else if op == Operator::ReConcat || op == Operator::ReKleeneCross {
                res matches Ok(a) ==> exists|comps: Seq<Automaton>| #[trigger] is_concat_of_components(a, comps)
                    && forall|m: int| 0 <= m < comps.len() ==> (#[trigger] comps[m]).wf()
            } else if op == Operator::ReUnion {
                res matches Ok(a) ==> exists|v: Seq<Automaton>| #[trigger] is_union_of(a, v) && v.len() == args@.len()
            } else if op == Operator::ReIntersection {
                res matches Ok(a) ==> exists|a1: Automaton, a2: Automaton, pairs: Seq<(StateId, StateId)>|
                    #[trigger] is_product(a, a1, a2, pairs)
            } else {
                res == Err::<Automaton, CheckerError>(CheckerError::UnexpectedTermOnAutomatonConversion(t))
            }
        },
        _ => res == Err::<Automaton, CheckerError>(CheckerError::UnexpectedTermOnAutomatonConversion(t)),
    }
}

/// `d` is an automaton that `Automaton::determinize` may give for `n`: a deterministic and
/// complete automaton that simulates `n` and accepts the same words of 16-bit symbols.
pub open spec fn determinization_of(d: Automaton, n: Automaton) -> bool {
    &&& d.wf()
    &&& d.ranges_valid()
    &&& d.is_dfa()
    &&& d.initial_state == 0
    &&& d.name@ == n.name@ + "_dfa"@
    &&& d.all_states.len() <= subsets_below(n.all_states.len() as nat).len() + 1
    &&& exists|sets: Seq<Set<StateId>>| simulates(n, d, sets)
    &&& forall|w: Seq<int>| symbols(w) ==> accepts_word(d, w) == accepts_word(n, w)
}

/// The `j`-th automaton of `chain` is the product of the one before and a copy of a
/// determinization of the `j`-th of `subs`.
pub open spec fn chain_link(subs: Seq<Automaton>, chain: Seq<Automaton>, j: int) -> bool {
    exists|d: Automaton, c: Automaton, pairs: Seq<(StateId, StateId)>| {
        &&& #[trigger] determinization_of(d, subs[j])
        &&& automaton_eq(c, d)
        &&& #[trigger] is_product(chain[j], chain[j - 1], c, pairs)
    }
}

/// `chain` is the chain of intersections of the automata `subs`: its first automaton is a copy of
/// a determinization of the first of `subs`, and each next one the product of the one before and
/// a copy of a determinization of the next of `subs`.
pub open spec fn intersection_chain(subs: Seq<Automaton>, chain: Seq<Automaton>) -> bool {
    &&& chain.len() == subs.len()
    &&& chain.len() >= 1
    &&& exists|d: Automaton| #[trigger] determinization_of(d, subs[0]) && automaton_eq(chain[0], d)
    &&& forall|j: int| 1 <= j < chain.len() ==> #[trigger] chain_link(subs, chain, j)
}

/// `a` is an automaton that `Automaton::create_from_regex_operators` builds for the regular
/// expression `t`, from automata that it builds for the arguments of `t`: a copy of an automaton
/// constant; the automata of the operators without regular-expression arguments (see
/// `regex_shape`); the Kleene closure of an automaton of the argument; the complement of it, or
/// of a determinization of it; the concatenation of automata of the arguments, or, for `re.+`,
/// of an automaton of the argument and its Kleene closure; the union of automata of the
/// arguments; and the chain of products of determinizations of automata of the arguments.
pub open spec fn denotes(pool: PrimitivePool, t: TermId, a: Automaton) -> bool
    decreases t,
{
    match pool.node(t) {
        Term::Const(Constant::RegLan(b)) => automaton_eq(a, b),
        Term::Op(op, args) => {
            if op == Operator::StrToRe || op == Operator::ReAllChar || op == Operator::ReAll || op == Operator::ReNone
                || op == Operator::ReRange {
                regex_shape(pool, t, Ok(a))
            } else if op == Operator::ReKleeneClosure {
                exists|b: Automaton| #![trigger is_kleene_of(a, b)]
                    args@.len() >= 1 && args@[0] < t && denotes(pool, args@[0], b) && b.wf() && is_kleene_of(a, b)
            } else if op == Operator::ReComplement {
                exists|b: Automaton, d: Automaton| #![trigger is_complement_of(a, d), b.wf()]
                    args@.len() >= 1 && args@[0] < t && denotes(pool, args@[0], b) && b.wf()
                    && (d == b || determinization_of(d, b)) && is_complement_of(a, d)
            } else if op == Operator::ReKleeneCross {
                exists|b: Automaton, k: Automaton| #![trigger is_kleene_of(k, b)]
                    args@.len() >= 1 && args@[0] < t && denotes(pool, args@[0], b) && b.wf()
                    && k.wf() && is_kleene_of(k, b) && is_concat_of_components(a, seq![b, k])
            } else if op == Operator::ReConcat {
                exists|comps: Seq<Automaton>| #![trigger is_concat_of_components(a, comps)]
                    comps.len() == args@.len() && (forall|i: int| #![trigger comps[i]] 0 <= i < args@.len()
                        ==> args@[i] < t && denotes(pool, args@[i], comps[i]) && comps[i].wf())
                    && is_concat_of_components(a, comps)
            } else if op == Operator::ReUnion {
                exists|v: Seq<Automaton>| #![trigger is_union_of(a, v)]
                    v.len() == args@.len() && (forall|i: int| #![trigger v[i]] 0 <= i < args@.len()
                        ==> args@[i] < t && denotes(pool, args@[i], v[i]) && v[i].wf())
                    && is_union_of(a, v)
            } else if op == Operator::ReIntersection {
                exists|subs: Seq<Automaton>, chain: Seq<Automaton>| #![trigger intersection_chain(subs, chain)]
                    subs.len() == args@.len() && (forall|i: int| #![trigger subs[i]] 0 <= i < args@.len()
                        ==> args@[i] < t && denotes(pool, args@[i], subs[i]) && subs[i].wf())
                    && intersection_chain(subs, chain) && a == chain.last()
            } else {
                false
            }
        },
        _ => false,
    }
}

/// The automata of a regular expression stay those of it in a pool that extends the pool.
pub proof fn lemma_denotes_extends(p_new: PrimitivePool, p_old: PrimitivePool, t: TermId)
    requires
        p_old.wf(),
        extends(p_new, p_old),
        regex_wf_at(p_old, t),
    ensures
        forall|a: Automaton| #[trigger] denotes(p_new, t, a) == denotes(p_old, t, a),
    decreases t,
{
    p_old.lemma_children_below(t);
    assert(p_new.node(t) == p_old.node(t));
    assert forall|c: TermId, x: Automaton| c < t && regex_wf_at(p_old, c) implies #[trigger] denotes(p_new, c, x) == denotes(p_old, c, x) by {
        lemma_denotes_extends(p_new, p_old, c);
    }
    assert forall|a: Automaton| #[trigger] denotes(p_new, t, a) == denotes(p_old, t, a) by {
        if let Term::Op(op, args) = p_old.node(t) {
            assert(crate::ast::pool::children(p_old.node(t)) == args@);
            if args@.len() >= 1 {
                assert(crate::ast::pool::children(p_old.node(t))[0] < t);
                assert(p_new.node(args@[0]) == p_old.node(args@[0]));
            }
            if args@.len() >= 2 {
                assert(crate::ast::pool::children(p_old.node(t))[1] < t);
                assert(p_new.node(args@[1]) == p_old.node(args@[1]));
            }
            if op == Operator::ReKleeneClosure {
                if denotes(p_new, t, a) {
                    let b = choose|b: Automaton| #![trigger is_kleene_of(a, b)]
                        args@.len() >= 1 && args@[0] < t && denotes(p_new, args@[0], b) && b.wf() && is_kleene_of(a, b);
                    assert(denotes(p_old, args@[0], b));
                    assert(denotes(p_old, t, a));
                }
                if denotes(p_old, t, a) {
                    let b = choose|b: Automaton| #![trigger is_kleene_of(a, b)]
                        args@.len() >= 1 && args@[0] < t && denotes(p_old, args@[0], b) && b.wf() && is_kleene_of(a, b);
                    assert(denotes(p_new, args@[0], b));
                    assert(denotes(p_new, t, a));
                }
            } else if op == Operator::ReComplement {
                if denotes(p_new, t, a) {
                    let (b, d) = choose|b: Automaton, d: Automaton| #![trigger is_complement_of(a, d), b.wf()]
                        args@.len() >= 1 && args@[0] < t && denotes(p_new, args@[0], b) && b.wf()
                        && (d == b || determinization_of(d, b)) && is_complement_of(a, d);
                    assert(denotes(p_old, args@[0], b));
                    assert(denotes(p_old, t, a));
                }
                if denotes(p_old, t, a) {
                    let (b, d) = choose|b: Automaton, d: Automaton| #![trigger is_complement_of(a, d), b.wf()]
                        args@.len() >= 1 && args@[0] < t && denotes(p_old, args@[0], b) && b.wf()
                        && (d == b || determinization_of(d, b)) && is_complement_of(a, d);
                    assert(denotes(p_new, args@[0], b));
                    assert(denotes(p_new, t, a));
                }
            } else if op == Operator::ReKleeneCross {
                if denotes(p_new, t, a) {
                    let (b, k) = choose|b: Automaton, k: Automaton| #![trigger is_kleene_of(k, b)]
                        args@.len() >= 1 && args@[0] < t && denotes(p_new, args@[0], b) && b.wf()
                        && k.wf() && is_kleene_of(k, b) && is_concat_of_components(a, seq![b, k]);
                    assert(denotes(p_old, args@[0], b));
                    assert(denotes(p_old, t, a));
                }
                if denotes(p_old, t, a) {
                    let (b, k) = choose|b: Automaton, k: Automaton| #![trigger is_kleene_of(k, b)]
                        args@.len() >= 1 && args@[0] < t && denotes(p_old, args@[0], b) && b.wf()
                        && k.wf() && is_kleene_of(k, b) && is_concat_of_components(a, seq![b, k]);
                    assert(denotes(p_new, args@[0], b));
                    assert(denotes(p_new, t, a));
                }
            } else if op == Operator::ReConcat {
                if denotes(p_new, t, a) {
                    let comps = choose|comps: Seq<Automaton>| #![trigger is_concat_of_components(a, comps)]
                        comps.len() == args@.len() && (forall|i: int| #![trigger comps[i]] 0 <= i < args@.len()
                            ==> args@[i] < t && denotes(p_new, args@[i], comps[i]) && comps[i].wf())
                        && is_concat_of_components(a, comps);
                    assert forall|i: int| #![trigger comps[i]] 0 <= i < args@.len()
                        implies args@[i] < t && denotes(p_old, args@[i], comps[i]) && comps[i].wf() by {
                        assert(denotes(p_new, args@[i], comps[i]));
                    }
                    assert(denotes(p_old, t, a));
                }
                if denotes(p_old, t, a) {
                    let comps = choose|comps: Seq<Automaton>| #![trigger is_concat_of_components(a, comps)]
                        comps.len() == args@.len() && (forall|i: int| #![trigger comps[i]] 0 <= i < args@.len()
                            ==> args@[i] < t && denotes(p_old, args@[i], comps[i]) && comps[i].wf())
                        && is_concat_of_components(a, comps);
                    assert forall|i: int| #![trigger comps[i]] 0 <= i < args@.len()
                        implies args@[i] < t && denotes(p_new, args@[i], comps[i]) && comps[i].wf() by {
                        assert(denotes(p_old, args@[i], comps[i]));
                    }
                    assert(denotes(p_new, t, a));
                }
            } else if op == Operator::ReUnion {
                if denotes(p_new, t, a) {
                    let v = choose|v: Seq<Automaton>| #![trigger is_union_of(a, v)]
                        v.len() == args@.len() && (forall|i: int| #![trigger v[i]] 0 <= i < args@.len()
                            ==> args@[i] < t && denotes(p_new, args@[i], v[i]) && v[i].wf())
                        && is_union_of(a, v);
                    assert forall|i: int| #![trigger v[i]] 0 <= i < args@.len()
                        implies args@[i] < t && denotes(p_old, args@[i], v[i]) && v[i].wf() by {
                        assert(denotes(p_new, args@[i], v[i]));
                    }
                    assert(denotes(p_old, t, a));
                }
                if denotes(p_old, t, a) {
                    let v = choose|v: Seq<Automaton>| #![trigger is_union_of(a, v)]
                        v.len() == args@.len() && (forall|i: int| #![trigger v[i]] 0 <= i < args@.len()
                            ==> args@[i] < t && denotes(p_old, args@[i], v[i]) && v[i].wf())
                        && is_union_of(a, v);
                    assert forall|i: int| #![trigger v[i]] 0 <= i < args@.len()
                        implies args@[i] < t && denotes(p_new, args@[i], v[i]) && v[i].wf() by {
                        assert(denotes(p_old, args@[i], v[i]));
                    }
                    assert(denotes(p_new, t, a));
                }
            } else if op == Operator::StrToRe || op == Operator::ReAllChar || op == Operator::ReAll || op == Operator::ReNone
                || op == Operator::ReRange {
                assert(regex_shape(p_new, t, Ok(a)) == regex_shape(p_old, t, Ok(a)));
            } else {
                if denotes(p_new, t, a) {
                    let (subs, chain) = choose|subs: Seq<Automaton>, chain: Seq<Automaton>| #![trigger intersection_chain(subs, chain)]
                        subs.len() == args@.len() && (forall|i: int| #![trigger subs[i]] 0 <= i < args@.len()
                            ==> args@[i] < t && denotes(p_new, args@[i], subs[i]) && subs[i].wf())
                        && intersection_chain(subs, chain) && a == chain.last();
                    assert forall|i: int| #![trigger subs[i]] 0 <= i < args@.len()
                        implies args@[i] < t && denotes(p_old, args@[i], subs[i]) && subs[i].wf() by {
                        assert(denotes(p_new, args@[i], subs[i]));
                    }
                    assert(denotes(p_old, t, a));
                }
                if denotes(p_old, t, a) {
                    let (subs, chain) = choose|subs: Seq<Automaton>, chain: Seq<Automaton>| #![trigger intersection_chain(subs, chain)]
                        subs.len() == args@.len() && (forall|i: int| #![trigger subs[i]] 0 <= i < args@.len()
                            ==> args@[i] < t && denotes(p_old, args@[i], subs[i]) && subs[i].wf())
                        && intersection_chain(subs, chain) && a == chain.last();
                    assert forall|i: int| #![trigger subs[i]] 0 <= i < args@.len()
                        implies args@[i] < t && denotes(p_new, args@[i], subs[i]) && subs[i].wf() by {
                        assert(denotes(p_old, args@[i], subs[i]));
                    }
                    assert(denotes(p_new, t, a));
                }
            }
        }
    }
}

/// Whether a regular expression may fail stays the same when the pool grows.
pub proof fn lemma_fails_extends(p_new: PrimitivePool, p_old: PrimitivePool, t: TermId)
    requires
        p_old.wf(),
        extends(p_new, p_old),
        regex_wf_at(p_old, t),
    ensures
        regex_fails(p_new, t) == regex_fails(p_old, t),
    decreases t,
{
    p_old.lemma_children_below(t);
    assert(p_new.node(t) == p_old.node(t));
    assert forall|c: TermId, x: Automaton| c < t && regex_wf_at(p_old, c) implies #[trigger] denotes(p_new, c, x) == denotes(p_old, c, x) by {
        lemma_denotes_extends(p_new, p_old, c);
    }
    assert forall|c: TermId| c < t && regex_wf_at(p_old, c) implies #[trigger] regex_fails(p_new, c) == regex_fails(p_old, c) by {
        lemma_fails_extends(p_new, p_old, c);
    }
    if let Term::Op(op, args) = p_old.node(t) {
        assert(crate::ast::pool::children(p_old.node(t)) == args@);
        if args@.len() >= 1 {
            assert(crate::ast::pool::children(p_old.node(t))[0] < t);
            assert(p_new.node(args@[0]) == p_old.node(args@[0]));
        }
        if args@.len() >= 2 {
            assert(crate::ast::pool::children(p_old.node(t))[1] < t);
            assert(p_new.node(args@[1]) == p_old.node(args@[1]));
        }
        if builds_from_args(op) {
        assert forall|k: int| #![trigger args@[k]] 0 <= k < args@.len() implies regex_fails(p_new, args@[k]) == regex_fails(p_old, args@[k])
            && forall|x: Automaton| #[trigger] denotes(p_new, args@[k], x) == denotes(p_old, args@[k], x) by {
            assert(regex_wf_at(p_old, args@[k]));
            lemma_denotes_extends(p_new, p_old, args@[k]);
        }
        assert forall|v: Seq<Automaton>| #![trigger denote_all(p_new, args@, t, v)] #![trigger denote_all(p_old, args@, t, v)] denote_all(p_new, args@, t, v) == denote_all(p_old, args@, t, v) by {
            if denote_all(p_new, args@, t, v) {
                assert forall|k: int| #![trigger v[k]] 0 <= k < v.len() implies args@[k] < t && denotes(p_old, args@[k], v[k]) && v[k].wf() by {
                    assert(regex_wf_at(p_old, args@[k]));
                    assert(denotes(p_new, args@[k], v[k]));
                }
            }
            if denote_all(p_old, args@, t, v) {
                assert forall|k: int| #![trigger v[k]] 0 <= k < v.len() implies args@[k] < t && denotes(p_new, args@[k], v[k]) && v[k].wf() by {
                    assert(regex_wf_at(p_old, args@[k]));
                    assert(denotes(p_old, args@[k], v[k]));
                }
            }
        }
        }
        assert(range_bounds(p_new, args@) == range_bounds(p_old, args@));
        if op == Operator::ReKleeneClosure || op == Operator::ReComplement || op == Operator::ReKleeneCross {
            let a0 = args@[0];
            assert(regex_fails(p_new, a0) == regex_fails(p_old, a0));
            assert forall|b: Automaton| #[trigger] b.wf() implies denotes(p_new, a0, b) == denotes(p_old, a0, b) by {
                assert(denotes(p_new, args@[0], b) == denotes(p_old, args@[0], b));
            }
            assert forall|b: Automaton, k: Automaton| #[trigger] is_kleene_of(k, b) implies denotes(p_new, a0, b) == denotes(p_old, a0, b) by {
                assert(denotes(p_new, args@[0], b) == denotes(p_old, args@[0], b));
            }
            assert(regex_fails(p_new, t) == regex_fails(p_old, t));
        } else if op == Operator::ReConcat || op == Operator::ReUnion || op == Operator::ReIntersection {
            assert((exists|k: int| #![trigger args@[k]] 0 <= k < args@.len() && args@[k] < t && regex_fails(p_new, args@[k]))
                == (exists|k: int| #![trigger args@[k]] 0 <= k < args@.len() && args@[k] < t && regex_fails(p_old, args@[k])));
            assert((exists|v: Seq<Automaton>| #![trigger concat_fails(v)] denote_all(p_new, args@, t, v) && v.len() == args@.len() && concat_fails(v))
                == (exists|v: Seq<Automaton>| #![trigger concat_fails(v)] denote_all(p_old, args@, t, v) && v.len() == args@.len() && concat_fails(v)));
            assert((exists|v: Seq<Automaton>| #![trigger offset(v, v.len() as int)] denote_all(p_new, args@, t, v) && offset(v, v.len() as int) > usize::MAX)
                == (exists|v: Seq<Automaton>| #![trigger offset(v, v.len() as int)] denote_all(p_old, args@, t, v) && offset(v, v.len() as int) > usize::MAX));
            assert((exists|v: Seq<Automaton>| #![trigger size_bound(v, v.len() as int)] denote_all(p_new, args@, t, v) && v.len() == args@.len() && size_bound(v, v.len() as int) > usize::MAX)
                == (exists|v: Seq<Automaton>| #![trigger size_bound(v, v.len() as int)] denote_all(p_old, args@, t, v) && v.len() == args@.len() && size_bound(v, v.len() as int) > usize::MAX));
            assert(regex_fails(p_new, t) == regex_fails(p_old, t));
        } else if op == Operator::StrToRe {
            assert(regex_fails(p_new, t) == regex_fails(p_old, t));
        } else {
            assert(regex_fails(p_new, t) == regex_fails(p_old, t));
        }
    }
}

/// The arguments of an operator, copied.
fn copy_ids(v: &Vec<TermId>) -> (r: Vec<TermId>)
    ensures
        r@ == v@,
{
    let mut r: Vec<TermId> = Vec::new();
    let mut i: usize = 0;
    while i < v.len()
        invariant
            i <= v@.len(),
            r@ == v@.take(i as int),
        decreases v@.len() - i,
    {
        r.push(v[i]);
        assert(v@.take(i + 1) =~= v@.take(i as int).push(v@[i as int]));
        i += 1;
    }
    assert(v@.take(v@.len() as int) =~= v@);
    r
}

impl Automaton {
    /// Builds an automaton that recognizes the regular expression `t`, operator by operator.
    ///
    /// `(re.+ r)` is handled as `(re.++ r (re.* r))`, whose terms are added to the pool. The
    /// automaton of a complement is made deterministic before its states are swapped, and those of
    /// an intersection are made deterministic before their product is taken.
    #[verifier::loop_isolation(false)]
    pub fn create_from_regex_operators(pool: &mut PrimitivePool, t: TermId) -> (res: Result<Automaton, CheckerError>)
        requires
            old(pool).wf(),
            regex_wf_at(*old(pool), t),
        ensures
            final(pool).wf(),
            extends(*final(pool), *old(pool)),
            res matches Ok(a) ==> a.wf() && denotes(*old(pool), t, a),
            res is Err ==> regex_fails(*old(pool), t),
            regex_shape(*old(pool), t, res),
        decreases t,
    {
        let ghost p0 = *pool;
        proof {
            pool.lemma_children_below(t);
        }
        let (op, args) = match pool.get(t) {
            Term::Op(op, args) => (*op, copy_ids(args)),
            Term::Const(Constant::RegLan(a)) => {
                assert(regex_node_ok(pool.node(t)));
                let c = a.duplicate();
                assert(denotes(p0, t, c));
                return Ok(c);
            },
            _ => {
                return Err(CheckerError::UnexpectedTermOnAutomatonConversion(t));
            },
        };
        assert(pool.node(t) matches Term::Op(o, a) && o == op && a@ == args@);
        assert(forall|k: int| 0 <= k < args@.len() ==> #[trigger] args@[k] < t) by {
            assert(crate::ast::pool::children(pool.node(t)) == args@);
        }
        assert(regex_node_ok(pool.node(t)));
        assert(builds_from_args(op) ==> forall|k: int| 0 <= k < args@.len() ==> #[trigger] regex_wf_at(p0, args@[k]));
        match op {
            Operator::StrToRe => {
                match pool.get(args[0]) {
                    Term::Const(Constant::String(s)) => Ok(str_to_re(s.as_str())),
                    _ => Err(CheckerError::ExpectedStringConstantInsideStrToRe(args[0])),
                }
            },
            Operator::ReAllChar => Ok(re_allchar()),
            Operator::ReAll => Ok(re_all()),
            Operator::ReNone => Ok(re_none()),
            Operator::ReRange => {
                if args.len() < 2 {
                    return Err(CheckerError::Unspecified);
                }
                let c1 = match pool.get(args[0]) {
                    Term::Const(Constant::String(s1)) => {
                        if s1.as_str().unicode_len() == 0 {
                            return Err(CheckerError::Unspecified);
                        }
                        s1.as_str().get_char(0) as u16
                    },
                    _ => {
                        return Err(CheckerError::Unspecified);
                    },
                };
                let c2 = match pool.get(args[1]) {
                    Term::Const(Constant::String(s2)) => {
                        if s2.as_str().unicode_len() == 0 {
                            return Err(CheckerError::Unspecified);
                        }
                        s2.as_str().get_char(0) as u16
                    },
                    _ => {
                        return Err(CheckerError::Unspecified);
                    },
                };
                Ok(re_range(c1, c2))
            },
            Operator::ReKleeneClosure => {
                let a = match Self::create_from_regex_operators(pool, args[0]) {
                    Ok(a) => a,
                    Err(e) => {
                        return Err(e);
                    },
                };
                if a.all_states.len() == usize::MAX {
                    assert(a.wf());
                    return Err(CheckerError::Unspecified);
                }
                let k = kleene_closure(&a);
                assert(denotes(p0, t, k));
                Ok(k)
            },
            Operator::ReComplement => {
                let a = match Self::create_from_regex_operators(pool, args[0]) {
                    Ok(a) => a,
                    Err(e) => {
                        return Err(e);
                    },
                };
                let ghost a0 = a;
                let dfa = if a.is_nfa() {
                    let d = Automaton::determinize(&a);
                    assert(determinization_of(d, a0));
                    d
                } else {
                    a
                };
                let c = dfa.complement();
                assert(is_complement_of(c, dfa));
                assert(a0.wf());
                assert(denotes(p0, t, c));
                Ok(c)
            },
            Operator::ReKleeneCross => {
                let r = args[0];
                let ghost p1 = *pool;
                let kc = pool.add_op1(Operator::ReKleeneClosure, r);
                let ghost p2 = *pool;
                let equiv = pool.add_op2(Operator::ReConcat, r, kc);
                let ghost p3 = *pool;
                proof {
                    crate::ast::pool::lemma_extends_trans(*pool, p2, p1);
                    lemma_regex_wf_extends(p3, p0, r);
                }
                let a = match Self::create_from_regex_operators(pool, r) {
                    Ok(a) => a,
                    Err(e) => {
                        proof {
                            lemma_fails_extends(p3, p0, r);
                        }
                        return Err(e);
                    },
                };
                proof {
                    lemma_denotes_extends(p3, p0, r);
                    crate::ast::pool::lemma_extends_trans(*pool, p3, p0);
                }
                if a.all_states.len() == usize::MAX {
                    assert(a.wf() && denotes(p0, r, a));
                    return Err(CheckerError::Unspecified);
                }
                let k = kleene_closure(&a);
                let ghost (a0, k0) = (a, k);
                let mut comps: Vec<Automaton> = Vec::new();
                comps.push(a);
                comps.push(k);
                assert(comps@ =~= seq![a0, k0]);
                let res = concat_components(&comps);
                proof {
                    assert(is_kleene_of(k0, a0));
                    if res is Ok {
                        assert(denotes(p0, t, res->Ok_0));
                    } else {
                        assert(concat_fails(seq![a0, k0]));
                        assert(regex_fails(p0, t));
                    }
                }
                res
            },
            Operator::ReConcat => {
                let mut comps: Vec<Automaton> = Vec::new();
                let mut i: usize = 0;
                while i < args.len()
                    invariant
                        pool.wf(),
                        extends(*pool, p0),
                        p0.wf(),
                        i <= args@.len(),
                        forall|k: int| 0 <= k < args@.len() ==> #[trigger] args@[k] < t,
                        forall|k: int| 0 <= k < args@.len() ==> #[trigger] regex_wf_at(p0, args@[k]),
                        t < p0.size(),
                        comps@.len() == i,
                        forall|m: int| 0 <= m < comps@.len() ==> (#[trigger] comps@[m]).wf()
                            && denotes(p0, args@[m], comps@[m]),
                    decreases args@.len() - i,
                {
                    let ghost pb = *pool;
                    proof {
                        lemma_regex_wf_extends(pb, p0, args@[i as int]);
                    }
                    let r = Self::create_from_regex_operators(pool, args[i]);
                    proof {
                        crate::ast::pool::lemma_extends_trans(*pool, pb, p0);
                        lemma_denotes_extends(pb, p0, args@[i as int]);
                        lemma_fails_extends(pb, p0, args@[i as int]);
                    }
                    let a = match r {
                        Ok(a) => a,
                        Err(e) => {
                            assert(regex_fails(p0, args@[i as int]));
                            return Err(e);
                        },
                    };
                    comps.push(a);
                    i += 1;
                }
                let res = concat_components(&comps);
                proof {
                    assert(denote_all(p0, args@, t, comps@));
                    if res is Ok {
                        assert(denotes(p0, t, res->Ok_0));
                    } else {
                        assert(concat_fails(comps@));
                    }
                }
                res
            },
            Operator::ReUnion => {
                let mut comps: Vec<Automaton> = Vec::new();
                let mut i: usize = 0;
                while i < args.len()
                    invariant
                        pool.wf(),
                        extends(*pool, p0),
                        p0.wf(),
                        i <= args@.len(),
                        forall|k: int| 0 <= k < args@.len() ==> #[trigger] args@[k] < t,
                        forall|k: int| 0 <= k < args@.len() ==> #[trigger] regex_wf_at(p0, args@[k]),
                        t < p0.size(),
                        comps@.len() == i,
                        forall|m: int| 0 <= m < comps@.len() ==> (#[trigger] comps@[m]).wf()
                            && denotes(p0, args@[m], comps@[m]),
                        offset(comps@, i as int) <= usize::MAX,
                    decreases args@.len() - i,
                {
                    let ghost pb = *pool;
                    proof {
                        lemma_regex_wf_extends(pb, p0, args@[i as int]);
                    }
                    let r = Self::create_from_regex_operators(pool, args[i]);
                    proof {
                        crate::ast::pool::lemma_extends_trans(*pool, pb, p0);
                        lemma_denotes_extends(pb, p0, args@[i as int]);
                        lemma_fails_extends(pb, p0, args@[i as int]);
                    }
                    let a = match r {
                        Ok(a) => a,
                        Err(e) => {
                            assert(regex_fails(p0, args@[i as int]));
                            return Err(e);
                        },
                    };
                    let total = union_size(&comps);
                    let ghost before = comps@;
                    let ghost v = before.push(a);
                    proof {
                        lemma_offset_prefix(before, v, i as int);
                        assert(offset(v, i + 1) == offset(v, i as int) + a.all_states.len());
                        assert(denote_all(p0, args@, t, v));
                    }
                    if a.all_states.len() > usize::MAX - total {
                        assert(offset(v, v.len() as int) > usize::MAX);
                        return Err(CheckerError::Unspecified);
                    }
                    comps.push(a);
                    proof {
                        lemma_offset_prefix(before, comps@, i as int);
                    }
                    i += 1;
                }
                let u = union(&comps);
                assert(denotes(p0, t, u));
                Ok(u)
            },
            Operator::ReIntersection => {
                let mut comps: Vec<Automaton> = Vec::new();
                let ghost mut subs: Seq<Automaton> = Seq::empty();
                let mut i: usize = 0;
                while i < args.len()
                    invariant
                        pool.wf(),
                        extends(*pool, p0),
                        i <= args@.len(),
                        forall|k: int| 0 <= k < args@.len() ==> #[trigger] args@[k] < t,
                        t < p0.size(),
                        comps@.len() == i,
                        subs.len() == i,
                        p0.wf(),
                        forall|k: int| 0 <= k < args@.len() ==> #[trigger] regex_wf_at(p0, args@[k]),
                        forall|m: int| 0 <= m < comps@.len() ==> (#[trigger] comps@[m]).wf(),
                        forall|m: int| 0 <= m < subs.len() ==> (#[trigger] subs[m]).wf()
                            && denotes(p0, args@[m], subs[m]) && determinization_of(comps@[m], subs[m]),
                    decreases args@.len() - i,
                {
                    let ghost pb = *pool;
                    proof {
                        lemma_regex_wf_extends(pb, p0, args@[i as int]);
                    }
                    let r = Self::create_from_regex_operators(pool, args[i]);
                    proof {
                        crate::ast::pool::lemma_extends_trans(*pool, pb, p0);
                        lemma_denotes_extends(pb, p0, args@[i as int]);
                        lemma_fails_extends(pb, p0, args@[i as int]);
                    }
                    let nfa = match r {
                        Ok(a) => a,
                        Err(e) => {
                            assert(regex_fails(p0, args@[i as int]));
                            return Err(e);
                        },
                    };
                    let d = Automaton::determinize(&nfa);
                    assert(determinization_of(d, nfa));
                    comps.push(d);
                    proof {
                        subs = subs.push(nfa);
                    }
                    i += 1;
                }
                proof {
                    assert forall|k: int| #![trigger subs[k]] 0 <= k < subs.len() implies args@[k] < t && denotes(p0, args@[k], subs[k]) && subs[k].wf() by {
                    }
                    assert(denote_all(p0, args@, t, subs));
                }
                let mut res = comps[0].duplicate();
                let mut j: usize = 1;
                let ghost mut chain: Seq<Automaton> = seq![res];
                proof {
                    assert(determinization_of(comps@[0], subs[0]));
                    lemma_copy_of_dfa_no_eps(res, comps@[0]);
                    assert(size_bound(subs, 1) == size_bound(subs, 0) * (subsets_below(subs[0].all_states.len() as nat).len() + 1));
                    lemma_size_bound_mono(subs, 0, 0);
                }
                while j < comps.len()
                    invariant
                        no_eps(res),
                        res.all_states.len() <= size_bound(subs, j as int),
                        denote_all(p0, args@, t, subs),
                        subs.len() == args@.len(),
                        pool.wf(),
                        extends(*pool, p0),
                        1 <= j <= comps@.len(),
                        comps@.len() >= 2,
                        comps@.len() == subs.len(),
                        forall|m: int| 0 <= m < comps@.len() ==> (#[trigger] comps@[m]).wf(),
                        forall|m: int| 0 <= m < subs.len() ==> (#[trigger] subs[m]).wf()
                            && denotes(p0, args@[m], subs[m]) && determinization_of(comps@[m], subs[m]),
                        res.wf(),
                        chain.len() == j,
                        chain.last() == res,
                        automaton_eq(chain[0], comps@[0]),
                        forall|jj: int| 1 <= jj < chain.len() ==> #[trigger] chain_link(subs, chain, jj),
                    decreases comps@.len() - j,
                {
                    let c = comps[j].duplicate();
                    proof {
                        assert(determinization_of(comps@[j as int], subs[j as int]));
                        lemma_copy_of_dfa_no_eps(c, comps@[j as int]);
                        assert(size_bound(subs, j + 1) == size_bound(subs, j as int)
                            * (subsets_below(subs[j as int].all_states.len() as nat).len() + 1));
                        let x = res.all_states.len() as int;
                        let y = c.all_states.len() as int;
                        let bx = size_bound(subs, j as int);
                        let by_ = subsets_below(subs[j as int].all_states.len() as nat).len() + 1;
                        assert(x * y <= bx * by_) by (nonlinear_arith)
                            requires
                                0 <= x <= bx,
                                0 <= y <= by_,
                        ;
                    }
                    if res.all_states.len() != 0 && c.all_states.len() > usize::MAX / res.all_states.len() {
                        proof {
                            let x = res.all_states.len() as int;
                            let y = c.all_states.len() as int;
                            assert(x * y > usize::MAX) by (nonlinear_arith)
                                requires
                                    x > 0,
                                    y > (usize::MAX as int) / x,
                            ;
                            lemma_size_bound_mono(subs, j + 1, subs.len() as int);
                            assert(size_bound(subs, subs.len() as int) > usize::MAX);
                        }
                        return Err(CheckerError::Unspecified);
                    }
                    proof {
                        assert(c.wf());
                        assert(res.all_states.len() * c.all_states.len() <= usize::MAX) by (nonlinear_arith)
                            requires
                                res.all_states.len() == 0 || c.all_states.len() <= usize::MAX / res.all_states.len(),
                        ;
                    }
                    let ghost r0 = res;
                    let ghost c0 = c;
                    res = match intersection(res, c) {
                        Ok(x) => x,
                        Err(e) => {
                            return Err(e);
                        },
                    };
                    proof {
                        let pairs = choose|pairs: Seq<(StateId, StateId)>| #[trigger] is_product(res, r0, c0, pairs);
                        lemma_product_no_eps(res, r0, c0, pairs);
                        assert(is_product(res, r0, c0, pairs));
                        assert forall|k: int| 0 <= k < pairs.len() implies (#[trigger] pairs[k]).0 < r0.all_states.len() && pairs[k].1 < c0.all_states.len() by {
                            assert(0 <= k < res.all_states.len());
                            assert(res.all_states[k].accept == (r0.all_states[pairs[k].0 as int].accept && c0.all_states[pairs[k].1 as int].accept));
                        }
                        lemma_pairs_bound(pairs, r0.all_states.len() as int, c0.all_states.len() as int);
                        let old_chain = chain;
                        chain = chain.push(res);
                        assert(determinization_of(comps@[j as int], subs[j as int]));
                        assert(is_product(chain[j as int], chain[j - 1], c0, pairs));
                        assert(chain_link(subs, chain, j as int));
                        assert forall|jj: int| 1 <= jj < chain.len() implies #[trigger] chain_link(subs, chain, jj) by {
                            if jj < j {
                                assert(chain_link(subs, old_chain, jj));
                                let (d, c1, pr) = choose|d: Automaton, c1: Automaton, pr: Seq<(StateId, StateId)>| {
                                    &&& #[trigger] determinization_of(d, subs[jj])
                                    &&& automaton_eq(c1, d)
                                    &&& #[trigger] is_product(old_chain[jj], old_chain[jj - 1], c1, pr)
                                };
                                assert(chain[jj] == old_chain[jj] && chain[jj - 1] == old_chain[jj - 1]);
                                assert(is_product(chain[jj], chain[jj - 1], c1, pr));
                            }
                        }
                    }
                    j += 1;
                }
                proof {
                    assert(intersection_chain(subs, chain));
                    assert(denotes(p0, t, res));
                    let n = chain.len() - 1;
                    assert(chain_link(subs, chain, n));
                    let (d, c1, pr) = choose|d: Automaton, c1: Automaton, pr: Seq<(StateId, StateId)>| {
                        &&& #[trigger] determinization_of(d, subs[n])
                        &&& automaton_eq(c1, d)
                        &&& #[trigger] is_product(chain[n], chain[n - 1], c1, pr)
                    };
                    assert(is_product(res, chain[n - 1], c1, pr));
                }
                Ok(res)
            },
            _ => Err(CheckerError::UnexpectedTermOnAutomatonConversion(t)),
        }
    }
}

/// The number of states of the union of the automata `v`: one more than theirs together.
fn union_size(v: &Vec<Automaton>) -> (n: usize)
    requires
        offset(v@, v@.len() as int) <= usize::MAX,
    ensures
        n == offset(v@, v@.len() as int),
{
    let mut n: usize = 1;
    let mut i: usize = 0;
    while i < v.len()
        invariant
            i <= v@.len(),
            offset(v@, v@.len() as int) <= usize::MAX,
            n == offset(v@, i as int),
        decreases v@.len() - i,
    {
        proof {
            lemma_offset_mono(v@, i + 1, v@.len() as int);
        }
        n = n + v[i].all_states.len();
        i += 1;
    }
    n
}

/// Offsets do not decrease.
pub(crate) proof fn lemma_offset_mono(v: Seq<Automaton>, i: int, j: int)
    requires
        0 <= i <= j <= v.len(),
    ensures
        offset(v, i) <= offset(v, j),
    decreases j - i,
{
    if i < j {
        lemma_offset_mono(v, i, j - 1);
    }
}

/// The offsets of a list are those of a longer list that starts with it.
proof fn lemma_offset_prefix(small: Seq<Automaton>, big: Seq<Automaton>, i: int)
    requires
        0 <= i <= small.len() <= big.len(),
        forall|k: int| 0 <= k < small.len() ==> #[trigger] big[k] == small[k],
    ensures
        offset(small, i) == offset(big, i),
    decreases i,
{
    if i > 0 {
        lemma_offset_prefix(small, big, i - 1);
    }
}

} // verus!
