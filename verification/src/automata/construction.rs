//! Building an automaton from a list of named transitions.

use vstd::prelude::*;

use crate::automata::{insert_transition, Automaton, State, StateId, Transition, Trigger};

verus! {

/// The names `n`, with `x` added at the end unless it is already there.
pub open spec fn add_name(n: Seq<Seq<char>>, x: Seq<char>) -> Seq<Seq<char>> {
    if n.contains(x) {
        n
    } else {
        n.push(x)
    }
}

/// The names of the states of an automaton built from the initial state `init` and the
/// transitions `ts`, in the order in which they first occur.
pub open spec fn names_of(init: Seq<char>, ts: Seq<(&str, &str, (u16, u16))>) -> Seq<Seq<char>>
    decreases ts.len(),
{
    if ts.len() == 0 {
        seq![init]
    } else {
        let n = names_of(init, ts.drop_last());
        add_name(add_name(n, ts.last().0@), ts.last().1@)
    }
}

/// The text of each string of `v`.
pub open spec fn texts(v: Seq<String>) -> Seq<Seq<char>> {
    v.map_values(|s: String| s@)
}

/// `x` is one of the names of `names`.
pub open spec fn lists(names: Seq<&str>, x: Seq<char>) -> bool {
    exists|i: int| 0 <= i < names.len() && #[trigger] names[i]@ == x
}

/// One of the transitions `ts` leads from the state named `names[k]` to the state `u.to`, named
/// `names[u.to]`, with the range of `u`.
pub open spec fn listed_transition(ts: Seq<(&str, &str, (u16, u16))>, names: Seq<Seq<char>>, k: int, u: Transition) -> bool {
    exists|m: int| {
        &&& 0 <= m < ts.len()
        &&& #[trigger] ts[m].0@ == names[k]
        &&& u.to < names.len()
        &&& names[u.to as int] == ts[m].1@
        &&& u.trigger == Trigger::Range(ts[m].2.0, ts[m].2.1)
    }
}

proof fn lemma_add_name(n: Seq<Seq<char>>, x: Seq<char>)
    requires
        n.no_duplicates(),
    ensures
        add_name(n, x).no_duplicates(),
        add_name(n, x).contains(x),
        n.len() <= add_name(n, x).len() <= n.len() + 1,
        forall|k: int| 0 <= k < n.len() ==> #[trigger] add_name(n, x)[k] == n[k],
        forall|y: Seq<char>| #[trigger] add_name(n, x).contains(y) <==> (n.contains(y) || y == x),
{
    if !n.contains(x) {
        let m = n.push(x);
        assert(m[n.len() as int] == x);
        assert forall|y: Seq<char>| #[trigger] m.contains(y) <==> (n.contains(y) || y == x) by {
            if m.contains(y) {
                let k = choose|k: int| 0 <= k < m.len() && m[k] == y;
                if k < n.len() {
                    assert(n[k] == y);
                }
            }
            if n.contains(y) {
                let k = choose|k: int| 0 <= k < n.len() && n[k] == y;
                assert(m[k] == y);
            }
        }
    }
}

/// Whether `accepting` lists the name `x`.
fn is_listed(accepting: &Vec<&str>, x: &str) -> (res: bool)
    ensures
        res == lists(accepting@, x@),
{
    let xs = x.to_owned();
    let mut i: usize = 0;
    while i < accepting.len()
        invariant
            i <= accepting@.len(),
            xs@ == x@,
            forall|j: int| 0 <= j < i ==> #[trigger] accepting@[j]@ != x@,
        decreases accepting@.len() - i,
    {
        let a = accepting[i].to_owned();
        if a.eq(&xs) {
            assert(accepting@[i as int]@ == x@);
            return true;
        }
        i += 1;
    }
    false
}

/// The index of the name `x` in `names`, which is added, as a state without transitions, if it
/// is not there yet.
fn find_or_add(
    names: &mut Vec<String>,
    accepts: &mut Vec<bool>,
    trans: &mut Vec<Vec<Transition>>,
    x: &str,
    accepting: &Vec<&str>,
) -> (idx: usize)
    requires
        old(names)@.len() == old(accepts)@.len(),
        old(names)@.len() == old(trans)@.len(),
        texts(old(names)@).no_duplicates(),
        old(names)@.len() < usize::MAX,
    ensures
        texts(final(names)@) == add_name(texts(old(names)@), x@),
        texts(final(names)@).no_duplicates(),
        idx < final(names)@.len(),
        final(names)@[idx as int]@ == x@,
        final(names)@.len() == final(accepts)@.len(),
        final(names)@.len() == final(trans)@.len(),
        forall|k: int| 0 <= k < old(names)@.len() ==> #[trigger] final(accepts)@[k] == old(accepts)@[k],
        forall|k: int| 0 <= k < old(names)@.len() ==> #[trigger] final(trans)@[k] == old(trans)@[k],
        final(names)@.len() > old(names)@.len() ==> {
            &&& final(accepts)@[old(names)@.len() as int] == lists(accepting@, x@)
            &&& final(trans)@[old(names)@.len() as int]@.len() == 0
        },
{
    proof {
        lemma_add_name(texts(names@), x@);
    }
    let xs = x.to_owned();
    let mut k: usize = 0;
    while k < names.len()
        invariant
            k <= names@.len(),
            xs@ == x@,
            forall|j: int| 0 <= j < k ==> #[trigger] names@[j]@ != x@,
            texts(names@).no_duplicates(),
            names@.len() == accepts@.len(),
            names@.len() == trans@.len(),
        decreases names@.len() - k,
    {
        if names[k].eq(&xs) {
            assert(texts(names@)[k as int] == x@);
            assert(texts(names@).contains(x@));
            return k;
        }
        k += 1;
    }
    assert(!texts(names@).contains(x@)) by {
        if texts(names@).contains(x@) {
            let j = choose|j: int| 0 <= j < texts(names@).len() && texts(names@)[j] == x@;
            assert(names@[j]@ == x@);
        }
    }
    let ghost old_names = names@;
    let accept = is_listed(accepting, x);
    names.push(xs);
    accepts.push(accept);
    trans.push(Vec::new());
    assert(texts(names@) =~= texts(old_names).push(x@));
    names.len() - 1
}

/// `a` is the automaton named `name` built from the initial state `init`, the transitions `ts`
/// and the accepting states `acc`: one state for each name, in the order of `names_of`, the
/// listed ones accepting, with the listed transitions.
pub open spec fn built(a: Automaton, name: Seq<char>, init: Seq<char>, ts: Seq<(&str, &str, (u16, u16))>, acc: Seq<&str>) -> bool {
    &&& a.wf()
    &&& a.name@ == name
    &&& a.initial_state == 0
    &&& a.all_states@.len() == names_of(init, ts).len()
    &&& names_of(init, ts).no_duplicates()
    &&& forall|k: int| 0 <= k < a.all_states@.len() ==> {
        &&& #[trigger] a.all_states@[k].id@ == names_of(init, ts)[k]
        &&& a.all_states@[k].accept == lists(acc, names_of(init, ts)[k])
    }
    &&& forall|k: int, u: Transition| 0 <= k < a.all_states@.len() ==> (#[trigger] a.all_states@[k].transitions@.contains(u)
        <==> listed_transition(ts, names_of(init, ts), k, u))
}

impl Automaton {
    /// Builds an automaton named `automaton_name` whose initial state is named
    /// `initial_state_id`, with one state for each name that occurs, the transitions
    /// `(from, to, range)` of `transitions`, and the named `accepting_states` accepting.
    pub fn new(
        automaton_name: &str,
        initial_state_id: &str,
        transitions: Vec<(&str, &str, (u16, u16))>,
        accepting_states: Vec<&str>,
    ) -> (a: Automaton)
        requires
            2 * transitions@.len() + 1 < usize::MAX,
        ensures
            a.wf(),
            a.name@ == automaton_name@,
            a.initial_state == 0,
            a.all_states@.len() == names_of(initial_state_id@, transitions@).len(),
            names_of(initial_state_id@, transitions@).no_duplicates(),
            forall|k: int| 0 <= k < a.all_states@.len() ==> {
                &&& #[trigger] a.all_states@[k].id@ == names_of(initial_state_id@, transitions@)[k]
                &&& a.all_states@[k].accept == lists(accepting_states@, names_of(initial_state_id@, transitions@)[k])
            },
            forall|k: int, u: Transition| 0 <= k < a.all_states@.len() ==> (#[trigger] a.all_states@[k].transitions@.contains(u)
                <==> listed_transition(transitions@, names_of(initial_state_id@, transitions@), k, u)),
            built(a, automaton_name@, initial_state_id@, transitions@, accepting_states@),
    {
        let ghost ts = transitions@;
        let ghost init = initial_state_id@;
        let mut names: Vec<String> = Vec::new();
        let mut accepts: Vec<bool> = Vec::new();
        let mut trans: Vec<Vec<Transition>> = Vec::new();
        names.push(initial_state_id.to_owned());
        accepts.push(is_listed(&accepting_states, initial_state_id));
        trans.push(Vec::new());
        assert(texts(names@) =~= seq![init]);
        assert(ts.take(0) =~= Seq::<(&str, &str, (u16, u16))>::empty());
        let mut i: usize = 0;
        while i < transitions.len()
            invariant
                ts == transitions@,
                i <= ts.len(),
                2 * ts.len() + 1 < usize::MAX,
                texts(names@) == names_of(init, ts.take(i as int)),
                texts(names@).no_duplicates(),
                names@.len() <= 2 * i + 1,
                names@.len() == accepts@.len(),
                names@.len() == trans@.len(),
                forall|k: int| 0 <= k < names@.len() ==> #[trigger] accepts@[k] == lists(accepting_states@, texts(names@)[k]),
                forall|k: int| 0 <= k < names@.len() ==> (#[trigger] trans@[k])@.no_duplicates(),
                forall|k: int, u: Transition| 0 <= k < names@.len() ==> (#[trigger] trans@[k]@.contains(u)
                    <==> listed_transition(ts.take(i as int), texts(names@), k, u)),
            decreases ts.len() - i,
        {
            let (from, to, range) = transitions[i];
            let ghost n0 = texts(names@);
            let ghost acc0 = accepts@;
            let ghost tr0 = trans@;
            let from_idx = find_or_add(&mut names, &mut accepts, &mut trans, from, &accepting_states);
            let ghost n1 = texts(names@);
            let ghost acc1 = accepts@;
            let ghost tr1 = trans@;
            let to_idx = find_or_add(&mut names, &mut accepts, &mut trans, to, &accepting_states);
            let ghost n2 = texts(names@);
            proof {
                lemma_add_name(n0, from@);
                lemma_add_name(n1, to@);
                assert(ts.take(i + 1).drop_last() =~= ts.take(i as int));
                assert(ts.take(i + 1).last() == ts[i as int]);
                assert(n2 == names_of(init, ts.take(i + 1)));
            }
            let t = Transition::new(to_idx, Trigger::Range(range.0, range.1));
            let mut row = trans[from_idx].clone();
            assert(row@ =~= trans@[from_idx as int]@);
            let ghost row0 = row@;
            insert_transition(&mut row, t);
            let ghost tr2 = trans@;
            trans.set(from_idx, row);
            proof {
                let tsi = ts.take(i as int);
                let tsn = ts.take(i + 1);
                assert forall|m: int| 0 <= m < tsi.len() implies #[trigger] tsn[m] == tsi[m] by {}
                assert(tsn[i as int] == ts[i as int]);
                assert forall|k: int| 0 <= k < names@.len() implies #[trigger] accepts@[k] == lists(accepting_states@, texts(names@)[k]) by {
                    if k < n0.len() {
                        assert(n2[k] == n0[k]);
                    } else if k < n1.len() {
                        assert(n2[k] == n1[k]);
                    }
                }
                assert forall|k: int, u: Transition| 0 <= k < names@.len() implies (#[trigger] trans@[k]@.contains(u)
                    <==> listed_transition(tsn, n2, k, u)) by {
                    if listed_transition(tsi, n0, k, u) && k < n0.len() {
                        let m = choose|m: int| {
                            &&& 0 <= m < tsi.len()
                            &&& #[trigger] tsi[m].0@ == n0[k]
                            &&& u.to < n0.len()
                            &&& n0[u.to as int] == tsi[m].1@
                            &&& u.trigger == Trigger::Range(tsi[m].2.0, tsi[m].2.1)
                        };
                        assert(tsn[m] == tsi[m]);
                        assert(n2[k] == n0[k]);
                        assert(n2[u.to as int] == n0[u.to as int]);
                    }
                    if listed_transition(tsn, n2, k, u) {
                        let m = choose|m: int| {
                            &&& 0 <= m < tsn.len()
                            &&& #[trigger] tsn[m].0@ == n2[k]
                            &&& u.to < n2.len()
                            &&& n2[u.to as int] == tsn[m].1@
                            &&& u.trigger == Trigger::Range(tsn[m].2.0, tsn[m].2.1)
                        };
                        if m < i {
                            assert(tsn[m] == tsi[m]);
                            assert(n2.contains(tsi[m].0@));
                            assert(names_of(init, tsi).contains(tsi[m].0@)) by {
                                lemma_names_contain(init, tsi, m);
                            }
                            assert(names_of(init, tsi).contains(tsi[m].1@)) by {
                                lemma_names_contain(init, tsi, m);
                            }
                            let kf = choose|kf: int| 0 <= kf < n0.len() && n0[kf] == tsi[m].0@;
                            let kt = choose|kt: int| 0 <= kt < n0.len() && n0[kt] == tsi[m].1@;
                            assert(n2[kf] == n0[kf]);
                            assert(n2[kt] == n0[kt]);
                            assert(k == kf);
                            assert(u.to == kt);
                            assert(n0[k] == n2[k]);
                            assert(listed_transition(tsi, n0, k, u));
                        } else {
                            assert(m == i);
                            assert(n2[from_idx as int] == from@);
                            assert(n2[to_idx as int] == to@);
                            assert(k == from_idx);
                            assert(u.to == to_idx);
                            assert(u == t);
                        }
                    }
                    if k == from_idx {
                        assert(trans@[k]@ == row@);
                        if u == t {
                            assert(n2[from_idx as int] == from@);
                            assert(listed_transition(tsn, n2, k, u)) by {
                                assert(tsn[i as int].0@ == n2[k]);
                            }
                        }
                        if row0.contains(u) {
                            assert(tr0[k]@.contains(u));
                        }
                    } else if k < n0.len() {
                        assert(trans@[k] == tr0[k]);
                    } else {
                        assert(trans@[k]@.len() == 0);
                        assert(!trans@[k]@.contains(u));
                        if listed_transition(tsn, n2, k, u) {
                            assert(false);
                        }
                    }
                }
                assert forall|k: int| 0 <= k < names@.len() implies (#[trigger] trans@[k])@.no_duplicates() by {
                    if k != from_idx && k < n0.len() {
                        assert(trans@[k] == tr0[k]);
                    }
                }
            }
            i += 1;
        }
        assert(ts.take(ts.len() as int) =~= ts);
        let mut all_states: Vec<State> = Vec::new();
        let mut k: usize = 0;
        while k < names.len()
            invariant
                k <= names@.len(),
                names@.len() == accepts@.len(),
                names@.len() == trans@.len(),
                all_states@.len() == k,
                forall|j: int| 0 <= j < k ==> {
                    &&& (#[trigger] all_states@[j]).id@ == names@[j]@
                    &&& all_states@[j].accept == accepts@[j]
                    &&& all_states@[j].transitions@ == trans@[j]@
                },
            decreases names@.len() - k,
        {
            let ts_k = trans[k].clone();
            assert(ts_k@ =~= trans@[k as int]@);
            all_states.push(State { id: names[k].clone(), accept: accepts[k], transitions: ts_k });
            k += 1;
        }
        let a = Automaton { name: automaton_name.to_owned(), all_states, initial_state: 0 };
        proof {
            let n = texts(names@);
            assert forall|s: int, j: int| 0 <= s < a.all_states.len() && 0 <= j < a.all_states[s].transitions.len()
                implies #[trigger] a.all_states[s].transitions[j].to < a.all_states.len() by {
                let u = a.all_states[s].transitions@[j];
                assert(trans@[s]@.contains(u));
            }
            assert forall|kk: int| 0 <= kk < a.all_states@.len() implies {
                &&& #[trigger] a.all_states@[kk].id@ == n[kk]
                &&& a.all_states@[kk].accept == lists(accepting_states@, n[kk])
            } by {
                assert(n[kk] == names@[kk]@);
            }
        }
        a
    }
}

/// Both names of every transition are among the names of the states.
proof fn lemma_names_contain(init: Seq<char>, ts: Seq<(&str, &str, (u16, u16))>, m: int)
    requires
        0 <= m < ts.len(),
    ensures
        names_of(init, ts).contains(ts[m].0@),
        names_of(init, ts).contains(ts[m].1@),
    decreases ts.len(),
{
    let n = names_of(init, ts.drop_last());
    let l = ts.last();
    lemma_names_grow(n, l.0@, l.1@);
    if m < ts.len() - 1 {
        lemma_names_contain(init, ts.drop_last(), m);
        assert(ts.drop_last()[m] == ts[m]);
    }
}

proof fn lemma_names_grow(n: Seq<Seq<char>>, x: Seq<char>, y: Seq<char>)
    ensures
        forall|z: Seq<char>| n.contains(z) ==> #[trigger] add_name(add_name(n, x), y).contains(z),
        add_name(add_name(n, x), y).contains(x),
        add_name(add_name(n, x), y).contains(y),
{
    let n1 = add_name(n, x);
    assert(n1.contains(x)) by {
        if !n.contains(x) {
            assert(n1[n.len() as int] == x);
        }
    }
    assert forall|z: Seq<char>| n.contains(z) implies #[trigger] n1.contains(z) by {
        if !n.contains(x) {
            let k = choose|k: int| 0 <= k < n.len() && n[k] == z;
            assert(n1[k] == z);
        }
    }
    let n2 = add_name(n1, y);
    assert(n2.contains(y)) by {
        if !n1.contains(y) {
            assert(n2[n1.len() as int] == y);
        }
    }
    assert forall|z: Seq<char>| n1.contains(z) implies #[trigger] n2.contains(z) by {
        if !n1.contains(y) {
            let k = choose|k: int| 0 <= k < n1.len() && n1[k] == z;
            assert(n2[k] == z);
        }
    }
}

} // verus!
