//! Subset construction: turning an automaton into a deterministic and complete one that accepts
//! the same words.

use std::collections::BTreeSet;
use vstd::prelude::*;

use crate::automata::language::{
    accepts_word, lemma_ranges_without_eps, lemma_simulation_preserves_language, moves_on, simulates, step, symbols,
};
use crate::text::{numbered, suffixed};
use crate::automata::utils::{all_valid, canonical, covers, ends_below_max, has_overlap, is_missing, missing_ranges, overlap, seq_covers};
use crate::automata::{ranges_of, transition_range};
use crate::automata::{eps_closure, eps_reaches, Automaton, State, StateId, Transition, Trigger};

verus! {

broadcast use vstd::laws_cmp::group_laws_cmp, vstd::std_specs::btree::group_btree_axioms;

/// Whether the edge `(l, r, to)` consumes the symbol `c`.
pub open spec fn edge_covers(e: (u16, u16, StateId), c: int) -> bool {
    e.0 <= c <= e.1
}

/// Whether some edge of `edges` consumes the symbol `c`.
pub open spec fn edges_cover(edges: Seq<(u16, u16, StateId)>, c: int) -> bool {
    exists|i: int| 0 <= i < edges.len() && #[trigger] edge_covers(edges[i], c)
}

/// The destinations of the edges of `edges` that consume the symbol `c`.
pub open spec fn edge_targets(edges: Seq<(u16, u16, StateId)>, c: int) -> Set<StateId> {
    Set::new(|t: StateId| exists|i: int| 0 <= i < edges.len() && #[trigger] edge_covers(edges[i], c) && edges[i].2 == t)
}

/// Whether the inclusive window `w` contains the symbol `c`.
pub open spec fn window_covers(w: (u16, u16), c: int) -> bool {
    w.0 <= c <= w.1
}

/// The values of `p` are strictly increasing.
pub open spec fn increasing(p: Seq<u32>) -> bool {
    forall|x: int, y: int| 0 <= x < y < p.len() ==> #[trigger] p[x] < #[trigger] p[y]
}

/// Whether `x` is where the edge `e` starts, or just past where it ends.
pub open spec fn bound_of(e: (u16, u16, StateId), x: u32) -> bool {
    e.0 == x || e.1 + 1 == x
}

/// Whether `x` is where an edge of `edges` starts, or just past where one ends.
pub open spec fn is_bound(edges: Seq<(u16, u16, StateId)>, x: u32) -> bool {
    exists|i: int| 0 <= i < edges.len() && #[trigger] bound_of(edges[i], x)
}

/// Adds `x` to a strictly increasing list of points, unless it is already there.
fn insert_point(points: &mut Vec<u32>, x: u32)
    requires
        increasing(old(points)@),
    ensures
        increasing(final(points)@),
        forall|y: u32| #[trigger] final(points)@.contains(y) <==> (old(points)@.contains(y) || y == x),
{
    let mut k: usize = 0;
    while k < points.len() && points[k] < x
        invariant
            k <= points.len(),
            forall|m: int| 0 <= m < k ==> #[trigger] points@[m] < x,
        decreases points.len() - k,
    {
        k += 1;
    }
    if k < points.len() && points[k] == x {
        assert(points@[k as int] == x);
        return;
    }
    let ghost old_p = points@;
    points.insert(k, x);
    proof {
        assert(points@ =~= old_p.insert(k as int, x));
        assert forall|a: int, b: int| 0 <= a < b < points@.len() implies #[trigger] points@[a] < #[trigger] points@[b] by {
            if b < k {
            } else if b == k {
                assert(old_p[a] < x);
            } else if a < k {
                assert(old_p[a] < x);
                assert(x < old_p[k as int]);
                if b - 1 > k {
                    assert(old_p[k as int] < old_p[b - 1]);
                }
            } else if a == k {
                assert(x < old_p[k as int]);
                if b - 1 > k {
                    assert(old_p[k as int] < old_p[b - 1]);
                }
            } else {
                assert(old_p[a - 1] < old_p[b - 1]);
            }
        }
        assert forall|y: u32| #[trigger] points@.contains(y) <==> (old_p.contains(y) || y == x) by {
            if points@.contains(y) {
                let m = choose|m: int| 0 <= m < points@.len() && points@[m] == y;
                if m < k {
                    assert(old_p[m] == y);
                } else if m > k {
                    assert(old_p[m - 1] == y);
                }
            }
            if old_p.contains(y) {
                let m = choose|m: int| 0 <= m < old_p.len() && old_p[m] == y;
                if m < k {
                    assert(points@[m] == y);
                } else {
                    assert(points@[m + 1] == y);
                }
            }
            if y == x {
                assert(points@[k as int] == y);
            }
        }
    }
}

/// Between two consecutive points, an edge consumes a symbol exactly when it spans the whole
/// window between them.
proof fn lemma_window_edge(edges: Seq<(u16, u16, StateId)>, p: Seq<u32>, w: int, m: int, c: int)
    requires
        increasing(p),
        forall|y: u32| #[trigger] p.contains(y) <==> is_bound(edges, y),
        1 <= w < p.len(),
        0 <= m < edges.len(),
        p[w - 1] <= c < p[w],
    ensures
        edge_covers(edges[m], c) <==> (edges[m].0 <= p[w - 1] && edges[m].1 + 1 >= p[w]),
{
    let e = edges[m];
    assert(bound_of(edges[m], e.0 as u32));
    assert(p.contains(e.0 as u32));
    let j = choose|j: int| 0 <= j < p.len() && p[j] == e.0 as u32;
    assert(bound_of(edges[m], (e.1 + 1) as u32));
    assert(p.contains((e.1 + 1) as u32));
    let j2 = choose|j2: int| 0 <= j2 < p.len() && p[j2] == (e.1 + 1) as u32;
    if e.0 <= c {
        if j >= w {
            if j > w {
                assert(p[w] < p[j]);
            }
        } else if j < w - 1 {
            assert(p[j] < p[w - 1]);
        }
    }
    if j2 <= w - 1 {
        if j2 < w - 1 {
            assert(p[j2] < p[w - 1]);
        }
    } else if j2 > w {
        assert(p[w] < p[j2]);
    }
}

/// The set of states whose entries in the membership list `bits` are set.
pub open spec fn bits_set(bits: Seq<bool>) -> Set<StateId> {
    Set::new(|x: StateId| x < bits.len() && bits[x as int])
}

/// The sets of states all of whose members are below `n`.
pub open spec fn subsets_below(n: nat) -> Set<Set<StateId>> {
    Set::new(|s: Set<StateId>| forall|x: StateId| #[trigger] s.contains(x) ==> x < n)
}

/// There are finitely many sets of states below a bound.
pub proof fn lemma_subsets_below_finite(n: nat)
    requires
        n <= usize::MAX + 1,
    ensures
        subsets_below(n).finite(),
    decreases n,
{
    if n == 0 {
        assert(subsets_below(0) =~= set![Set::<StateId>::empty()]) by {
            assert forall|s: Set<StateId>| subsets_below(0).contains(s) implies s == Set::<StateId>::empty() by {
                assert(s =~= Set::<StateId>::empty());
            }
        }
    } else {
        let m = (n - 1) as nat;
        let top = m as StateId;
        lemma_subsets_below_finite(m);
        let lower = subsets_below(m);
        let f = |s: Set<StateId>| s.insert(top);
        lower.lemma_map_finite(f);
        assert(subsets_below(n) =~= lower.union(lower.map(f))) by {
            assert forall|s: Set<StateId>| subsets_below(n).contains(s) implies lower.union(lower.map(f)).contains(s) by {
                if s.contains(top) {
                    let r = s.remove(top);
                    assert(lower.contains(r));
                    assert(r.insert(top) =~= s);
                    assert(lower.map(f).contains(f(r)));
                } else {
                    assert(lower.contains(s));
                }
            }
            assert forall|s: Set<StateId>| lower.union(lower.map(f)).contains(s) implies subsets_below(n).contains(s) by {
                if lower.map(f).contains(s) {
                    let r = choose|r: Set<StateId>| lower.contains(r) && f(r) == s;
                    assert forall|x: StateId| #[trigger] s.contains(x) implies x < n by {
                        if x != top {
                            assert(r.contains(x));
                        }
                    }
                }
            }
        }
    }
}

/// The membership list of a set of states below `n`.
fn subset_bits(set: &BTreeSet<StateId>, n: usize) -> (bits: Vec<bool>)
    ensures
        bits@.len() == n,
        forall|x: StateId| x < n ==> bits@[x as int] == set@.contains(x),
{
    let mut bits: Vec<bool> = Vec::new();
    for x in 0..n
        invariant
            bits@.len() == x,
            forall|y: StateId| y < x ==> bits@[y as int] == set@.contains(y),
    {
        let b = set.contains(&x);
        bits.push(b);
    }
    bits
}

/// Whether two membership lists are equal.
fn same_bits(a: &Vec<bool>, b: &Vec<bool>) -> (res: bool)
    ensures
        res == (a@ == b@),
{
    if a.len() != b.len() {
        return false;
    }
    for x in 0..a.len()
        invariant
            a@.len() == b@.len(),
            forall|y: int| 0 <= y < x ==> a@[y] == b@[y],
    {
        if a[x] != b[x] {
            return false;
        }
    }
    assert(a@ =~= b@);
    true
}

/// The position of a membership list in `members`, if it is there.
fn find_subset(members: &Vec<Vec<bool>>, bits: &Vec<bool>) -> (res: Option<usize>)
    ensures
        match res {
            Some(i) => i < members.len() && members@[i as int]@ == bits@,
            None => forall|i: int| 0 <= i < members.len() ==> #[trigger] members@[i]@ != bits@,
        },
{
    for i in 0..members.len()
        invariant
            forall|k: int| 0 <= k < i ==> #[trigger] members@[k]@ != bits@,
    {
        if same_bits(&members[i], bits) {
            return Some(i);
        }
    }
    None
}

/// Whether some state of `nfa` whose entry in `bits` is set is accepting.
fn any_accepting(nfa: &Automaton, bits: &Vec<bool>) -> (res: bool)
    requires
        bits@.len() == nfa.all_states.len(),
    ensures
        res == exists|s: StateId| bits_set(bits@).contains(s) && s < nfa.all_states.len() && nfa.all_states[s as int].accept,
{
    for s in 0..bits.len()
        invariant
            bits@.len() == nfa.all_states.len(),
            forall|t: StateId| t < s ==> !(bits@[t as int] && nfa.all_states[t as int].accept),
    {
        if bits[s] && nfa.all_states[s].accept {
            assert(bits_set(bits@).contains(s));
            return true;
        }
    }
    false
}

/// The edge that a transition labeled by a range stands for.
pub open spec fn edge_of(t: Transition) -> (u16, u16, StateId) {
    match t.trigger {
        Trigger::Range(l, r) => (l, r, t.to),
        Trigger::Epsilon => (0, 0, t.to),
    }
}

/// Whether `e` is the edge of a transition labeled by a range, out of a state whose entry in
/// `bits` is set.
pub open spec fn edge_from(nfa: Automaton, bits: Seq<bool>, e: (u16, u16, StateId)) -> bool {
    exists|s: StateId, j: int| s < bits.len() && bits[s as int] && 0 <= j < nfa.all_states[s as int].transitions.len()
        && #[trigger] nfa.all_states[s as int].transitions@[j] == Transition { to: e.2, trigger: Trigger::Range(e.0, e.1) }
}

/// The edges of the transitions labeled by ranges out of the states whose entries in `bits` are set.
fn collect_edges(nfa: &Automaton, bits: &Vec<bool>) -> (edges: Vec<(u16, u16, StateId)>)
    requires
        nfa.wf(),
        bits@.len() == nfa.all_states.len(),
    ensures
        forall|i: int| 0 <= i < edges.len() ==> #[trigger] edges@[i].2 < nfa.all_states.len(),
        forall|c: int| #[trigger] edge_targets(edges@, c) == step(*nfa, bits_set(bits@), c),
{
    let n = nfa.all_states.len();
    let mut edges: Vec<(u16, u16, StateId)> = Vec::new();
    for s in 0..n
        invariant
            n == nfa.all_states.len(),
            bits@.len() == n,
            nfa.wf(),
            forall|i: int| 0 <= i < edges.len() ==> #[trigger] edge_from(*nfa, bits@, edges@[i]),
            forall|s2: StateId, j: int| s2 < s && bits@[s2 as int] && 0 <= j < nfa.all_states[s2 as int].transitions.len()
                && #[trigger] nfa.all_states[s2 as int].transitions@[j].trigger is Range
                ==> edges@.contains(edge_of(nfa.all_states[s2 as int].transitions@[j])),
    {
        if bits[s] {
            let ts = &nfa.all_states[s].transitions;
            for j in 0..ts.len()
                invariant
                    n == nfa.all_states.len(),
                    s < n,
                    bits@.len() == n,
                    bits@[s as int],
                    *ts == nfa.all_states[s as int].transitions,
                    forall|i: int| 0 <= i < edges.len() ==> #[trigger] edge_from(*nfa, bits@, edges@[i]),
                    forall|s2: StateId, j2: int| s2 < s && bits@[s2 as int] && 0 <= j2 < nfa.all_states[s2 as int].transitions.len()
                        && #[trigger] nfa.all_states[s2 as int].transitions@[j2].trigger is Range
                        ==> edges@.contains(edge_of(nfa.all_states[s2 as int].transitions@[j2])),
                    forall|j2: int| 0 <= j2 < j && #[trigger] ts@[j2].trigger is Range ==> edges@.contains(edge_of(ts@[j2])),
            {
                let t = ts[j];
                if let Trigger::Range(l, r) = t.trigger {
                    let ghost old_edges = edges@;
                    edges.push((l, r, t.to));
                    proof {
                        assert(edges@ =~= old_edges.push((l, r, t.to)));
                        assert(ts@[j as int] == Transition { to: t.to, trigger: Trigger::Range(l, r) });
                        assert(edge_from(*nfa, bits@, (l, r, t.to)));
                        assert(edges@[old_edges.len() as int] == edge_of(ts@[j as int]));
                        assert forall|i: int| 0 <= i < edges.len() implies #[trigger] edge_from(*nfa, bits@, edges@[i]) by {
                            if i < old_edges.len() {
                                assert(edges@[i] == old_edges[i]);
                            }
                        }
                        assert forall|x: (u16, u16, StateId)| old_edges.contains(x) implies edges@.contains(x) by {
                            let i = choose|i: int| 0 <= i < old_edges.len() && old_edges[i] == x;
                            assert(edges@[i] == x);
                        }
                    }
                }
            }
        }
    }
    proof {
        assert forall|i: int| 0 <= i < edges.len() implies #[trigger] edges@[i].2 < nfa.all_states.len() by {
            let e = edges@[i];
            assert(edge_from(*nfa, bits@, e));
            let (s2, j) = choose|s2: StateId, j: int| s2 < bits@.len() && bits@[s2 as int] && 0 <= j < nfa.all_states[s2 as int].transitions.len()
                && #[trigger] nfa.all_states[s2 as int].transitions@[j] == Transition { to: e.2, trigger: Trigger::Range(e.0, e.1) };
            assert(nfa.all_states[s2 as int].transitions[j].to < nfa.all_states.len());
        }
        assert forall|c: int| #[trigger] edge_targets(edges@, c) == step(*nfa, bits_set(bits@), c) by {
            assert forall|t: StateId| edge_targets(edges@, c).contains(t) <==> step(*nfa, bits_set(bits@), c).contains(t) by {
                if edge_targets(edges@, c).contains(t) {
                    let i = choose|i: int| 0 <= i < edges.len() && #[trigger] edge_covers(edges@[i], c) && edges@[i].2 == t;
                    let e = edges@[i];
                    assert(edge_from(*nfa, bits@, e));
                    let (s2, j) = choose|s2: StateId, j: int| s2 < bits@.len() && bits@[s2 as int] && 0 <= j < nfa.all_states[s2 as int].transitions.len()
                        && #[trigger] nfa.all_states[s2 as int].transitions@[j] == Transition { to: e.2, trigger: Trigger::Range(e.0, e.1) };
                    assert(moves_on(*nfa, s2, j, c, t));
                    assert(bits_set(bits@).contains(s2));
                }
                if step(*nfa, bits_set(bits@), c).contains(t) {
                    let (s2, j) = choose|s2: StateId, j: int| bits_set(bits@).contains(s2) && s2 < nfa.all_states.len() && #[trigger] moves_on(*nfa, s2, j, c, t);
                    let tr = nfa.all_states[s2 as int].transitions@[j];
                    assert(tr.trigger is Range);
                    assert(edges@.contains(edge_of(tr)));
                    let i = choose|i: int| 0 <= i < edges.len() && edges@[i] == edge_of(tr);
                    assert(edge_covers(edges@[i], c));
                }
            }
            assert(edge_targets(edges@, c) =~= step(*nfa, bits_set(bits@), c));
        }
    }
    edges
}

/// The start of the range that labels a transition.
pub open spec fn lo(t: Transition) -> int {
    match t.trigger {
        Trigger::Range(l, _) => l as int,
        Trigger::Epsilon => 0,
    }
}

/// The end of the range that labels a transition.
pub open spec fn hi(t: Transition) -> int {
    match t.trigger {
        Trigger::Range(_, r) => r as int,
        Trigger::Epsilon => 0,
    }
}

/// Every transition of `ts` is labeled by a non-empty range, and the ranges come in increasing
/// order without overlapping.
pub open spec fn sorted_ranges(ts: Seq<Transition>) -> bool {
    &&& forall|j: int| 0 <= j < ts.len() ==> #[trigger] ts[j].trigger is Range && lo(ts[j]) <= hi(ts[j])
    &&& forall|j1: int, j2: int| 0 <= j1 < j2 < ts.len() ==> hi(#[trigger] ts[j1]) < lo(#[trigger] ts[j2])
}

/// Whether some transition of `ts` consumes the symbol `c`.
pub open spec fn consumes(ts: Seq<Transition>, c: int) -> bool {
    exists|j: int| 0 <= j < ts.len() && #[trigger] ts[j].trigger.spec_covers(c)
}

/// A list of transitions makes a state deterministic and complete: every transition is labeled
/// by a non-empty range, no two transitions overlap, and every 16-bit symbol is consumed.
pub open spec fn complete_ranges(ts: Seq<Transition>) -> bool {
    &&& forall|j: int| 0 <= j < ts.len() ==> #[trigger] ts[j].trigger is Range && lo(ts[j]) <= hi(ts[j])
    &&& forall|j1: int, j2: int| 0 <= j1 < j2 < ts.len() ==> !overlap(
        #[trigger] transition_range(ts[j1])->Some_0, #[trigger] transition_range(ts[j2])->Some_0)
    &&& forall|c: int| 0 <= c <= 0xffff ==> consumes(ts, c)
}

/// Every hole left by ranges of 16-bit symbols in `[0, u16::MAX]` is a range of 16-bit symbols.
proof fn lemma_hole_below_max(holes: Seq<(u32, u32)>, existing: Seq<(u32, u32)>, g: int)
    requires
        0 <= g < holes.len(),
        canonical(holes),
        forall|c: int| seq_covers(holes, c) <==> is_missing(existing, 0, 0xffff, c),
        forall|k: int| 0 <= k < existing.len() ==> #[trigger] existing[k].1 <= 0xffff,
    ensures
        holes[g].0 <= holes[g].1 <= 0xffff,
{
    assert(covers(holes[g], holes[g].1 as int));
    assert(seq_covers(holes, holes[g].1 as int));
    if holes[g].1 > 0xffff {
        let p = choose|p: int| p > holes[g].1 && seq_covers(existing, p);
        let m = choose|m: int| 0 <= m < existing.len() && #[trigger] covers(existing[m], p);
    }
}

/// Completes a list of transitions with transitions to `sink` on the maximal ranges of 16-bit
/// symbols that it leaves unconsumed.
fn complete_to_sink(ts: &Vec<Transition>, sink: StateId) -> (res: Vec<Transition>)
    requires
        sorted_ranges(ts@),
    ensures
        ts@.len() <= res@.len(),
        forall|j: int| 0 <= j < ts@.len() ==> #[trigger] res@[j] == ts@[j],
        forall|j: int| ts@.len() <= j < res@.len() ==> #[trigger] res@[j].to == sink,
        forall|j: int, c: int| ts@.len() <= j < res@.len() && #[trigger] res@[j].trigger.spec_covers(c) ==> !consumes(ts@, c),
        complete_ranges(res@),
{
    let mut existing: Vec<(u32, u32)> = Vec::new();
    for j in 0..ts.len()
        invariant
            sorted_ranges(ts@),
            existing@.len() == j,
            forall|k: int| 0 <= k < j ==> #[trigger] existing@[k] == (lo(ts@[k]) as u32, hi(ts@[k]) as u32),
    {
        if let Trigger::Range(l, r) = ts[j].trigger {
            existing.push((l as u32, r as u32));
        } else {
            assert(ts@[j as int].trigger is Range);
        }
    }
    let ghost ex = existing@;
    proof {
        assert(ends_below_max(ex));
        assert(all_valid(ex));
        assert forall|c: int| seq_covers(ex, c) <==> consumes(ts@, c) by {
            if seq_covers(ex, c) {
                let k = choose|k: int| 0 <= k < ex.len() && #[trigger] covers(ex[k], c);
                assert(ts@[k].trigger.spec_covers(c));
            }
            if consumes(ts@, c) {
                let k = choose|k: int| 0 <= k < ts@.len() && #[trigger] ts@[k].trigger.spec_covers(c);
                assert(covers(ex[k], c));
            }
        }
    }
    let holes = missing_ranges(existing.as_slice(), 0, 0xffff);
    let mut res = ts.clone();
    assert(res@ =~= ts@);
    for g in 0..holes.len()
        invariant
            sorted_ranges(ts@),
            canonical(holes@),
            forall|c: int| seq_covers(holes@, c) <==> is_missing(ex, 0, 0xffff, c),
            forall|c: int| seq_covers(ex, c) <==> consumes(ts@, c),
            forall|k: int| 0 <= k < ex.len() ==> #[trigger] ex[k].1 <= 0xffff,
            res@.len() == ts@.len() + g,
            forall|j: int| 0 <= j < ts@.len() ==> #[trigger] res@[j] == ts@[j],
            forall|j: int| ts@.len() <= j < res@.len() ==> #[trigger] res@[j] == (Transition {
                to: sink, trigger: Trigger::Range(holes@[j - ts@.len()].0 as u16, holes@[j - ts@.len()].1 as u16) }),
    {
        let (l, r) = holes[g];
        proof {
            lemma_hole_below_max(holes@, ex, g as int);
        }
        res.push(Transition { to: sink, trigger: Trigger::Range(l as u16, r as u16) });
    }
    proof {
        let m = ts@.len();
        assert forall|j: int| m <= j < res@.len() implies lo(#[trigger] res@[j]) == holes@[j - m].0 && hi(res@[j]) == holes@[j - m].1
            && holes@[j - m].0 <= holes@[j - m].1 <= 0xffff by {
            lemma_hole_below_max(holes@, ex, j - m);
        }
        assert forall|j: int, c: int| m <= j < res@.len() && #[trigger] res@[j].trigger.spec_covers(c) implies !consumes(ts@, c) by {
            assert(lo(res@[j]) == holes@[j - m].0 && hi(res@[j]) == holes@[j - m].1);
            assert(covers(holes@[j - m], c));
            assert(seq_covers(holes@, c));
        }
        assert forall|j: int| 0 <= j < res@.len() implies #[trigger] res@[j].trigger is Range && lo(res@[j]) <= hi(res@[j]) by {
            if j >= m {
                assert(lo(res@[j]) == holes@[j - m].0 && hi(res@[j]) == holes@[j - m].1);
            }
        }
        assert forall|j1: int, j2: int| 0 <= j1 < j2 < res@.len() implies !overlap(
            #[trigger] transition_range(res@[j1])->Some_0, #[trigger] transition_range(res@[j2])->Some_0) by {
            let r1 = transition_range(res@[j1])->Some_0;
            let r2 = transition_range(res@[j2])->Some_0;
            assert(r1.0 == lo(res@[j1]) && r1.1 == hi(res@[j1]));
            assert(r2.0 == lo(res@[j2]) && r2.1 == hi(res@[j2]));
            if j2 < m {
                assert(hi(ts@[j1]) < lo(ts@[j2]));
            } else if j1 < m {
                if overlap(r1, r2) {
                    let c = if r1.0 <= r2.0 { r2.0 as int } else { r1.0 as int };
                    assert(res@[j1].trigger.spec_covers(c));
                    assert(res@[j2].trigger.spec_covers(c));
                    assert(ts@[j1].trigger.spec_covers(c));
                }
            } else {
                assert(holes@[j1 - m].1 + 1 < holes@[j2 - m].0);
            }
        }
        assert forall|c: int| 0 <= c <= 0xffff implies consumes(res@, c) by {
            if consumes(ts@, c) {
                let k = choose|k: int| 0 <= k < ts@.len() && #[trigger] ts@[k].trigger.spec_covers(c);
                assert(res@[k].trigger.spec_covers(c));
            } else {
                assert(!seq_covers(ex, c));
                assert(is_missing(ex, 0, 0xffff, c));
                assert(seq_covers(holes@, c));
                let g = choose|g: int| 0 <= g < holes@.len() && #[trigger] covers(holes@[g], c);
                assert(lo(res@[m + g]) == holes@[g].0 && hi(res@[m + g]) == holes@[g].1);
                assert(res@[m + g].trigger.spec_covers(c));
            }
        }
    }
    res
}

impl Automaton {
    /// Splits the symbols consumed by `edges` into maximal windows on which the same edges apply,
    /// each with the set of destinations of those edges. The windows come in increasing order.
    pub fn partition_ranges(edges: &Vec<(u16, u16, StateId)>) -> (res: Vec<((u16, u16), BTreeSet<StateId>)>)
        ensures
            forall|k: int| 0 <= k < res.len() ==> #[trigger] res[k].0.0 <= res[k].0.1,
            forall|k1: int, k2: int| 0 <= k1 < k2 < res.len() ==> #[trigger] res[k1].0.1 < #[trigger] res[k2].0.0,
            forall|c: int| edges_cover(edges@, c) <==> exists|k: int| 0 <= k < res.len() && #[trigger] window_covers(res[k].0, c),
            forall|k: int, c: int| 0 <= k < res.len() && #[trigger] window_covers(res[k].0, c) ==> res[k].1@ == edge_targets(edges@, c),
    {
        if edges.len() == 0 {
            return Vec::new();
        }
        let mut points: Vec<u32> = Vec::new();
        for i in 0..edges.len()
            invariant
                increasing(points@),
                forall|y: u32| #[trigger] points@.contains(y) <==> exists|m: int| 0 <= m < i && #[trigger] bound_of(edges@[m], y),
        {
            let (l, r, _) = edges[i];
            let ghost old_points = points@;
            insert_point(&mut points, l as u32);
            insert_point(&mut points, r as u32 + 1);
            proof {
                assert forall|y: u32| #[trigger] points@.contains(y) <==> exists|m: int| 0 <= m < i + 1 && #[trigger] bound_of(edges@[m], y) by {
                    if points@.contains(y) {
                        if old_points.contains(y) {
                            let m = choose|m: int| 0 <= m < i && #[trigger] bound_of(edges@[m], y);
                        } else {
                            assert(bound_of(edges@[i as int], y));
                        }
                    }
                    if exists|m: int| 0 <= m < i + 1 && #[trigger] bound_of(edges@[m], y) {
                        let m = choose|m: int| 0 <= m < i + 1 && #[trigger] bound_of(edges@[m], y);
                        if m < i {
                            assert(old_points.contains(y));
                        }
                    }
                }
            }
        }
        let ghost ed = edges@;
        proof {
            assert forall|y: u32| #[trigger] points@.contains(y) <==> is_bound(ed, y) by {
                if points@.contains(y) {
                    let m = choose|m: int| 0 <= m < edges.len() && #[trigger] bound_of(edges@[m], y);
                    assert(bound_of(ed[m], y));
                }
            }
            assert(bound_of(ed[0], ed[0].0 as u32));
            assert(points@.contains(ed[0].0 as u32));
        }
        let np = points.len();
        let mut result: Vec<((u16, u16), BTreeSet<StateId>)> = Vec::new();
        proof {
            assert forall|c: int| c < points@[0] implies !edges_cover(ed, c) by {
                if edges_cover(ed, c) {
                    let m = choose|m: int| 0 <= m < ed.len() && #[trigger] edge_covers(ed[m], c);
                    assert(bound_of(ed[m], ed[m].0 as u32));
                    assert(points@.contains(ed[m].0 as u32));
                    let j = choose|j: int| 0 <= j < points@.len() && points@[j] == ed[m].0 as u32;
                    if j > 0 {
                        assert(points@[0] < points@[j]);
                    }
                }
            }
        }
        let mut w: usize = 1;
        while w < np
            invariant
                1 <= w <= np,
                np == points.len(),
                np >= 1,
                ed == edges@,
                increasing(points@),
                forall|y: u32| #[trigger] points@.contains(y) <==> is_bound(ed, y),
                forall|k: int| #![trigger result[k]] 0 <= k < result.len() ==> result[k].0.0 <= result[k].0.1
                    && result[k].0.1 < points@[w - 1],
                forall|k1: int, k2: int| 0 <= k1 < k2 < result.len() ==> #[trigger] result[k1].0.1 < #[trigger] result[k2].0.0,
                forall|c: int| c < points@[w - 1] ==> (edges_cover(ed, c) <==> exists|k: int|
                    0 <= k < result.len() && #[trigger] window_covers(result[k].0, c)),
                forall|k: int, c: int| 0 <= k < result.len() && #[trigger] window_covers(result[k].0, c)
                    ==> result[k].1@ == edge_targets(ed, c),
            decreases np - w,
        {
            proof {
                assert(points@[w - 1] < points@[w as int]);
                assert(points@.contains(points@[w as int]));
                let m = choose|m: int| 0 <= m < ed.len() && #[trigger] bound_of(ed[m], points@[w as int]);
                assert(points@[w as int] <= 65536);
            }
            let a = points[w - 1] as u16;
            let b = (points[w] - 1) as u16;
            assert(a == points@[w - 1] && b == points@[w as int] - 1);
            let mut dests: BTreeSet<StateId> = BTreeSet::new();
            for i in 0..edges.len()
                invariant
                    ed == edges@,
                    forall|t: StateId| #[trigger] dests@.contains(t) <==> exists|m: int|
                        0 <= m < i && #[trigger] ed[m].0 <= a && ed[m].1 >= b && ed[m].2 == t,
            {
                let (l, r, to) = edges[i];
                if l <= a && r >= b {
                    dests.insert(to);
                }
            }
            proof {
                assert forall|c: int| a <= c <= b implies dests@ == edge_targets(ed, c) by {
                    assert forall|t: StateId| dests@.contains(t) <==> edge_targets(ed, c).contains(t) by {
                        if dests@.contains(t) {
                            let m = choose|m: int| 0 <= m < edges.len() && #[trigger] ed[m].0 <= a && ed[m].1 >= b && ed[m].2 == t;
                            lemma_window_edge(ed, points@, w as int, m, c);
                        }
                        if edge_targets(ed, c).contains(t) {
                            let m = choose|m: int| 0 <= m < ed.len() && #[trigger] edge_covers(ed[m], c) && ed[m].2 == t;
                            lemma_window_edge(ed, points@, w as int, m, c);
                            assert(ed[m].0 <= a && ed[m].1 >= b);
                        }
                    }
                    assert(dests@ =~= edge_targets(ed, c));
                }
                assert forall|c: int| a <= c <= b implies (edges_cover(ed, c) <==> !dests@.is_empty()) by {
                    if edges_cover(ed, c) {
                        let m = choose|m: int| 0 <= m < ed.len() && #[trigger] edge_covers(ed[m], c);
                        assert(edge_targets(ed, c).contains(ed[m].2));
                    }
                    if !dests@.is_empty() {
                        let t = dests@.choose();
                        assert(edge_targets(ed, c).contains(t));
                    }
                }
            }
            let ghost old_result = result@;
            let ghost nonempty = !dests@.is_empty();
            if !dests.is_empty() {
                result.push(((a, b), dests));
                proof {
                    assert(result@ =~= old_result.push(((a, b), dests)));
                    assert(result@[old_result.len() as int].0 == (a, b));
                    assert forall|k1: int, k2: int| 0 <= k1 < k2 < result.len() implies #[trigger] result[k1].0.1 < #[trigger] result[k2].0.0 by {
                        assert(result@[k1] == old_result[k1]);
                        assert(old_result[k1].0.0 <= old_result[k1].0.1 && old_result[k1].0.1 < points@[w - 1]);
                        if k2 < old_result.len() {
                            assert(result@[k2] == old_result[k2]);
                        }
                    }
                }
            }
            proof {
                assert forall|k: int| #![trigger result[k]] 0 <= k < result.len() implies result[k].0.0 <= result[k].0.1
                    && result[k].0.1 < points@[w as int] by {
                    if k < old_result.len() {
                        assert(result@[k] == old_result[k]);
                        assert(old_result[k].0.0 <= old_result[k].0.1 && old_result[k].0.1 < points@[w - 1]);
                    }
                }
                assert forall|c: int| c < points@[w as int] implies (edges_cover(ed, c) <==> exists|k: int|
                    0 <= k < result.len() && #[trigger] window_covers(result[k].0, c)) by {
                    if exists|k: int| 0 <= k < result.len() && #[trigger] window_covers(result[k].0, c) {
                        let k = choose|k: int| 0 <= k < result.len() && #[trigger] window_covers(result[k].0, c);
                        if k < old_result.len() {
                            assert(result@[k] == old_result[k]);
                            assert(old_result[k].0.1 < points@[w - 1]);
                        }
                    }
                    if c < points@[w - 1] {
                        if edges_cover(ed, c) {
                            let k = choose|k: int| 0 <= k < old_result.len() && #[trigger] window_covers(old_result[k].0, c);
                            assert(result@[k] == old_result[k]);
                        }
                    } else {
                        if edges_cover(ed, c) {
                            assert(nonempty);
                            assert(window_covers(result[old_result.len() as int].0, c));
                        }
                    }
                }
            }
            w = w + 1;
        }
        proof {
            assert forall|c: int| edges_cover(ed, c) <==> exists|k: int| 0 <= k < result.len() && #[trigger] window_covers(result[k].0, c) by {
                if c >= points@[np - 1] {
                    if edges_cover(ed, c) {
                        let m = choose|m: int| 0 <= m < ed.len() && #[trigger] edge_covers(ed[m], c);
                        assert(bound_of(ed[m], (ed[m].1 + 1) as u32));
                        assert(points@.contains((ed[m].1 + 1) as u32));
                        let j = choose|j: int| 0 <= j < points@.len() && points@[j] == (ed[m].1 + 1) as u32;
                        if j < np - 1 {
                            assert(points@[j] < points@[np - 1]);
                        }
                    }
                    if exists|k: int| 0 <= k < result.len() && #[trigger] window_covers(result[k].0, c) {
                        let k = choose|k: int| 0 <= k < result.len() && #[trigger] window_covers(result[k].0, c);
                    }
                }
            }
        }
        result
    }
}


/// What state `i` of a subset construction has once its transitions are built: ranges in
/// increasing order, each leading to the state that stands for the closure of what the states
/// of `sets[i]` reach on the symbols of the range; the symbols that no range consumes are those
/// on which these states reach nothing.
pub open spec fn built_state(nfa: Automaton, ts: Seq<Transition>, sets: Seq<Set<StateId>>, i: int, bound: int) -> bool {
    &&& sorted_ranges(ts)
    &&& forall|j: int| 0 <= j < ts.len() ==> #[trigger] ts[j].to < bound
    &&& forall|j: int, c: int| 0 <= j < ts.len() && #[trigger] ts[j].trigger.spec_covers(c)
        ==> sets[ts[j].to as int] == eps_closure(nfa, step(nfa, sets[i], c))
    &&& forall|c: int| #[trigger] consumes(ts, c) || step(nfa, sets[i], c) == Set::<StateId>::empty()
}

/// What the subset construction keeps of the states built so far: `sets[i]` is the set of states
/// of `nfa` that state `i` stands for, as its membership list `members[i]` gives it; the sets are
/// distinct; the first set is the closure of the initial state; a state accepts when one of the
/// states it stands for does; the first `done` states are built and the others have no
/// transitions yet.
pub open spec fn construction(nfa: Automaton, states: Seq<State>, members: Seq<Vec<bool>>, sets: Seq<Set<StateId>>, done: int) -> bool {
    let n = nfa.all_states.len();
    &&& states.len() == members.len()
    &&& sets.len() == members.len()
    &&& 1 <= states.len()
    &&& 0 <= done <= states.len()
    &&& sets.no_duplicates()
    &&& forall|i: int| 0 <= i < sets.len() ==> #[trigger] subsets_below(n as nat).contains(sets[i])
    &&& forall|i: int| 0 <= i < members.len() ==> #[trigger] members[i]@.len() == n && bits_set(members[i]@) == sets[i]
    &&& sets[0] == eps_closure(nfa, set![nfa.initial_state])
    &&& forall|i: int| 0 <= i < states.len() ==> (#[trigger] states[i].accept <==> exists|s: StateId|
        sets[i].contains(s) && s < n && nfa.all_states[s as int].accept)
    &&& forall|i: int| 0 <= i < done ==> #[trigger] built_state(nfa, states[i].transitions@, sets, i, states.len() as int)
    &&& forall|i: int| done <= i < states.len() ==> #[trigger] states[i].transitions@.len() == 0
}

/// A built state stays built when more states are added.
proof fn lemma_built_state_grows(nfa: Automaton, ts: Seq<Transition>, sets: Seq<Set<StateId>>, sets2: Seq<Set<StateId>>, i: int, b1: int, b2: int)
    requires
        built_state(nfa, ts, sets, i, b1),
        0 <= i < sets.len(),
        b1 <= sets.len(),
        b1 <= b2,
        sets.len() <= sets2.len(),
        forall|k: int| 0 <= k < sets.len() ==> sets2[k] == sets[k],
    ensures
        built_state(nfa, ts, sets2, i, b2),
{
    assert forall|j: int, c: int| 0 <= j < ts.len() && #[trigger] ts[j].trigger.spec_covers(c)
        implies sets2[ts[j].to as int] == eps_closure(nfa, step(nfa, sets2[i], c)) by {
        assert(sets2[ts[j].to as int] == sets[ts[j].to as int]);
    }
}

/// A set of distinct sets below `n` has at most as many members as there are such sets.
proof fn lemma_distinct_subsets_bound(sets: Seq<Set<StateId>>, n: nat)
    requires
        n <= usize::MAX + 1,
        sets.no_duplicates(),
        forall|i: int| 0 <= i < sets.len() ==> #[trigger] subsets_below(n).contains(sets[i]),
    ensures
        sets.len() <= subsets_below(n).len(),
{
    lemma_subsets_below_finite(n);
    sets.unique_seq_to_set();
    assert(sets.to_set().subset_of(subsets_below(n))) by {
        assert forall|x: Set<StateId>| sets.to_set().contains(x) implies subsets_below(n).contains(x) by {
            let i = choose|i: int| 0 <= i < sets.len() && sets[i] == x;
        }
    }
    vstd::set_lib::lemma_len_subset(sets.to_set(), subsets_below(n));
}

/// The closure of no state is empty.
proof fn lemma_closure_of_empty(a: Automaton)
    ensures
        eps_closure(a, Set::<StateId>::empty()) == Set::<StateId>::empty(),
{
    assert(eps_closure(a, Set::<StateId>::empty()) =~= Set::<StateId>::empty());
}

/// A list of transitions that is deterministic and complete makes a DFA state, and lists no
/// transition twice.
proof fn lemma_complete_ranges_dfa_state(st: State)
    requires
        complete_ranges(st.transitions@),
    ensures
        st.is_dfa_state(),
        st.transitions@.no_duplicates(),
{
    let ts = st.transitions@;
    assert forall|j: int| 0 <= j < ts.len() implies #[trigger] ts[j].trigger != Trigger::Epsilon by {
        assert(ts[j].trigger is Range);
    }
    lemma_ranges_without_eps(ts);
    let rs = ranges_of(ts);
    assert(!has_overlap(rs)) by {
        if has_overlap(rs) {
            let (i, j) = choose|i: int, j: int| 0 <= i < j < rs.len() && #[trigger] overlap(rs[i], rs[j]) && i < j;
            assert(!overlap(transition_range(ts[i])->Some_0, transition_range(ts[j])->Some_0));
        }
    }
    assert forall|c: int| 0 <= c <= 0xffff implies seq_covers(st.range_seq(), c) by {
        assert(consumes(ts, c));
        let j = choose|j: int| 0 <= j < ts.len() && #[trigger] ts[j].trigger.spec_covers(c);
        assert(covers(rs[j], c));
    }
    assert forall|i: int, j: int| 0 <= i < j < ts.len() implies ts[i] != ts[j] by {
        assert(ts[i].trigger is Range && lo(ts[i]) <= hi(ts[i]));
        assert(!overlap(transition_range(ts[i])->Some_0, transition_range(ts[j])->Some_0));
    }
}

impl Automaton {
    /// Builds a deterministic and complete automaton that accepts the same words of 16-bit
    /// symbols, by the subset construction.
    ///
    /// Each state of the result stands for the epsilon closure of a set of states of `nfa`; the
    /// first one for the closure of the initial state. The states are built in the order in which
    /// they are found, and a last, non-accepting sink state receives the symbols on which a state
    /// would otherwise have no transition.
    pub fn determinize(nfa: &Automaton) -> (dfa: Automaton)
        requires
            nfa.wf(),
        ensures
            dfa.wf(),
            dfa.ranges_valid(),
            dfa.is_dfa(),
            dfa.initial_state == 0,
            dfa.name@ == nfa.name@ + "_dfa"@,
            dfa.all_states.len() <= subsets_below(nfa.all_states.len() as nat).len() + 1,
            exists|sets: Seq<Set<StateId>>| simulates(*nfa, dfa, sets),
            forall|w: Seq<int>| symbols(w) ==> accepts_word(dfa, w) == accepts_word(*nfa, w),
    {
        let n = nfa.all_states.len();
        proof {
            lemma_subsets_below_finite(n as nat);
        }
        let mut init: BTreeSet<StateId> = BTreeSet::new();
        init.insert(nfa.initial_state);
        let init_closure = Automaton::epsilon_closure(&init, nfa);
        let init_bits = subset_bits(&init_closure, n);
        let init_accept = any_accepting(nfa, &init_bits);
        let mut new_states: Vec<State> = Vec::new();
        new_states.push(State { id: numbered("D", 0), accept: init_accept, transitions: Vec::new() });
        let mut members: Vec<Vec<bool>> = Vec::new();
        members.push(init_bits);
        let ghost mut gsets: Seq<Set<StateId>> = seq![init_closure@];
        proof {
            assert(init@ =~= set![nfa.initial_state]);
            assert(bits_set(members@[0]@) =~= gsets[0]);
            assert(subsets_below(n as nat).contains(gsets[0]));
            lemma_distinct_subsets_bound(gsets, n as nat);
        }
        let mut current: usize = 0;
        while current < new_states.len()
            invariant
                nfa.wf(),
                n == nfa.all_states.len(),
                subsets_below(n as nat).finite(),
                new_states.len() <= subsets_below(n as nat).len(),
                construction(*nfa, new_states@, members@, gsets, current as int),
            decreases subsets_below(n as nat).len() - new_states.len(), new_states.len() - current,
        {
            let edges = collect_edges(nfa, &members[current]);
            let parts = Automaton::partition_ranges(&edges);
            let ghost cur_set = gsets[current as int];
            let ghost len0 = new_states.len();
            let mut trans: Vec<Transition> = Vec::new();
            for k in 0..parts.len()
                invariant
                    len0 <= new_states.len(),
                    nfa.wf(),
                    n == nfa.all_states.len(),
                    subsets_below(n as nat).finite(),
                    new_states.len() <= subsets_below(n as nat).len(),
                    construction(*nfa, new_states@, members@, gsets, current as int),
                    current < new_states.len(),
                    cur_set == gsets[current as int],
                    forall|i: int| 0 <= i < edges.len() ==> #[trigger] edges@[i].2 < n,
                    forall|c: int| #[trigger] edge_targets(edges@, c) == step(*nfa, cur_set, c),
                    forall|m: int| 0 <= m < parts.len() ==> #[trigger] parts[m].0.0 <= parts[m].0.1,
                    forall|m1: int, m2: int| 0 <= m1 < m2 < parts.len() ==> #[trigger] parts[m1].0.1 < #[trigger] parts[m2].0.0,
                    forall|c: int| edges_cover(edges@, c) <==> exists|m: int| 0 <= m < parts.len() && #[trigger] window_covers(parts[m].0, c),
                    forall|m: int, c: int| 0 <= m < parts.len() && #[trigger] window_covers(parts[m].0, c) ==> parts[m].1@ == edge_targets(edges@, c),
                    trans@.len() == k,
                    forall|m: int| 0 <= m < k ==> #[trigger] trans@[m].trigger == Trigger::Range(parts[m].0.0, parts[m].0.1)
                        && trans@[m].to < new_states.len()
                        && gsets[trans@[m].to as int] == eps_closure(*nfa, parts[m].1@),
            {
                proof {
                    assert(window_covers(parts[k as int].0, parts[k as int].0.0 as int));
                    assert forall|t: StateId| parts[k as int].1@.contains(t) implies t < n by {
                        let c = parts[k as int].0.0 as int;
                        assert(edge_targets(edges@, c).contains(t));
                        let i = choose|i: int| 0 <= i < edges.len() && #[trigger] edge_covers(edges@[i], c) && edges@[i].2 == t;
                    }
                }
                let closure = Automaton::epsilon_closure(&parts[k].1, nfa);
                let bits = subset_bits(&closure, n);
                let ghost cl = closure@;
                proof {
                    assert(bits_set(bits@) =~= cl);
                }
                let ghost sets_before = gsets;
                let found = find_subset(&members, &bits);
                let dest_id: StateId = match found {
                    Some(id) => {
                        proof {
                            assert(gsets[id as int] == cl);
                        }
                        id
                    },
                    None => {
                        let new_id = new_states.len();
                        let accept = any_accepting(nfa, &bits);
                        let ghost old_states = new_states@;
                        let ghost old_members = members@;
                        let ghost old_sets = gsets;
                        new_states.push(State { id: numbered("D", new_id), accept, transitions: Vec::new() });
                        members.push(bits);
                        proof {
                            gsets = gsets.push(cl);
                            assert forall|i: int| 0 <= i < old_sets.len() implies old_sets[i] != cl by {
                                assert(old_members[i]@ != bits@);
                                if old_sets[i] == cl {
                                    assert(old_members[i]@ =~= bits@);
                                }
                            }
                            assert(gsets.no_duplicates()) by {
                                assert forall|i: int, j: int| 0 <= i < j < gsets.len() implies gsets[i] != gsets[j] by {
                                    if j == old_sets.len() {
                                        assert(gsets[i] == old_sets[i]);
                                    } else {
                                        assert(gsets[i] == old_sets[i] && gsets[j] == old_sets[j]);
                                    }
                                }
                            }
                            assert forall|i: int| 0 <= i < gsets.len() implies #[trigger] subsets_below(n as nat).contains(gsets[i]) by {
                                if i < old_sets.len() {
                                    assert(gsets[i] == old_sets[i]);
                                }
                            }
                            lemma_distinct_subsets_bound(gsets, n as nat);
                            assert forall|i: int| 0 <= i < members@.len() implies #[trigger] members@[i]@.len() == n
                                && bits_set(members@[i]@) == gsets[i] by {
                                if i < old_members.len() {
                                    assert(members@[i] == old_members[i]);
                                }
                            }
                            assert forall|i: int| 0 <= i < new_states@.len() implies (#[trigger] new_states@[i].accept <==> exists|s: StateId|
                                gsets[i].contains(s) && s < n && nfa.all_states[s as int].accept) by {
                                if i < old_states.len() {
                                    assert(new_states@[i] == old_states[i]);
                                    assert(gsets[i] == old_sets[i]);
                                } else {
                                    assert(new_states@[i].accept == accept);
                                    assert(gsets[i] == cl);
                                }
                            }
                            assert forall|i: int| 0 <= i < current implies #[trigger] built_state(*nfa, new_states@[i].transitions@, gsets, i, new_states@.len() as int) by {
                                assert(new_states@[i] == old_states[i]);
                                lemma_built_state_grows(*nfa, old_states[i].transitions@, old_sets, gsets, i,
                                    old_states.len() as int, new_states@.len() as int);
                            }
                            assert forall|i: int| current <= i < new_states@.len() implies #[trigger] new_states@[i].transitions@.len() == 0 by {
                                if i < old_states.len() {
                                    assert(new_states@[i] == old_states[i]);
                                }
                            }
                            assert(gsets[0] == old_sets[0]);
                            assert(gsets[current as int] == old_sets[current as int]);
                            assert forall|x: int| 0 <= x < old_sets.len() implies gsets[x] == old_sets[x] by {}
                        }
                        new_id
                    },
                };
                let ghost old_trans = trans@;
                trans.push(Transition { to: dest_id, trigger: Trigger::Range(parts[k].0.0, parts[k].0.1) });
                proof {
                    assert(sets_before.len() <= gsets.len());
                    assert(forall|x: int| 0 <= x < sets_before.len() ==> gsets[x] == sets_before[x]);
                    assert forall|m: int| 0 <= m < k + 1 implies #[trigger] trans@[m].trigger == Trigger::Range(parts[m].0.0, parts[m].0.1)
                        && trans@[m].to < new_states.len()
                        && gsets[trans@[m].to as int] == eps_closure(*nfa, parts[m].1@) by {
                        if m < k {
                            assert(trans@[m] == old_trans[m]);
                            assert(gsets[trans@[m].to as int] == sets_before[trans@[m].to as int]);
                        }
                    }
                }
            }
            proof {
                let ts = trans@;
                assert forall|j: int| 0 <= j < ts.len() implies #[trigger] ts[j].to < new_states@.len() by {
                    assert(ts[j].trigger == Trigger::Range(parts[j].0.0, parts[j].0.1));
                }
                assert forall|j: int| 0 <= j < ts.len() implies #[trigger] ts[j].trigger is Range && lo(ts[j]) <= hi(ts[j]) by {
                    assert(ts[j].trigger == Trigger::Range(parts[j].0.0, parts[j].0.1));
                }
                assert forall|j1: int, j2: int| 0 <= j1 < j2 < ts.len() implies hi(#[trigger] ts[j1]) < lo(#[trigger] ts[j2]) by {
                    assert(ts[j1].trigger == Trigger::Range(parts[j1].0.0, parts[j1].0.1));
                    assert(ts[j2].trigger == Trigger::Range(parts[j2].0.0, parts[j2].0.1));
                }
                assert forall|j: int, c: int| 0 <= j < ts.len() && #[trigger] ts[j].trigger.spec_covers(c)
                    implies gsets[ts[j].to as int] == eps_closure(*nfa, step(*nfa, gsets[current as int], c)) by {
                    assert(ts[j].trigger == Trigger::Range(parts[j].0.0, parts[j].0.1));
                    assert(window_covers(parts[j].0, c));
                }
                assert forall|c: int| #[trigger] consumes(ts, c) || step(*nfa, gsets[current as int], c) == Set::<StateId>::empty() by {
                    if !consumes(ts, c) {
                        if edges_cover(edges@, c) {
                            let m = choose|m: int| 0 <= m < parts.len() && #[trigger] window_covers(parts[m].0, c);
                            assert(ts[m].trigger == Trigger::Range(parts[m].0.0, parts[m].0.1));
                            assert(ts[m].trigger.spec_covers(c));
                        }
                        assert(edge_targets(edges@, c) =~= Set::<StateId>::empty());
                    }
                }
                assert(built_state(*nfa, ts, gsets, current as int, new_states@.len() as int));
            }
            let ghost before_set = new_states@;
            let updated = State {
                id: new_states[current].id.clone(),
                accept: new_states[current].accept,
                transitions: trans,
            };
            new_states.set(current, updated);
            proof {
                assert forall|i: int| 0 <= i < new_states@.len() implies (#[trigger] new_states@[i].accept <==> exists|s: StateId|
                    gsets[i].contains(s) && s < n && nfa.all_states[s as int].accept) by {
                    assert(new_states@[i].accept == before_set[i].accept);
                }
                assert forall|i: int| 0 <= i < current + 1 implies #[trigger] built_state(*nfa, new_states@[i].transitions@, gsets, i, new_states@.len() as int) by {
                    if i < current {
                        assert(new_states@[i] == before_set[i]);
                    }
                }
                assert forall|i: int| current + 1 <= i < new_states@.len() implies #[trigger] new_states@[i].transitions@.len() == 0 by {
                    assert(new_states@[i] == before_set[i]);
                }
            }
            current += 1;
        }
        let sink_id = new_states.len();
        assert(sink_id <= subsets_below(n as nat).len());
        let ghost final_sets = gsets.push(Set::<StateId>::empty());
        let mut dfa_states: Vec<State> = Vec::new();
        for i in 0..sink_id
            invariant
                sink_id == new_states.len(),
                n == nfa.all_states.len(),
                construction(*nfa, new_states@, members@, gsets, sink_id as int),
                final_sets == gsets.push(Set::<StateId>::empty()),
                dfa_states@.len() == i,
                forall|m: int| 0 <= m < i ==> (#[trigger] dfa_states@[m]).accept == new_states@[m].accept
                    && complete_ranges(dfa_states@[m].transitions@)
                    && (forall|j: int| 0 <= j < dfa_states@[m].transitions@.len() ==> #[trigger] dfa_states@[m].transitions@[j].to <= sink_id)
                    && (forall|j: int, c: int| 0 <= j < dfa_states@[m].transitions@.len()
                        && #[trigger] dfa_states@[m].transitions@[j].trigger.spec_covers(c)
                        ==> final_sets[dfa_states@[m].transitions@[j].to as int] == eps_closure(*nfa, step(*nfa, final_sets[m], c))),
        {
            let st = &new_states[i];
            assert(built_state(*nfa, st.transitions@, gsets, i as int, sink_id as int));
            let ts = complete_to_sink(&st.transitions, sink_id);
            let ghost old_dfa = dfa_states@;
            let completed = State { id: st.id.clone(), accept: st.accept, transitions: ts };
            dfa_states.push(completed);
            proof {
                let old_ts = st.transitions@;
                assert forall|j: int, c: int| 0 <= j < ts@.len() && #[trigger] ts@[j].trigger.spec_covers(c)
                    implies final_sets[ts@[j].to as int] == eps_closure(*nfa, step(*nfa, final_sets[i as int], c)) by {
                    assert(final_sets[i as int] == gsets[i as int]);
                    if j < old_ts.len() {
                        assert(ts@[j] == old_ts[j]);
                        assert(final_sets[ts@[j].to as int] == gsets[ts@[j].to as int]);
                    } else {
                        assert(!consumes(old_ts, c));
                        assert(step(*nfa, gsets[i as int], c) == Set::<StateId>::empty());
                        lemma_closure_of_empty(*nfa);
                    }
                }
                assert forall|j: int| 0 <= j < ts@.len() implies #[trigger] ts@[j].to <= sink_id by {
                    if j < old_ts.len() {
                        assert(ts@[j] == old_ts[j]);
                    }
                }
                assert forall|m: int| 0 <= m < i + 1 implies (#[trigger] dfa_states@[m]).accept == new_states@[m].accept
                    && complete_ranges(dfa_states@[m].transitions@)
                    && (forall|j: int| 0 <= j < dfa_states@[m].transitions@.len() ==> #[trigger] dfa_states@[m].transitions@[j].to <= sink_id)
                    && (forall|j: int, c: int| 0 <= j < dfa_states@[m].transitions@.len()
                        && #[trigger] dfa_states@[m].transitions@[j].trigger.spec_covers(c)
                        ==> final_sets[dfa_states@[m].transitions@[j].to as int] == eps_closure(*nfa, step(*nfa, final_sets[m], c))) by {
                    if m < i {
                        assert(dfa_states@[m] == old_dfa[m]);
                    }
                }
            }
        }
        let mut sink_transitions: Vec<Transition> = Vec::new();
        sink_transitions.push(Transition { to: sink_id, trigger: Trigger::Range(0, 0xffff) });
        let ghost before_sink = dfa_states@;
        dfa_states.push(State { id: numbered("D", sink_id), accept: false, transitions: sink_transitions });
        let dfa = Automaton { name: suffixed(nfa.name.as_str(), "_dfa"), all_states: dfa_states, initial_state: 0 };
        proof {
            reveal_strlit("_dfa");
            let sts = dfa.all_states@;
            assert forall|m: int| 0 <= m < sts.len() implies complete_ranges(#[trigger] sts[m].transitions@) by {
                if m < sink_id {
                    assert(sts[m] == before_sink[m]);
                } else {
                    let ts = sts[m].transitions@;
                    assert(ts.len() == 1);
                    assert forall|c: int| 0 <= c <= 0xffff implies consumes(ts, c) by {
                        assert(ts[0].trigger.spec_covers(c));
                    }
                }
            }
            assert forall|m: int| 0 <= m < sts.len() implies #[trigger] sts[m].is_dfa_state() by {
                lemma_complete_ranges_dfa_state(sts[m]);
            }
            assert forall|m: int| 0 <= m < dfa.all_states.len() implies #[trigger] dfa.all_states[m].transitions@.no_duplicates() by {
                lemma_complete_ranges_dfa_state(sts[m]);
            }
            assert forall|s: int, j: int| 0 <= s < sts.len() && 0 <= j < sts[s].transitions.len()
                implies #[trigger] sts[s].transitions[j].to < sts.len() by {
                if s < sink_id {
                    assert(sts[s] == before_sink[s]);
                }
            }
            assert forall|s: int, j: int| 0 <= s < sts.len() && 0 <= j < sts[s].transitions.len()
                implies (#[trigger] sts[s].transitions[j].trigger matches Trigger::Range(l, r) ==> l <= r) by {
                assert(complete_ranges(sts[s].transitions@));
                assert(sts[s].transitions@[j].trigger is Range && lo(sts[s].transitions@[j]) <= hi(sts[s].transitions@[j]));
            }
            assert(final_sets.len() == sts.len());
            assert forall|i: int, j: int, c: int| 0 <= i < sts.len() && 0 <= j < sts[i].transitions.len()
                && #[trigger] sts[i].transitions@[j].trigger.spec_covers(c)
                implies final_sets[sts[i].transitions@[j].to as int] == eps_closure(*nfa, step(*nfa, final_sets[i], c)) by {
                if i < sink_id {
                    assert(sts[i] == before_sink[i]);
                } else {
                    assert(sts[i].transitions@[j].to == sink_id);
                    assert(step(*nfa, final_sets[i], c) =~= Set::<StateId>::empty());
                    lemma_closure_of_empty(*nfa);
                }
            }
            assert forall|i: int| 0 <= i < sts.len() implies (#[trigger] sts[i].accept <==> exists|s: StateId|
                final_sets[i].contains(s) && s < nfa.all_states.len() && nfa.all_states[s as int].accept) by {
                if i < sink_id {
                    assert(sts[i] == before_sink[i]);
                    assert(final_sets[i] == gsets[i]);
                }
            }
            assert(final_sets[0] == gsets[0]);
            assert(simulates(*nfa, dfa, final_sets));
            assert forall|w: Seq<int>| symbols(w) implies accepts_word(dfa, w) == accepts_word(*nfa, w) by {
                lemma_simulation_preserves_language(*nfa, dfa, final_sets, w);
            }
        }
        dfa
    }
}

} // verus!
