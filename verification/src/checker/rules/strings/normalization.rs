//! The flat form of string concatenations, in which nested `str.++` applications are dissolved
//! and string constants are split into their characters.

use vstd::prelude::*;
use vstd::string::StrSliceExecFns;

use crate::ast::polyeq::{polyeq, polyeq_terms};
use crate::ast::pool::{
    bindings_eq, children, children_below, extends, is_op, is_string, lemma_extends_trans, sorted_vars_eq, term_eq,
    PrimitivePool,
};
use crate::ast::sort::lemma_sort_eq_trans;
use crate::ast::{sort_eq, Constant, Operator, Sort, Term, TermId};
use crate::error::CheckerError;
use crate::text::char_text;

verus! {

/// A piece of a string in flat form: a single character, by its code, or a term that is neither a string
/// constant nor a concatenation.
pub enum Piece {
    Letter(u32),
    Whole(TermId),
}

/// The piece that the term `id` stands for in flat form: its character if it is a string
/// constant of one character, and itself otherwise.
pub open spec fn piece_of(pool: PrimitivePool, id: TermId) -> Piece {
    match pool.node(id) {
        Term::Const(Constant::String(s)) => if s@.len() == 1 { Piece::Letter(s@[0] as u32) } else { Piece::Whole(id) },
        _ => Piece::Whole(id),
    }
}

/// The pieces that the terms `ids` stand for.
pub open spec fn pieces_of(pool: PrimitivePool, ids: Seq<TermId>) -> Seq<Piece> {
    ids.map_values(|i: TermId| piece_of(pool, i))
}

/// The characters of `s`, as pieces.
pub open spec fn char_pieces(s: Seq<char>) -> Seq<Piece>
    decreases s.len(),
{
    if s.len() == 0 {
        Seq::empty()
    } else {
        char_pieces(s.drop_last()).push(Piece::Letter(s.last() as u32))
    }
}

/// The flat form of the term `t`: the characters of a string constant, the flat forms of the
/// arguments of a concatenation one after the other, and the term itself otherwise.
pub open spec fn flat_pieces(pool: PrimitivePool, t: TermId) -> Seq<Piece>
    decreases t, children(pool.node(t)).len() + 1,
{
    match pool.node(t) {
        Term::Const(Constant::String(s)) => char_pieces(s@),
        Term::Op(op, args) => if op == Operator::StrConcat {
            flat_pieces_list(pool, args@, t, args@.len() as int)
        } else {
            seq![Piece::Whole(t)]
        },
        _ => seq![Piece::Whole(t)],
    }
}

/// The flat forms of the first `n` terms of `args`, one after the other; `bound` bounds the
/// indices of the terms, which are subterms of the term at `bound`.
pub open spec fn flat_pieces_list(pool: PrimitivePool, args: Seq<TermId>, bound: TermId, n: int) -> Seq<Piece>
    decreases bound, n,
{
    if n <= 0 || n > args.len() {
        Seq::empty()
    } else {
        flat_pieces_list(pool, args, bound, n - 1) + (if args[n - 1] < bound {
            flat_pieces(pool, args[n - 1])
        } else {
            seq![Piece::Whole(args[n - 1])]
        })
    }
}

/// The terms of the term `t` with concatenations dissolved, but string constants kept whole and
/// empty ones left out.
pub open spec fn unsplit_terms(pool: PrimitivePool, t: TermId) -> Seq<TermId>
    decreases t, children(pool.node(t)).len() + 1,
{
    match pool.node(t) {
        Term::Const(Constant::String(s)) => if s@.len() == 0 { Seq::empty() } else { seq![t] },
        Term::Op(op, args) => if op == Operator::StrConcat {
            unsplit_terms_list(pool, args@, t, args@.len() as int)
        } else {
            seq![t]
        },
        _ => seq![t],
    }
}

/// `unsplit_terms` of the first `n` terms of `args`, one after the other.
pub open spec fn unsplit_terms_list(pool: PrimitivePool, args: Seq<TermId>, bound: TermId, n: int) -> Seq<TermId>
    decreases bound, n,
{
    if n <= 0 || n > args.len() {
        Seq::empty()
    } else {
        unsplit_terms_list(pool, args, bound, n - 1) + (if args[n - 1] < bound {
            unsplit_terms(pool, args[n - 1])
        } else {
            seq![args[n - 1]]
        })
    }
}

/// The pieces of a prefix of a string.
proof fn lemma_char_pieces_take(s: Seq<char>, n: int)
    requires
        0 <= n <= s.len(),
    ensures
        n == 0 ==> char_pieces(s.take(n)) =~= Seq::<Piece>::empty(),
        n > 0 ==> char_pieces(s.take(n)) =~= char_pieces(s.take(n - 1)).push(Piece::Letter(s[n - 1] as u32)),
{
    if n > 0 {
        assert(s.take(n).drop_last() =~= s.take(n - 1));
        assert(s.take(n).last() == s.take(n)[n - 1]);
        assert(s.take(n)[n - 1] == s[n - 1]);
    }
}

/// The pieces of a string are as many as its characters.
proof fn lemma_char_pieces_len(s: Seq<char>)
    ensures
        char_pieces(s).len() == s.len(),
    decreases s.len(),
{
    if s.len() > 0 {
        lemma_char_pieces_len(s.drop_last());
    }
}

/// `expanded_upto` over a prefix holds of any extension of the expanded list.
proof fn lemma_expanded_upto_prefix(p: PrimitivePool, args: Seq<TermId>, a: Seq<TermId>, b: Seq<TermId>, bound: TermId, n: int)
    requires
        0 <= n <= a.len() <= b.len(),
        forall|k: int| 0 <= k < a.len() ==> #[trigger] b[k] == a[k],
        expanded_upto(p, args, a, bound, n),
    ensures
        expanded_upto(p, args, b, bound, n),
    decreases n,
{
    if 0 < n <= args.len() {
        lemma_expanded_upto_prefix(p, args, a, b, bound, n - 1);
        assert(b[n - 1] == a[n - 1]);
    }
}

/// `expanded_cases_upto` over a prefix holds of any extension of the expanded cases.
proof fn lemma_expanded_cases_prefix(p: PrimitivePool, cases: Seq<(TermId, TermId)>, a: Seq<(TermId, TermId)>, b: Seq<(TermId, TermId)>, bound: TermId, n: int)
    requires
        0 <= n <= a.len() <= b.len(),
        forall|k: int| 0 <= k < a.len() ==> #[trigger] b[k] == a[k],
        expanded_cases_upto(p, cases, a, bound, n),
    ensures
        expanded_cases_upto(p, cases, b, bound, n),
    decreases n,
{
    if 0 < n <= cases.len() {
        lemma_expanded_cases_prefix(p, cases, a, b, bound, n - 1);
        assert(b[n - 1] == a[n - 1]);
    }
}

/// Pieces do not change when the pool grows.
proof fn lemma_pieces_stable(p2: PrimitivePool, p1: PrimitivePool, ids: Seq<TermId>)
    requires
        extends(p2, p1),
        forall|k: int| 0 <= k < ids.len() ==> #[trigger] ids[k] < p1.size(),
    ensures
        pieces_of(p2, ids) == pieces_of(p1, ids),
{
    assert forall|k: int| 0 <= k < ids.len() implies #[trigger] pieces_of(p2, ids)[k] == pieces_of(p1, ids)[k] by {
        assert(p2.node(ids[k]) == p1.node(ids[k]));
    }
    assert(pieces_of(p2, ids) =~= pieces_of(p1, ids));
}

/// Flat forms do not change when the pool grows.
proof fn lemma_flat_stable(p2: PrimitivePool, p1: PrimitivePool, t: TermId)
    requires
        extends(p2, p1),
        p1.wf(),
        t < p1.size(),
    ensures
        flat_pieces(p2, t) == flat_pieces(p1, t),
    decreases t, children(p1.node(t)).len() + 1,
{
    assert(p2.node(t) == p1.node(t));
    p1.lemma_children_below(t);
    if let Term::Op(op, args) = p1.node(t) {
        if op == Operator::StrConcat {
            lemma_flat_list_stable(p2, p1, args@, t, args@.len() as int);
        }
    }
}

proof fn lemma_flat_list_stable(p2: PrimitivePool, p1: PrimitivePool, args: Seq<TermId>, bound: TermId, n: int)
    requires
        extends(p2, p1),
        p1.wf(),
        bound < p1.size(),
        forall|k: int| 0 <= k < args.len() ==> #[trigger] args[k] < bound,
    ensures
        flat_pieces_list(p2, args, bound, n) == flat_pieces_list(p1, args, bound, n),
    decreases bound, n,
{
    if 0 < n <= args.len() {
        lemma_flat_list_stable(p2, p1, args, bound, n - 1);
        lemma_flat_stable(p2, p1, args[n - 1]);
    }
}

/// The term `r` is the term `t` with its string constants split and its concatenations
/// flattened, everywhere in it: a string constant of two characters or more becomes the
/// concatenation of its characters; a concatenation becomes the concatenation of the flat form of
/// its arguments, whose terms that are neither string constants nor concatenations are expanded in
/// turn; any other application, binder, `let` or `match` keeps its head and has each of
/// its subterms (the bodies, for `let` and binders, and the matched term and the bodies, for
/// `match`) expanded; variables and other constants stay as they are.
pub open spec fn expanded(p: PrimitivePool, t: TermId, r: TermId) -> bool
    decreases t, children(p.node(t)).len() + 1,
{
    &&& r < p.size()
    &&& match p.node(t) {
        Term::Const(Constant::String(s)) => if s@.len() == 0 {
            is_string(p, r, s@)
        } else if s@.len() == 1 {
            piece_of(p, r) == Piece::Letter(s@[0] as u32)
        } else {
            p.node(r) matches Term::Op(o, a) && o == Operator::StrConcat && a@.len() == s@.len()
                && pieces_of(p, a@) == char_pieces(s@)
        },
        Term::Op(op, args) => if op == Operator::StrConcat {
            p.node(r) matches Term::Op(o, a) && o == Operator::StrConcat
                && template_expanded(p, a@, flat_pieces_list(p, args@, t, args@.len() as int), t as int)
        } else {
            p.node(r) matches Term::Op(o, a) && o == op && a@.len() == args@.len()
                && expanded_upto(p, args@, a@, t, args@.len() as int)
        },
        Term::App(f, args) => p.node(r) matches Term::App(g, a) && g == f && a@.len() == args@.len()
            && expanded_upto(p, args@, a@, t, args@.len() as int),
        Term::ParamOp { op, op_args, args } => p.node(r) matches Term::ParamOp { op: o, op_args: oa, args: a } && o == op
            && oa@ == op_args@ && a@.len() == args@.len() && expanded_upto(p, args@, a@, t, args@.len() as int),
        Term::AsOp(op, srt, args) => p.node(r) matches Term::AsOp(o, s2, a) && o == op && sort_eq(s2, srt)
            && a@.len() == args@.len() && expanded_upto(p, args@, a@, t, args@.len() as int),
        Term::Let(bs, inner) => p.node(r) matches Term::Let(cs, r2) && bindings_eq(cs@, bs@) && inner < t && expanded(p, inner, r2),
        Term::Binder(q, vs, inner) => p.node(r) matches Term::Binder(q2, ws, r2) && q2 == q && sorted_vars_eq(ws@, vs@)
            && inner < t && expanded(p, inner, r2),
        Term::Match(t0, cases) => p.node(r) matches Term::Match(u0, ds) && t0 < t && expanded(p, t0, u0)
            && ds@.len() == cases@.len() && expanded_cases_upto(p, cases@, ds@, t, cases@.len() as int),
        _ => r == t,
    }
}

/// The terms `rs` follow the pieces `tmpl`: a character piece is a constant of that character,
/// and a piece that stands for a term `x` below `bound` is an expanded form of `x`.
pub open spec fn template_expanded(p: PrimitivePool, rs: Seq<TermId>, tmpl: Seq<Piece>, bound: int) -> bool
    decreases bound, 0nat,
{
    &&& rs.len() == tmpl.len()
    &&& forall|k: int| #![trigger rs[k]] 0 <= k < rs.len() ==> rs[k] < p.size() && match tmpl[k] {
        Piece::Letter(c) => piece_of(p, rs[k]) == Piece::Letter(c),
        Piece::Whole(x) => x < bound && expanded(p, x, rs[k]),
    }
}

/// The first `n` terms of `a` are the terms of `args` expanded, as `expanded` says.
pub open spec fn expanded_upto(p: PrimitivePool, args: Seq<TermId>, a: Seq<TermId>, bound: TermId, n: int) -> bool
    decreases bound, n,
{
    if n <= 0 || n > args.len() {
        true
    } else {
        expanded_upto(p, args, a, bound, n - 1) && args[n - 1] < bound && expanded(p, args[n - 1], a[n - 1])
    }
}

/// The first `n` cases of `ds` are those of `cases`, with the same patterns and expanded bodies.
pub open spec fn expanded_cases_upto(p: PrimitivePool, cases: Seq<(TermId, TermId)>, ds: Seq<(TermId, TermId)>, bound: TermId, n: int) -> bool
    decreases bound, n,
{
    if n <= 0 || n > cases.len() {
        true
    } else {
        expanded_cases_upto(p, cases, ds, bound, n - 1) && ds[n - 1].0 == cases[n - 1].0
            && cases[n - 1].1 < bound && expanded(p, cases[n - 1].1, ds[n - 1].1)
    }
}

/// Terms that follow a list of pieces still do when the pool grows.
proof fn lemma_template_stable(p2: PrimitivePool, p1: PrimitivePool, rs: Seq<TermId>, tmpl: Seq<Piece>, bound: int)
    requires
        extends(p2, p1),
        p1.wf(),
        template_expanded(p1, rs, tmpl, bound),
        bound <= p1.size(),
    ensures
        template_expanded(p2, rs, tmpl, bound),
    decreases bound, 0nat,
{
    assert forall|k: int| #![trigger rs[k]] 0 <= k < rs.len() implies rs[k] < p2.size() && match tmpl[k] {
        Piece::Letter(c) => piece_of(p2, rs[k]) == Piece::Letter(c),
        Piece::Whole(x) => x < bound && expanded(p2, x, rs[k]),
    } by {
        assert(p2.node(rs[k]) == p1.node(rs[k]));
        if let Piece::Whole(x) = tmpl[k] {
            lemma_expanded_stable(p2, p1, x, rs[k]);
        }
    }
}

/// Terms that follow a list of pieces whose terms are below a bound also do for a larger bound.
proof fn lemma_template_bound(p: PrimitivePool, rs: Seq<TermId>, tmpl: Seq<Piece>, b1: int, b2: int)
    requires
        template_expanded(p, rs, tmpl, b1),
        b1 <= b2,
    ensures
        template_expanded(p, rs, tmpl, b2),
{
    assert forall|k: int| #![trigger rs[k]] 0 <= k < rs.len() implies rs[k] < p.size() && match tmpl[k] {
        Piece::Letter(c) => piece_of(p, rs[k]) == Piece::Letter(c),
        Piece::Whole(x) => x < b2 && expanded(p, x, rs[k]),
    } by {
    }
}

/// Two lists of terms that follow two lists of pieces follow them one after the other.
proof fn lemma_template_concat(p: PrimitivePool, r1: Seq<TermId>, t1: Seq<Piece>, r2: Seq<TermId>, t2: Seq<Piece>, b: int)
    requires
        template_expanded(p, r1, t1, b),
        template_expanded(p, r2, t2, b),
    ensures
        template_expanded(p, r1 + r2, t1 + t2, b),
{
    let rs = r1 + r2;
    let ts = t1 + t2;
    assert forall|k: int| #![trigger rs[k]] 0 <= k < rs.len() implies rs[k] < p.size() && match ts[k] {
        Piece::Letter(c) => piece_of(p, rs[k]) == Piece::Letter(c),
        Piece::Whole(x) => x < b && expanded(p, x, rs[k]),
    } by {
        if k < r1.len() {
            assert(rs[k] == r1[k] && ts[k] == t1[k]);
        } else {
            let m = k - r1.len();
            assert(rs[k] == r2[m] && ts[k] == t2[m]);
        }
    }
}

/// The characters of a string, as pieces, are character pieces.
proof fn lemma_char_pieces_letters(s: Seq<char>)
    ensures
        forall|k: int| 0 <= k < char_pieces(s).len() ==> #[trigger] char_pieces(s)[k] is Letter,
        char_pieces(s).len() == s.len(),
    decreases s.len(),
{
    if s.len() > 0 {
        lemma_char_pieces_letters(s.drop_last());
    }
}

/// Terms whose pieces are the characters of a string follow those pieces.
proof fn lemma_template_chars(p: PrimitivePool, rs: Seq<TermId>, s: Seq<char>, b: int)
    requires
        pieces_of(p, rs) == char_pieces(s),
        forall|k: int| 0 <= k < rs.len() ==> #[trigger] rs[k] < p.size(),
    ensures
        template_expanded(p, rs, char_pieces(s), b),
{
    lemma_char_pieces_letters(s);
    assert forall|k: int| #![trigger rs[k]] 0 <= k < rs.len() implies rs[k] < p.size() && match char_pieces(s)[k] {
        Piece::Letter(c) => piece_of(p, rs[k]) == Piece::Letter(c),
        Piece::Whole(x) => x < b && expanded(p, x, rs[k]),
    } by {
        assert(pieces_of(p, rs)[k] == piece_of(p, rs[k]));
        assert(char_pieces(s)[k] is Letter);
    }
}

/// Expansions stay true when the pool grows.
proof fn lemma_expanded_stable(p2: PrimitivePool, p1: PrimitivePool, t: TermId, r: TermId)
    requires
        extends(p2, p1),
        p1.wf(),
        t < p1.size(),
        expanded(p1, t, r),
    ensures
        expanded(p2, t, r),
    decreases t, children(p1.node(t)).len() + 1,
{
    assert(p2.node(t) == p1.node(t));
    assert(p2.node(r) == p1.node(r));
    p1.lemma_children_below(t);
    match p1.node(t) {
        Term::Const(Constant::String(s)) => {
            if s@.len() > 1 {
                if let Term::Op(o, a) = p1.node(r) {
                    p1.lemma_children_below(r);
                    assert(children(p1.node(r)) == a@);
                    lemma_pieces_stable(p2, p1, a@);
                }
            }
        },
        Term::Op(op, args) => {
            if op == Operator::StrConcat {
                if let Term::Op(o, a) = p1.node(r) {
                    lemma_flat_list_stable(p2, p1, args@, t, args@.len() as int);
                    lemma_template_stable(p2, p1, a@, flat_pieces_list(p1, args@, t, args@.len() as int), t as int);
                }
            } else {
                if let Term::Op(o, a) = p1.node(r) {
                    lemma_expanded_upto_stable(p2, p1, args@, a@, t, args@.len() as int);
                }
            }
        },
        Term::App(f, args) => {
            if let Term::App(g, a) = p1.node(r) {
                lemma_expanded_upto_stable(p2, p1, args@, a@, t, args@.len() as int);
            }
        },
        Term::ParamOp { op, op_args, args } => {
            if let Term::ParamOp { op: o, op_args: oa, args: a } = p1.node(r) {
                lemma_expanded_upto_stable(p2, p1, args@, a@, t, args@.len() as int);
            }
        },
        Term::AsOp(op, srt, args) => {
            if let Term::AsOp(o, s2, a) = p1.node(r) {
                lemma_expanded_upto_stable(p2, p1, args@, a@, t, args@.len() as int);
            }
        },
        Term::Let(bs, inner) => {
            if let Term::Let(cs, r2) = p1.node(r) {
                lemma_expanded_stable(p2, p1, inner, r2);
            }
        },
        Term::Binder(q, vs, inner) => {
            if let Term::Binder(q2, ws, r2) = p1.node(r) {
                lemma_expanded_stable(p2, p1, inner, r2);
            }
        },
        Term::Match(t0, cases) => {
            if let Term::Match(u0, ds) = p1.node(r) {
                lemma_expanded_stable(p2, p1, t0, u0);
                lemma_expanded_cases_stable(p2, p1, cases@, ds@, t, cases@.len() as int);
            }
        },
        _ => {},
    }
}

proof fn lemma_expanded_upto_stable(p2: PrimitivePool, p1: PrimitivePool, args: Seq<TermId>, a: Seq<TermId>, bound: TermId, n: int)
    requires
        extends(p2, p1),
        p1.wf(),
        bound < p1.size(),
        expanded_upto(p1, args, a, bound, n),
    ensures
        expanded_upto(p2, args, a, bound, n),
    decreases bound, n,
{
    if 0 < n <= args.len() {
        lemma_expanded_upto_stable(p2, p1, args, a, bound, n - 1);
        lemma_expanded_stable(p2, p1, args[n - 1], a[n - 1]);
    }
}

proof fn lemma_expanded_cases_stable(p2: PrimitivePool, p1: PrimitivePool, cases: Seq<(TermId, TermId)>, ds: Seq<(TermId, TermId)>, bound: TermId, n: int)
    requires
        extends(p2, p1),
        p1.wf(),
        bound < p1.size(),
        expanded_cases_upto(p1, cases, ds, bound, n),
    ensures
        expanded_cases_upto(p2, cases, ds, bound, n),
    decreases bound, n,
{
    if 0 < n <= cases.len() {
        lemma_expanded_cases_stable(p2, p1, cases, ds, bound, n - 1);
        lemma_expanded_stable(p2, p1, cases[n - 1].1, ds[n - 1].1);
    }
}

/// A copy of a list of sorted variables.
fn copy_sorted_vars(v: &Vec<(String, Sort)>) -> (r: Vec<(String, Sort)>)
    ensures
        sorted_vars_eq(r@, v@),
{
    let mut r: Vec<(String, Sort)> = Vec::new();
    let mut i: usize = 0;
    while i < v.len()
        invariant
            i <= v@.len(),
            r@.len() == i,
            forall|k: int| #![trigger r@[k]] 0 <= k < i ==> r@[k].0@ == v@[k].0@ && sort_eq(r@[k].1, v@[k].1),
        decreases v@.len() - i,
    {
        let x = (v[i].0.clone(), v[i].1.copy());
        r.push(x);
        i += 1;
    }
    r
}

/// A copy of a list of `let` bindings.
fn copy_bindings(v: &Vec<(String, TermId)>) -> (r: Vec<(String, TermId)>)
    ensures
        bindings_eq(r@, v@),
{
    let mut r: Vec<(String, TermId)> = Vec::new();
    let mut i: usize = 0;
    while i < v.len()
        invariant
            i <= v@.len(),
            r@.len() == i,
            forall|k: int| #![trigger r@[k]] 0 <= k < i ==> r@[k].0@ == v@[k].0@ && r@[k].1 == v@[k].1,
        decreases v@.len() - i,
    {
        let x = (v[i].0.clone(), v[i].1);
        r.push(x);
        i += 1;
    }
    r
}

/// The node of `t`, with its immediate subterms.
enum Shape {
    Chars,
    Concat,
    Op(Operator, Vec<TermId>),
    App(TermId, Vec<TermId>),
    ParamOp(crate::ast::ParamOperator, Vec<TermId>, Vec<TermId>),
    AsOp(Operator, Sort, Vec<TermId>),
    Let(Vec<(String, TermId)>, TermId),
    Binder(crate::ast::Binder, Vec<(String, Sort)>, TermId),
    Match(TermId, Vec<(TermId, TermId)>),
    Leaf,
}

/// `s` describes the node `n`, with copies of its parts.
spec fn shape_of(n: Term, s: Shape) -> bool {
    match s {
        Shape::Chars => n matches Term::Const(Constant::String(_)),
        Shape::Concat => n matches Term::Op(o, _) && o == Operator::StrConcat,
        Shape::Op(op, a) => n matches Term::Op(o, x) && o == op && op != Operator::StrConcat && x@ == a@,
        Shape::App(f, a) => n matches Term::App(g, x) && g == f && x@ == a@,
        Shape::ParamOp(op, oa, a) => n matches Term::ParamOp { op: o, op_args: y, args: x } && o == op && y@ == oa@ && x@ == a@,
        Shape::AsOp(op, srt, a) => n matches Term::AsOp(o, s2, x) && o == op && sort_eq(srt, s2) && x@ == a@,
        Shape::Let(bs, inner) => n matches Term::Let(cs, i2) && bindings_eq(bs@, cs@) && i2 == inner,
        Shape::Binder(q, vs, inner) => n matches Term::Binder(q2, ws, i2) && q2 == q && sorted_vars_eq(vs@, ws@) && i2 == inner,
        Shape::Match(t0, cs) => n matches Term::Match(u, ds) && u == t0 && ds@ == cs@,
        Shape::Leaf => match n {
            Term::Var(_, _) => true,
            Term::Const(c) => !(c matches Constant::String(_)),
            _ => false,
        },
    }
}

fn copy_cases(v: &Vec<(TermId, TermId)>) -> (r: Vec<(TermId, TermId)>)
    ensures
        r@ == v@,
{
    let mut r: Vec<(TermId, TermId)> = Vec::new();
    let mut i: usize = 0;
    while i < v.len()
        invariant
            i <= v@.len(),
            r@ == v@.take(i as int),
        decreases v@.len() - i,
    {
        r.push(v[i]);
        assert(v@.take(i + 1) =~= v@.take(i as int).push(v@[i as int]));
        i += 1;
    }
    assert(v@.take(v@.len() as int) =~= v@);
    r
}

fn shape(pool: &PrimitivePool, t: TermId) -> (s: Shape)
    requires
        t < pool.size(),
    ensures
        shape_of(pool.node(t), s),
{
    match pool.get(t) {
        Term::Const(Constant::String(_)) => Shape::Chars,
        Term::Op(op, args) => if *op == Operator::StrConcat { Shape::Concat } else { Shape::Op(*op, copy_ids(args)) },
        Term::App(f, args) => Shape::App(*f, copy_ids(args)),
        Term::ParamOp { op, op_args, args } => Shape::ParamOp(*op, copy_ids(op_args), copy_ids(args)),
        Term::AsOp(op, srt, args) => Shape::AsOp(*op, srt.copy(), copy_ids(args)),
        Term::Let(bs, inner) => Shape::Let(copy_bindings(bs), *inner),
        Term::Binder(q, vs, inner) => Shape::Binder(*q, copy_sorted_vars(vs), *inner),
        Term::Match(t0, cases) => Shape::Match(*t0, copy_cases(cases)),
        _ => Shape::Leaf,
    }
}

/// A normalized string concatenation: the terms of its flat form.
pub struct NormalizedConcat(pub Vec<TermId>);

impl NormalizedConcat {
    /// Wraps a list of terms.
    pub fn new(terms: Vec<TermId>) -> (r: Self)
        ensures
            r.0@ == terms@,
    {
        NormalizedConcat(terms)
    }

    /// Appends the flat form of `term` to `acc`, adding a string constant for each character of
    /// the string constants that it holds.
    fn flatten_term(pool: &mut PrimitivePool, term: TermId, acc: &mut Vec<TermId>)
        requires
            old(pool).wf(),
            term < old(pool).size(),
            forall|k: int| 0 <= k < old(acc)@.len() ==> #[trigger] old(acc)@[k] < old(pool).size(),
        ensures
            final(pool).wf(),
            extends(*final(pool), *old(pool)),
            forall|k: int| 0 <= k < final(acc)@.len() ==> #[trigger] final(acc)@[k] < final(pool).size(),
            pieces_of(*final(pool), final(acc)@) == pieces_of(*old(pool), old(acc)@) + flat_pieces(*old(pool), term),
        decreases term,
    {
        let ghost p0 = *pool;
        let ghost acc0 = acc@;
        proof {
            pool.lemma_children_below(term);
        }
        let text: Option<String> = match pool.get(term) {
            Term::Const(Constant::String(s)) => Some(s.clone()),
            _ => None,
        };
        if let Some(s) = text {
            let ghost chars = s@;
            proof {
                assert(chars.take(0) =~= Seq::<char>::empty());
                lemma_char_pieces_take(chars, 0);
                assert(pieces_of(p0, acc0) + char_pieces(chars.take(0)) =~= pieces_of(p0, acc0));
                assert(extends(*pool, p0));
            }
            for c in it: s.chars()
                invariant
                    pool.wf(),
                    extends(*pool, p0),
                    it.seq() == chars,
                    chars == s@,
                    p0.node(term) matches Term::Const(Constant::String(x)) && x@ == chars,
                    forall|k: int| 0 <= k < acc@.len() ==> #[trigger] acc@[k] < pool.size(),
                    pieces_of(*pool, acc@) == pieces_of(p0, acc0) + char_pieces(chars.take(it.index())),
            {
                let ghost pb = *pool;
                let ghost ab = acc@;
                let ghost idx = it.index();
                assert(chars[idx as int] == c);
                let id = pool.add_string(char_text(c).as_str());
                acc.push(id);
                proof {
                    lemma_pieces_stable(*pool, pb, ab);
                    lemma_extends_trans(*pool, pb, p0);
                    assert(chars.take(idx + 1) =~= chars.take(idx).push(c));
                    assert(piece_of(*pool, id) == Piece::Letter(c as u32));
                    assert(pieces_of(*pool, acc@) =~= pieces_of(*pool, ab).push(Piece::Letter(c as u32)));
                    lemma_char_pieces_take(chars, idx as int);
                    lemma_char_pieces_take(chars, idx + 1);
                }
            }
            proof {
                assert(chars.take(chars.len() as int) =~= chars);
            }
            return;
        }
        let args = match pool.op_args(term, Operator::StrConcat) {
            Some(a) => copy_ids(a),
            None => {
                acc.push(term);
                proof {
                    assert(pieces_of(*pool, acc@) =~= pieces_of(p0, acc0).push(piece_of(p0, term)));
                    match p0.node(term) {
                        Term::Const(Constant::String(x)) => {},
                        _ => {},
                    }
                }
                return;
            },
        };
        assert(forall|k: int| 0 <= k < args@.len() ==> #[trigger] args@[k] < term) by {
            assert(children(p0.node(term)) == args@);
        }
        let mut i: usize = 0;
        while i < args.len()
            invariant
                pool.wf(),
                extends(*pool, p0),
                p0.wf(),
                term < p0.size(),
                i <= args@.len(),
                forall|k: int| 0 <= k < args@.len() ==> #[trigger] args@[k] < term,
                p0.node(term) matches Term::Op(o, a) && o == Operator::StrConcat && a@ == args@,
                forall|k: int| 0 <= k < acc@.len() ==> #[trigger] acc@[k] < pool.size(),
                pieces_of(*pool, acc@) == pieces_of(p0, acc0) + flat_pieces_list(p0, args@, term, i as int),
            decreases args@.len() - i,
        {
            let ghost pb = *pool;
            Self::flatten_term(pool, args[i], acc);
            proof {
                lemma_extends_trans(*pool, pb, p0);
                lemma_flat_stable(pb, p0, args@[i as int]);
                assert(flat_pieces_list(p0, args@, term, i + 1) == flat_pieces_list(p0, args@, term, i as int) + flat_pieces(p0, args@[i as int]));
            }
            i += 1;
        }
    }

    /// The flat form of the string term `term`: concatenations are dissolved and string constants
    /// are split into single-character constants, which are added to the pool; empty strings
    /// leave nothing.
    pub fn from_term(pool: &mut PrimitivePool, term: TermId) -> (r: Self)
        requires
            old(pool).wf(),
            term < old(pool).size(),
        ensures
            final(pool).wf(),
            extends(*final(pool), *old(pool)),
            forall|k: int| 0 <= k < r.0@.len() ==> #[trigger] r.0@[k] < final(pool).size(),
            pieces_of(*final(pool), r.0@) == flat_pieces(*old(pool), term),
    {
        let mut terms: Vec<TermId> = Vec::new();
        Self::flatten_term(pool, term, &mut terms);
        assert(pieces_of(*old(pool), Seq::<TermId>::empty()) =~= Seq::<Piece>::empty());
        NormalizedConcat(terms)
    }

    fn extract_unsplit_inner(pool: &PrimitivePool, term: TermId, acc: &mut Vec<TermId>)
        requires
            pool.wf(),
            term < pool.size(),
        ensures
            final(acc)@ == old(acc)@ + unsplit_terms(*pool, term),
        decreases term,
    {
        proof {
            pool.lemma_children_below(term);
        }
        match pool.get(term) {
            Term::Const(Constant::String(s)) => {
                if s.as_str().unicode_len() != 0 {
                    acc.push(term);
                } else {
                    assert(acc@ =~= acc@ + Seq::<TermId>::empty());
                }
                return;
            },
            _ => {},
        }
        let args = match pool.op_args(term, Operator::StrConcat) {
            Some(a) => a,
            None => {
                acc.push(term);
                return;
            },
        };
        assert(forall|k: int| 0 <= k < args@.len() ==> #[trigger] args@[k] < term) by {
            assert(children(pool.node(term)) == args@);
        }
        let ghost acc0 = acc@;
        let mut i: usize = 0;
        while i < args.len()
            invariant
                pool.wf(),
                term < pool.size(),
                i <= args@.len(),
                forall|k: int| 0 <= k < args@.len() ==> #[trigger] args@[k] < term,
                pool.node(term) matches Term::Op(o, a) && o == Operator::StrConcat && a@ == args@,
                acc@ == acc0 + unsplit_terms_list(*pool, args@, term, i as int),
            decreases args@.len() - i,
        {
            Self::extract_unsplit_inner(pool, args[i], acc);
            assert(unsplit_terms_list(*pool, args@, term, i + 1) == unsplit_terms_list(*pool, args@, term, i as int) + unsplit_terms(*pool, args@[i as int]));
            i += 1;
        }
    }

    /// The terms of `term` with concatenations dissolved, string constants kept whole and empty
    /// ones left out.
    pub fn from_term_unsplit(pool: &PrimitivePool, term: TermId) -> (r: Self)
        requires
            pool.wf(),
            term < pool.size(),
        ensures
            r.0@ == unsplit_terms(*pool, term),
    {
        let mut terms: Vec<TermId> = Vec::new();
        Self::extract_unsplit_inner(pool, term, &mut terms);
        assert(terms@ =~= unsplit_terms(*pool, term));
        NormalizedConcat(terms)
    }

    /// The term of this flat form: the empty string when it has no term, its single term, or
    /// the concatenation of its terms, added to the pool.
    pub fn to_term(&self, pool: &mut PrimitivePool) -> (r: TermId)
        requires
            old(pool).wf(),
            forall|k: int| 0 <= k < self.0@.len() ==> #[trigger] self.0@[k] < old(pool).size(),
        ensures
            final(pool).wf(),
            extends(*final(pool), *old(pool)),
            self.0@.len() == 0 ==> is_string(*final(pool), r, Seq::empty()),
            self.0@.len() == 1 ==> r == self.0@[0] && *final(pool) == *old(pool),
            self.0@.len() >= 2 ==> is_op(*final(pool), r, Operator::StrConcat, self.0@),
    {
        if self.0.len() == 0 {
            proof {
                reveal_strlit("");
                assert(""@ =~= Seq::<char>::empty());
            }
            pool.add_string("")
        } else if self.0.len() == 1 {
            self.0[0]
        } else {
            pool.add_op(Operator::StrConcat, copy_ids(&self.0))
        }
    }

    /// The term of this flat form, consuming it (see `to_term`).
    pub fn into_term(self, pool: &mut PrimitivePool) -> (r: TermId)
        requires
            old(pool).wf(),
            forall|k: int| 0 <= k < self.0@.len() ==> #[trigger] self.0@[k] < old(pool).size(),
        ensures
            final(pool).wf(),
            extends(*final(pool), *old(pool)),
            self.0@.len() == 0 ==> is_string(*final(pool), r, Seq::empty()),
            self.0@.len() == 1 ==> r == self.0@[0] && *final(pool) == *old(pool),
            self.0@.len() >= 2 ==> is_op(*final(pool), r, Operator::StrConcat, self.0@),
    {
        if self.0.len() == 0 {
            proof {
                reveal_strlit("");
                assert(""@ =~= Seq::<char>::empty());
            }
            pool.add_string("")
        } else if self.0.len() == 1 {
            self.0[0]
        } else {
            pool.add_op(Operator::StrConcat, self.0)
        }
    }

    /// Whether `s` and `t` agree on every position that both have.
    pub fn is_compatible(s: &[TermId], t: &[TermId]) -> (res: bool)
        ensures
            res == forall|k: int| 0 <= k < s@.len() && k < t@.len() ==> s@[k] == t@[k],
    {
        let mut k: usize = 0;
        while k < s.len() && k < t.len()
            invariant
                k <= s@.len(),
                k <= t@.len(),
                forall|m: int| 0 <= m < k ==> s@[m] == t@[m],
            decreases s@.len() - k,
        {
            if s[k] != t[k] {
                return false;
            }
            k += 1;
        }
        true
    }

    /// The number of terms to drop from the front of `s` for the rest to agree with `t`: the least
    /// such number (at most the length of `s`, since nothing is left to disagree then).
    pub fn overlap(s: &[TermId], t: &[TermId]) -> (res: usize)
        ensures
            res <= s@.len(),
            compatible(s@.skip(res as int), t@),
            forall|d: int| 0 <= d < res ==> !compatible(#[trigger] s@.skip(d), t@),
    {
        let mut dropped: usize = 0;
        while dropped < s.len()
            invariant
                dropped <= s@.len(),
                forall|d: int| 0 <= d < dropped ==> !compatible(#[trigger] s@.skip(d), t@),
            decreases s@.len() - dropped,
        {
            if compatible_from(s, dropped, t) {
                return dropped;
            }
            dropped += 1;
        }
        assert(s@.skip(dropped as int).len() == 0);
        dropped
    }

    /// Checks that `self` is a prefix of `target`, term by term up to the order of the sides of
    /// equalities.
    pub fn assert_is_prefix_of(&self, pool: &PrimitivePool, target: &Self, orig_prefix: TermId, orig_target: TermId) -> (res: Result<(), CheckerError>)
        requires
            pool.wf(),
            forall|k: int| 0 <= k < self.0@.len() ==> #[trigger] self.0@[k] < pool.size(),
            forall|k: int| 0 <= k < target.0@.len() ==> #[trigger] target.0@[k] < pool.size(),
        ensures
            res == prefix_or_suffix_result(*pool, self.0@, target.0@, orig_prefix, orig_target, false),
    {
        self.assert_is_prefix_or_suffix_of(pool, target, orig_prefix, orig_target, false)
    }

    /// Checks that `self` is a suffix of `target`, term by term up to the order of the sides of
    /// equalities.
    pub fn assert_is_suffix_of(&self, pool: &PrimitivePool, target: &Self, orig_suffix: TermId, orig_target: TermId) -> (res: Result<(), CheckerError>)
        requires
            pool.wf(),
            forall|k: int| 0 <= k < self.0@.len() ==> #[trigger] self.0@[k] < pool.size(),
            forall|k: int| 0 <= k < target.0@.len() ==> #[trigger] target.0@[k] < pool.size(),
        ensures
            res == prefix_or_suffix_result(*pool, self.0@, target.0@, orig_suffix, orig_target, true),
    {
        self.assert_is_prefix_or_suffix_of(pool, target, orig_suffix, orig_target, true)
    }

    /// Checks that `self` is a prefix (`rev` false) or a suffix (`rev` true) of `target`: it is
    /// not longer, and each of its terms is equal, up to the order of the sides of equalities, to
    /// the term of `target` at the same position from the front (or from the back).
    pub fn assert_is_prefix_or_suffix_of(
        &self,
        pool: &PrimitivePool,
        target: &Self,
        orig_prefix: TermId,
        orig_target: TermId,
        rev: bool,
    ) -> (res: Result<(), CheckerError>)
        requires
            pool.wf(),
            forall|k: int| 0 <= k < self.0@.len() ==> #[trigger] self.0@[k] < pool.size(),
            forall|k: int| 0 <= k < target.0@.len() ==> #[trigger] target.0@[k] < pool.size(),
        ensures
            res == prefix_or_suffix_result(*pool, self.0@, target.0@, orig_prefix, orig_target, rev),
    {
        let a = &self.0;
        let b = &target.0;
        if a.len() > b.len() {
            if rev {
                return Err(CheckerError::ExpectedToBeSuffix(orig_prefix, orig_target));
            } else {
                return Err(CheckerError::ExpectedToBePrefix(orig_prefix, orig_target));
            }
        }
        let mut k: usize = 0;
        while k < a.len()
            invariant
                pool.wf(),
                a@ == self.0@,
                b@ == target.0@,
                a@.len() <= b@.len(),
                k <= a@.len(),
                forall|m: int| 0 <= m < a@.len() ==> #[trigger] a@[m] < pool.size(),
                forall|m: int| 0 <= m < b@.len() ==> #[trigger] b@[m] < pool.size(),
                first_unequal(*pool, a@, b@, rev, k as int) is None,
            decreases a@.len() - k,
        {
            let (x, y) = if rev { (a[a.len() - 1 - k], b[b.len() - 1 - k]) } else { (a[k], b[k]) };
            assert((x, y) == aligned(a@, b@, k as int, rev));
            if !polyeq_terms(pool, x, y) {
                proof {
                    lemma_unequal_found(*pool, a@, b@, rev, k as int, a@.len() as int);
                }
                return Err(CheckerError::ExpectedTermToBe(x, y));
            }
            k += 1;
        }
        Ok(())
    }

    /// Removes the longest common prefix (`rev` false) or suffix (`rev` true) of `self` and
    /// `other`, comparing terms up to the order of the sides of equalities, and returns what
    /// remains of each. Both must have a term.
    pub fn strip_prefix_or_suffix(
        &self,
        pool: &PrimitivePool,
        other: &Self,
        orig_self: TermId,
        orig_other: TermId,
        rev: bool,
    ) -> (res: Result<(Self, Self), CheckerError>)
        requires
            pool.wf(),
            forall|k: int| 0 <= k < self.0@.len() ==> #[trigger] self.0@[k] < pool.size(),
            forall|k: int| 0 <= k < other.0@.len() ==> #[trigger] other.0@[k] < pool.size(),
        ensures
            self.0@.len() == 0 ==> res == Err::<(Self, Self), CheckerError>(CheckerError::TermOfWrongForm(CONCAT_PATTERN, orig_self)),
            self.0@.len() != 0 && other.0@.len() == 0 ==> res == Err::<(Self, Self), CheckerError>(CheckerError::TermOfWrongForm(CONCAT_PATTERN, orig_other)),
            self.0@.len() != 0 && other.0@.len() != 0 ==> (res matches Ok((s, t)) && {
                let l = common_len(*pool, self.0@, other.0@, rev, 0);
                &&& s.0@ == (if rev { self.0@.take(self.0@.len() - l) } else { self.0@.skip(l) })
                &&& t.0@ == (if rev { other.0@.take(other.0@.len() - l) } else { other.0@.skip(l) })
            }),
    {
        let a = &self.0;
        let b = &other.0;
        if a.len() == 0 {
            return Err(CheckerError::TermOfWrongForm(CONCAT_PATTERN, orig_self));
        }
        if b.len() == 0 {
            return Err(CheckerError::TermOfWrongForm(CONCAT_PATTERN, orig_other));
        }
        let min_len = if a.len() < b.len() { a.len() } else { b.len() };
        let mut l: usize = 0;
        while l < min_len
            invariant
                pool.wf(),
                a@ == self.0@,
                b@ == other.0@,
                min_len == (if a@.len() < b@.len() { a@.len() } else { b@.len() }),
                l <= min_len,
                forall|m: int| 0 <= m < a@.len() ==> #[trigger] a@[m] < pool.size(),
                forall|m: int| 0 <= m < b@.len() ==> #[trigger] b@[m] < pool.size(),
                common_len(*pool, a@, b@, rev, 0) == common_len(*pool, a@, b@, rev, l as int),
            ensures
                l <= min_len,
                common_len(*pool, a@, b@, rev, 0) == common_len(*pool, a@, b@, rev, l as int),
                l == min_len || !polyeq(*pool, aligned(a@, b@, l as int, rev).0, aligned(a@, b@, l as int, rev).1),
            decreases min_len - l,
        {
            let (x, y) = if rev { (a[a.len() - 1 - l], b[b.len() - 1 - l]) } else { (a[l], b[l]) };
            assert((x, y) == aligned(a@, b@, l as int, rev));
            if !polyeq_terms(pool, x, y) {
                break;
            }
            l += 1;
        }
        let ghost len = common_len(*pool, a@, b@, rev, 0);
        assert(len == l);
        if rev {
            Ok((NormalizedConcat(copy_range(a, 0, a.len() - l)), NormalizedConcat(copy_range(b, 0, b.len() - l))))
        } else {
            Ok((NormalizedConcat(copy_range(a, l, a.len())), NormalizedConcat(copy_range(b, l, b.len()))))
        }
    }

    /// Expands every subterm of `term` (see `expanded`), adding the new terms to the pool.
    pub fn expand_constants(pool: &mut PrimitivePool, term: TermId) -> (r: TermId)
        requires
            old(pool).wf(),
            term < old(pool).size(),
        ensures
            final(pool).wf(),
            extends(*final(pool), *old(pool)),
            expanded(*final(pool), term, r),
        decreases term, 2nat,
    {
        let ghost p0 = *pool;
        proof {
            pool.lemma_children_below(term);
        }
        let sh = shape(pool, term);
        match sh {
            Shape::Chars => {
                let mut args: Vec<TermId> = Vec::new();
                Self::flatten_term(pool, term, &mut args);
                let ghost p1 = *pool;
                proof {
                    assert(pieces_of(p0, Seq::<TermId>::empty()) =~= Seq::<Piece>::empty());
                    if let Term::Const(Constant::String(st)) = p0.node(term) {
                        lemma_char_pieces_len(st@);
                        assert(pieces_of(p1, args@).len() == args@.len());
                    }
                }
                if args.len() == 0 {
                    proof {
                        reveal_strlit("");
                        assert(""@ =~= Seq::<char>::empty());
                    }
                    let r = pool.add_string("");
                    proof {
                        lemma_extends_trans(*pool, p1, p0);
                        if let Term::Const(Constant::String(st)) = p0.node(term) {
                            assert(st@ =~= Seq::<char>::empty());
                        }
                        assert(expanded(*pool, term, r));
                    }
                    r
                } else if args.len() == 1 {
                    let r = args[0];
                    proof {
                        if let Term::Const(Constant::String(st)) = p0.node(term) {
                            assert(pieces_of(p1, args@)[0] == piece_of(p1, r));
                            assert(char_pieces(st@) =~= Seq::<Piece>::empty().push(Piece::Letter(st@[0] as u32))) by {
                                assert(st@.drop_last() =~= Seq::<char>::empty());
                            }
                            assert(piece_of(p1, r) == Piece::Letter(st@[0] as u32));
                        }
                        assert(expanded(*pool, term, r));
                    }
                    r
                } else {
                    let ghost a = args@;
                    let r = pool.add_op(Operator::StrConcat, args);
                    proof {
                        lemma_extends_trans(*pool, p1, p0);
                        lemma_pieces_stable(*pool, p1, a);
                        if let Term::Const(Constant::String(st)) = p0.node(term) {
                            assert(flat_pieces(p0, term) == char_pieces(st@));
                            assert(pieces_of(*pool, a).len() == a.len());
                            assert(a.len() == st@.len());
                        }
                        assert(expanded(*pool, term, r));
                    }
                    r
                }
            },
            Shape::Concat => {
                let xs = match pool.op_args(term, Operator::StrConcat) {
                    Some(a) => copy_ids(a),
                    None => Vec::new(),
                };
                assert(p0.node(term) matches Term::Op(o, a) && o == Operator::StrConcat && a@ == xs@);
                assert(forall|k: int| 0 <= k < xs@.len() ==> #[trigger] xs@[k] < term) by {
                    assert(children(p0.node(term)) == xs@);
                }
                let mut args: Vec<TermId> = Vec::new();
                Self::expand_flat_args(pool, term, &xs, &mut args);
                let ghost p1 = *pool;
                let ghost a = args@;
                assert(a.skip(0) =~= a);
                let r = pool.add_op(Operator::StrConcat, args);
                proof {
                    lemma_extends_trans(*pool, p1, p0);
                    lemma_template_stable(*pool, p1, a, flat_pieces_list(p0, xs@, term, xs@.len() as int), term as int);
                    lemma_flat_list_stable(*pool, p0, xs@, term, xs@.len() as int);
                    assert(expanded(*pool, term, r));
                }
                r
            },
            Shape::Op(op, args) => {
                assert(children(p0.node(term)) == args@);
                let new_args = Self::expand_all(pool, term, &args);
                let ghost p1 = *pool;
                let ghost a = new_args@;
                let r = pool.add_op(op, new_args);
                proof {
                    lemma_extends_trans(*pool, p1, p0);
                    lemma_expanded_upto_stable(*pool, p1, args@, a, term, args@.len() as int);
                }
                r
            },
            Shape::App(f, args) => {
                assert(children(p0.node(term)) == seq![f] + args@);
                assert(f < term) by {
                    assert(children(p0.node(term))[0] == f);
                }
                assert forall|k: int| 0 <= k < args@.len() implies #[trigger] args@[k] < term by {
                    assert(children(p0.node(term))[k + 1] == args@[k]);
                }
                let new_args = Self::expand_all(pool, term, &args);
                let ghost p1 = *pool;
                let ghost a = new_args@;
                let built = Term::App(f, new_args);
                assert(children_below(built, p1.size() as int)) by {
                    assert(children(built) == seq![f] + a);
                }
                let r = pool.add(built);
                proof {
                    lemma_extends_trans(*pool, p1, p0);
                    lemma_expanded_upto_stable(*pool, p1, args@, a, term, args@.len() as int);
                    assert(term_eq(pool.node(r), built) || pool.node(r) == built);
                }
                r
            },
            Shape::ParamOp(op, op_args, args) => {
                assert(children(p0.node(term)) == op_args@ + args@);
                assert forall|k: int| 0 <= k < args@.len() implies #[trigger] args@[k] < term by {
                    assert(children(p0.node(term))[op_args@.len() + k] == args@[k]);
                }
                assert forall|k: int| 0 <= k < op_args@.len() implies #[trigger] op_args@[k] < term by {
                    assert(children(p0.node(term))[k] == op_args@[k]);
                }
                let new_args = Self::expand_all(pool, term, &args);
                let ghost p1 = *pool;
                let ghost a = new_args@;
                let ghost oa = op_args@;
                let built = Term::ParamOp { op, op_args, args: new_args };
                assert(children_below(built, p1.size() as int)) by {
                    assert(children(built) == oa + a);
                    assert forall|k: int| 0 <= k < (oa + a).len() implies #[trigger] (oa + a)[k] < p1.size() by {
                        if k < oa.len() {
                            assert((oa + a)[k] == oa[k]);
                        } else {
                            assert((oa + a)[k] == a[k - oa.len()]);
                        }
                    }
                }
                let r = pool.add(built);
                proof {
                    lemma_extends_trans(*pool, p1, p0);
                    lemma_expanded_upto_stable(*pool, p1, args@, a, term, args@.len() as int);
                    assert(term_eq(pool.node(r), built) || pool.node(r) == built);
                }
                r
            },
            Shape::AsOp(op, srt, args) => {
                assert(children(p0.node(term)) == args@);
                let new_args = Self::expand_all(pool, term, &args);
                let ghost p1 = *pool;
                let ghost a = new_args@;
                let ghost s0 = srt;
                let built = Term::AsOp(op, srt, new_args);
                let r = pool.add(built);
                proof {
                    lemma_extends_trans(*pool, p1, p0);
                    lemma_expanded_upto_stable(*pool, p1, args@, a, term, args@.len() as int);
                    assert(term_eq(pool.node(r), built) || pool.node(r) == built);
                    if let (Term::AsOp(_, s2, _), Term::AsOp(_, s3, _)) = (pool.node(r), p0.node(term)) {
                        if pool.node(r) == built {
                            assert(sort_eq(s2, s3));
                        } else {
                            lemma_sort_eq_trans(s2, s0, s3);
                        }
                    }
                }
                r
            },
            Shape::Let(bs, inner) => {
                assert(inner < term) by {
                    let cs = children(p0.node(term));
                    assert(cs[cs.len() - 1] == inner);
                }
                let r2 = Self::expand_constants(pool, inner);
                let ghost p1 = *pool;
                let ghost b = bs@;
                let built = Term::Let(bs, r2);
                assert(children_below(built, p1.size() as int)) by {
                    assert forall|k: int| 0 <= k < b.len() implies #[trigger] b[k].1 < p1.size() by {
                        if let Term::Let(cs, _) = p0.node(term) {
                            assert(children(p0.node(term))[k] == cs@[k].1);
                        }
                    }
                    assert forall|k: int| 0 <= k < children(built).len() implies #[trigger] children(built)[k] < p1.size() by {
                        if k < b.len() {
                            assert(children(built)[k] == b[k].1);
                        }
                    }
                }
                let r = pool.add(built);
                proof {
                    lemma_extends_trans(*pool, p1, p0);
                    lemma_expanded_stable(*pool, p1, inner, r2);
                    assert(term_eq(pool.node(r), built) || pool.node(r) == built);
                }
                r
            },
            Shape::Binder(q, vs, inner) => {
                assert(inner < term) by {
                    assert(children(p0.node(term)) == seq![inner]);
                    assert(children(p0.node(term))[0] == inner);
                }
                let r2 = Self::expand_constants(pool, inner);
                let ghost p1 = *pool;
                let ghost v = vs@;
                let built = Term::Binder(q, vs, r2);
                let r = pool.add(built);
                proof {
                    lemma_extends_trans(*pool, p1, p0);
                    lemma_expanded_stable(*pool, p1, inner, r2);
                    assert(term_eq(pool.node(r), built) || pool.node(r) == built);
                    if let (Term::Binder(_, ws, _), Term::Binder(_, us, _)) = (pool.node(r), p0.node(term)) {
                        assert forall|i: int| #![trigger ws@[i]] 0 <= i < ws@.len() implies ws@[i].0@ == us@[i].0@ && sort_eq(ws@[i].1, us@[i].1) by {
                            assert(v[i].0@ == us@[i].0@ && sort_eq(v[i].1, us@[i].1));
                            if pool.node(r) == built {
                                assert(ws@[i] == v[i]);
                            } else {
                                assert(sorted_vars_eq(ws@, v));
                                assert(ws@[i].0@ == v[i].0@ && sort_eq(ws@[i].1, v[i].1));
                                lemma_sort_eq_trans(ws@[i].1, v[i].1, us@[i].1);
                            }
                        }
                    }
                }
                r
            },
            Shape::Match(t0, cases) => {
                assert(children(p0.node(term))[0] == t0);
                let u0 = Self::expand_constants(pool, t0);
                let ghost p1 = *pool;
                let mut ds: Vec<(TermId, TermId)> = Vec::new();
                let mut i: usize = 0;
                assert forall|k: int| 0 <= k < cases@.len() implies #[trigger] cases@[k].1 < term && cases@[k].0 < term by {
                    let cs = children(p0.node(term));
                    assert(cs == seq![t0] + cases@.map_values(|c: (TermId, TermId)| c.0) + cases@.map_values(|c: (TermId, TermId)| c.1));
                    assert(cs[1 + k] == cases@[k].0);
                    assert(cs[1 + cases@.len() + k] == cases@[k].1);
                }
                while i < cases.len()
                    invariant
                        pool.wf(),
                        extends(*pool, p1),
                        extends(p1, p0),
                        p0.wf(),
                        term < p0.size(),
                        i <= cases@.len(),
                        ds@.len() == i,
                        forall|k: int| 0 <= k < cases@.len() ==> #[trigger] cases@[k].1 < term && cases@[k].0 < term,
                        forall|k: int| #![trigger ds@[k]] 0 <= k < ds@.len() ==> ds@[k].1 < pool.size() && ds@[k].0 < pool.size(),
                        expanded_cases_upto(*pool, cases@, ds@, term, i as int),
                    decreases cases@.len() - i,
                {
                    let ghost pb = *pool;
                    let ghost db = ds@;
                    let body = Self::expand_constants(pool, cases[i].1);
                    ds.push((cases[i].0, body));
                    proof {
                        lemma_extends_trans(*pool, pb, p1);
                        lemma_expanded_cases_stable(*pool, pb, cases@, db, term, i as int);
                        lemma_expanded_cases_prefix(*pool, cases@, db, ds@, term, i as int);
                    }
                    i += 1;
                }
                let ghost p2 = *pool;
                let ghost d = ds@;
                let built = Term::Match(u0, ds);
                assert(children_below(built, p2.size() as int)) by {
                    let cs = children(built);
                    assert(cs == seq![u0] + d.map_values(|c: (TermId, TermId)| c.0) + d.map_values(|c: (TermId, TermId)| c.1));
                    assert forall|k: int| 0 <= k < cs.len() implies #[trigger] cs[k] < p2.size() by {
                        if k == 0 {
                            assert(cs[0] == u0);
                            assert(u0 < p1.size());
                        } else if k >= 1 && k < 1 + d.len() {
                            assert(cs[k] == d[k - 1].0);
                            assert(d[k - 1].0 < p2.size());
                        } else if k >= 1 + d.len() {
                            assert(cs[k] == d[k - 1 - d.len()].1);
                            assert(d[k - 1 - d.len()].1 < p2.size());
                        }
                    }
                }
                let r = pool.add(built);
                proof {
                    lemma_extends_trans(*pool, p2, p1);
                    lemma_extends_trans(*pool, p1, p0);
                    lemma_expanded_stable(*pool, p1, t0, u0);
                    lemma_expanded_cases_stable(*pool, p2, cases@, d, term, cases@.len() as int);
                    assert(term_eq(pool.node(r), built) || pool.node(r) == built);
                }
                r
            },
            Shape::Leaf => {
                term
            },
        }
    }

    /// Appends to `acc` the expanded flat forms of the terms `args`, arguments of the
    /// concatenation `term`.
    fn expand_flat_args(pool: &mut PrimitivePool, term: TermId, args: &Vec<TermId>, acc: &mut Vec<TermId>)
        requires
            old(pool).wf(),
            term < old(pool).size(),
            forall|k: int| 0 <= k < args@.len() ==> #[trigger] args@[k] < term,
            forall|k: int| 0 <= k < old(acc)@.len() ==> #[trigger] old(acc)@[k] < old(pool).size(),
        ensures
            final(pool).wf(),
            extends(*final(pool), *old(pool)),
            forall|k: int| 0 <= k < final(acc)@.len() ==> #[trigger] final(acc)@[k] < final(pool).size(),
            final(acc)@.len() >= old(acc)@.len(),
            final(acc)@.take(old(acc)@.len() as int) == old(acc)@,
            template_expanded(*final(pool), final(acc)@.skip(old(acc)@.len() as int),
                flat_pieces_list(*old(pool), args@, term, args@.len() as int), term as int),
        decreases term, 1nat,
    {
        let ghost p0 = *pool;
        let ghost acc0 = acc@;
        let ghost n0 = acc@.len() as int;
        assert(acc@.skip(n0) =~= Seq::<TermId>::empty());
        assert(acc@.take(n0) =~= acc0);
        let mut i: usize = 0;
        while i < args.len()
            invariant
                pool.wf(),
                extends(*pool, p0),
                p0.wf(),
                term < p0.size(),
                i <= args@.len(),
                forall|k: int| 0 <= k < args@.len() ==> #[trigger] args@[k] < term,
                forall|k: int| 0 <= k < acc@.len() ==> #[trigger] acc@[k] < pool.size(),
                acc@.len() >= n0,
                n0 == acc0.len(),
                acc@.take(n0) == acc0,
                template_expanded(*pool, acc@.skip(n0), flat_pieces_list(p0, args@, term, i as int), term as int),
            decreases args@.len() - i,
        {
            let ghost pb = *pool;
            let ghost ab = acc@;
            let x = args[i];
            Self::expand_flat(pool, x, acc);
            proof {
                lemma_extends_trans(*pool, pb, p0);
                lemma_flat_stable(pb, p0, x);
                lemma_template_stable(*pool, pb, ab.skip(n0), flat_pieces_list(p0, args@, term, i as int), term as int);
                let part = acc@.skip(ab.len() as int);
                lemma_template_bound(*pool, part, flat_pieces(p0, x), x + 1, term as int);
                lemma_template_concat(*pool, ab.skip(n0), flat_pieces_list(p0, args@, term, i as int), part, flat_pieces(p0, x), term as int);
                assert(acc@.skip(n0) =~= ab.skip(n0) + part) by {
                    assert(acc@.take(ab.len() as int) == ab);
                }
                assert(flat_pieces_list(p0, args@, term, i + 1) == flat_pieces_list(p0, args@, term, i as int) + flat_pieces(p0, x));
                assert(acc@.take(n0) =~= acc0) by {
                    assert(acc@.take(ab.len() as int) == ab);
                    assert(acc@.take(n0) =~= ab.take(n0));
                }
            }
            i += 1;
        }
    }

    /// Appends to `acc` the expanded flat form of `term`: the constants of the characters of a
    /// string constant, those of the arguments of a concatenation, and otherwise the expansion of
    /// the term.
    fn expand_flat(pool: &mut PrimitivePool, term: TermId, acc: &mut Vec<TermId>)
        requires
            old(pool).wf(),
            term < old(pool).size(),
            forall|k: int| 0 <= k < old(acc)@.len() ==> #[trigger] old(acc)@[k] < old(pool).size(),
        ensures
            final(pool).wf(),
            extends(*final(pool), *old(pool)),
            forall|k: int| 0 <= k < final(acc)@.len() ==> #[trigger] final(acc)@[k] < final(pool).size(),
            final(acc)@.len() >= old(acc)@.len(),
            final(acc)@.take(old(acc)@.len() as int) == old(acc)@,
            template_expanded(*final(pool), final(acc)@.skip(old(acc)@.len() as int), flat_pieces(*old(pool), term), term + 1),
        decreases term, 3nat,
    {
        let ghost p0 = *pool;
        let ghost acc0 = acc@;
        proof {
            pool.lemma_children_below(term);
        }
        let is_text = match pool.get(term) {
            Term::Const(Constant::String(_)) => true,
            _ => false,
        };
        if is_text {
            let mut tmp: Vec<TermId> = Vec::new();
            Self::flatten_term(pool, term, &mut tmp);
            proof {
                assert(pieces_of(p0, Seq::<TermId>::empty()) =~= Seq::<Piece>::empty());
                assert(pieces_of(p0, Seq::<TermId>::empty()) + flat_pieces(p0, term) =~= flat_pieces(p0, term));
                if let Term::Const(Constant::String(st)) = p0.node(term) {
                    lemma_template_chars(*pool, tmp@, st@, term + 1);
                }
            }
            let ghost ab = acc@;
            append_ids(acc, &tmp);
            proof {
                assert(acc@.skip(ab.len() as int) =~= tmp@);
                assert(acc@.take(ab.len() as int) =~= ab);
                assert forall|k: int| 0 <= k < acc@.len() implies #[trigger] acc@[k] < pool.size() by {
                    if k < ab.len() {
                        assert(acc@[k] == ab[k]);
                    } else {
                        assert(acc@[k] == tmp@[k - ab.len()]);
                    }
                }
            }
            return;
        }
        match pool.op_args(term, Operator::StrConcat) {
            Some(a) => {
                let xs = copy_ids(a);
                assert(forall|k: int| 0 <= k < xs@.len() ==> #[trigger] xs@[k] < term) by {
                    assert(children(p0.node(term)) == xs@);
                }
                Self::expand_flat_args(pool, term, &xs, acc);
                proof {
                    lemma_template_bound(*pool, acc@.skip(acc0.len() as int), flat_pieces(p0, term), term as int, term + 1);
                }
            },
            None => {
                let r = Self::expand_constants(pool, term);
                acc.push(r);
                proof {
                    let part = acc@.skip(acc0.len() as int);
                    assert(part =~= seq![r]);
                    assert(acc@.take(acc0.len() as int) =~= acc0);
                    assert(flat_pieces(p0, term) == seq![Piece::Whole(term)]);
                    assert(part[0] == r);
                    assert(template_expanded(*pool, part, flat_pieces(p0, term), term + 1));
                }
            },
        }
    }

    /// The expansions of the terms `args`, subterms of `term`.
    fn expand_all(pool: &mut PrimitivePool, term: TermId, args: &Vec<TermId>) -> (res: Vec<TermId>)
        requires
            old(pool).wf(),
            term < old(pool).size(),
            forall|k: int| 0 <= k < args@.len() ==> #[trigger] args@[k] < term,
        ensures
            final(pool).wf(),
            extends(*final(pool), *old(pool)),
            res@.len() == args@.len(),
            forall|k: int| 0 <= k < res@.len() ==> #[trigger] res@[k] < final(pool).size(),
            expanded_upto(*final(pool), args@, res@, term, args@.len() as int),
        decreases term, 1nat,
    {
        let ghost p0 = *pool;
        let mut res: Vec<TermId> = Vec::new();
        let mut i: usize = 0;
        while i < args.len()
            invariant
                pool.wf(),
                extends(*pool, p0),
                p0.wf(),
                term < p0.size(),
                i <= args@.len(),
                res@.len() == i,
                forall|k: int| 0 <= k < args@.len() ==> #[trigger] args@[k] < term,
                forall|k: int| 0 <= k < res@.len() ==> #[trigger] res@[k] < pool.size(),
                expanded_upto(*pool, args@, res@, term, i as int),
            decreases args@.len() - i,
        {
            let ghost pb = *pool;
            let ghost rb = res@;
            let e = Self::expand_constants(pool, args[i]);
            res.push(e);
            proof {
                lemma_extends_trans(*pool, pb, p0);
                lemma_expanded_upto_stable(*pool, pb, args@, rb, term, i as int);
                lemma_expanded_upto_prefix(*pool, args@, rb, res@, term, i as int);
            }
            i += 1;
        }
        res
    }

    /// Checks that `term` is a string constant of one character.
    pub fn assert_length_one(pool: &PrimitivePool, term: TermId) -> (res: Result<(), CheckerError>)
        requires
            term < pool.size(),
        ensures
            res == if (pool.node(term) matches Term::Const(Constant::String(s)) && s@.len() == 1) {
                Ok::<(), CheckerError>(())
            } else {
                Err(CheckerError::ExpectedStringConstantOfLengthOne(term))
            },
    {
        if let Term::Const(Constant::String(s)) = pool.get(term) {
            if s.as_str().unicode_len() == 1 {
                return Ok(());
            }
        }
        Err(CheckerError::ExpectedStringConstantOfLengthOne(term))
    }
}

/// The pattern of a concatenation.
pub const CONCAT_PATTERN: &'static str = "(str.++ ...)";

/// The terms of `a` and `b` at position `k` from the front, or from the back when `rev` holds.
pub open spec fn aligned(a: Seq<TermId>, b: Seq<TermId>, k: int, rev: bool) -> (TermId, TermId) {
    if rev { (a[a.len() - 1 - k], b[b.len() - 1 - k]) } else { (a[k], b[k]) }
}

/// The first of the `n` first aligned positions at which the terms differ, up to the order of
/// the sides of equalities.
pub open spec fn first_unequal(pool: PrimitivePool, a: Seq<TermId>, b: Seq<TermId>, rev: bool, n: int) -> Option<int>
    decreases n,
{
    if n <= 0 {
        None
    } else {
        match first_unequal(pool, a, b, rev, n - 1) {
            Some(k) => Some(k),
            None => if polyeq(pool, aligned(a, b, n - 1, rev).0, aligned(a, b, n - 1, rev).1) { None } else { Some(n - 1) },
        }
    }
}

proof fn lemma_unequal_found(pool: PrimitivePool, a: Seq<TermId>, b: Seq<TermId>, rev: bool, k: int, n: int)
    requires
        0 <= k < n,
        first_unequal(pool, a, b, rev, k) is None,
        !polyeq(pool, aligned(a, b, k, rev).0, aligned(a, b, k, rev).1),
    ensures
        first_unequal(pool, a, b, rev, n) == Some(k),
    decreases n - k,
{
    if n > k + 1 {
        lemma_unequal_found(pool, a, b, rev, k, n - 1);
    }
}

/// The terms at position `k` of `a` and `b`, counted from the front, or from the back when
/// `rev` holds, are equal up to the order of the sides of equalities.
pub open spec fn matches_at(pool: PrimitivePool, a: Seq<TermId>, b: Seq<TermId>, k: int, rev: bool) -> bool {
    if rev {
        polyeq(pool, a[a.len() - 1 - k], b[b.len() - 1 - k])
    } else {
        polyeq(pool, a[k], b[k])
    }
}

/// `first_unequal` finds the first aligned position whose terms differ, and none when all agree.
proof fn lemma_first_unequal(pool: PrimitivePool, a: Seq<TermId>, b: Seq<TermId>, rev: bool, n: int)
    requires
        0 <= n,
    ensures
        first_unequal(pool, a, b, rev, n) is None <==> forall|k: int| 0 <= k < n ==> #[trigger] matches_at(pool, a, b, k, rev),
        first_unequal(pool, a, b, rev, n) matches Some(k) ==> 0 <= k < n && !matches_at(pool, a, b, k, rev)
            && forall|j: int| 0 <= j < k ==> #[trigger] matches_at(pool, a, b, j, rev),
    decreases n,
{
    if n > 0 {
        lemma_first_unequal(pool, a, b, rev, n - 1);
        assert(matches_at(pool, a, b, n - 1, rev) == polyeq(pool, aligned(a, b, n - 1, rev).0, aligned(a, b, n - 1, rev).1));
        if first_unequal(pool, a, b, rev, n - 1) is None {
            assert forall|k: int| 0 <= k < n - 1 implies #[trigger] matches_at(pool, a, b, k, rev) by {}
        }
    }
}

/// Checking that `a` is a prefix (suffix, when `rev` holds) of `b` succeeds exactly when `a` is
/// not longer than `b` and each term of `a` is equal, up to the order of the sides of equalities,
/// to the term of `b` at the same position from the front (from the back). When it fails on a
/// pair of terms, that pair is the first one, in that order, that does not match.
pub proof fn lemma_prefix_or_suffix_law(
    pool: PrimitivePool,
    a: Seq<TermId>,
    b: Seq<TermId>,
    orig_prefix: TermId,
    orig_target: TermId,
    rev: bool,
)
    ensures
        prefix_or_suffix_result(pool, a, b, orig_prefix, orig_target, rev) is Ok <==> (a.len() <= b.len()
            && forall|k: int| 0 <= k < a.len() ==> #[trigger] matches_at(pool, a, b, k, rev)),
        prefix_or_suffix_result(pool, a, b, orig_prefix, orig_target, rev) matches Err(CheckerError::ExpectedTermToBe(x, y)) ==> {
            &&& a.len() <= b.len()
            &&& !polyeq(pool, x, y)
            &&& exists|k: int| 0 <= k < a.len() && !matches_at(pool, a, b, k, rev)
                && (x, y) == (if rev { (a[a.len() - 1 - k], b[b.len() - 1 - k]) } else { (a[k], b[k]) })
                && forall|j: int| 0 <= j < k ==> #[trigger] matches_at(pool, a, b, j, rev)
        },
        a.len() > b.len() ==> prefix_or_suffix_result(pool, a, b, orig_prefix, orig_target, rev) == (if rev {
            Err::<(), CheckerError>(CheckerError::ExpectedToBeSuffix(orig_prefix, orig_target))
        } else {
            Err::<(), CheckerError>(CheckerError::ExpectedToBePrefix(orig_prefix, orig_target))
        }),
{
    lemma_first_unequal(pool, a, b, rev, a.len() as int);
    if a.len() <= b.len() {
        if let Some(k) = first_unequal(pool, a, b, rev, a.len() as int) {
            assert(!matches_at(pool, a, b, k, rev));
        }
    }
}

/// What checking that `a` is a prefix (or suffix, when `rev` holds) of `b` gives.
pub open spec fn prefix_or_suffix_result(
    pool: PrimitivePool,
    a: Seq<TermId>,
    b: Seq<TermId>,
    orig_prefix: TermId,
    orig_target: TermId,
    rev: bool,
) -> Result<(), CheckerError> {
    if a.len() > b.len() {
        if rev {
            Err(CheckerError::ExpectedToBeSuffix(orig_prefix, orig_target))
        } else {
            Err(CheckerError::ExpectedToBePrefix(orig_prefix, orig_target))
        }
    } else {
        match first_unequal(pool, a, b, rev, a.len() as int) {
            Some(k) => Err(CheckerError::ExpectedTermToBe(aligned(a, b, k, rev).0, aligned(a, b, k, rev).1)),
            None => Ok(()),
        }
    }
}

/// The number of aligned positions, from `k` on, at which `a` and `b` keep agreeing up to the
/// order of the sides of equalities, plus `k`.
pub open spec fn common_len(pool: PrimitivePool, a: Seq<TermId>, b: Seq<TermId>, rev: bool, k: int) -> int
    decreases (if a.len() < b.len() { a.len() } else { b.len() }) - k,
{
    if 0 <= k < (if a.len() < b.len() { a.len() } else { b.len() })
        && polyeq(pool, aligned(a, b, k, rev).0, aligned(a, b, k, rev).1) {
        common_len(pool, a, b, rev, k + 1)
    } else {
        k
    }
}

proof fn lemma_common_len_from(pool: PrimitivePool, a: Seq<TermId>, b: Seq<TermId>, rev: bool, k: int)
    requires
        0 <= k <= (if a.len() < b.len() { a.len() } else { b.len() }),
    ensures
        k <= common_len(pool, a, b, rev, k) <= (if a.len() < b.len() { a.len() } else { b.len() }),
        forall|j: int| k <= j < common_len(pool, a, b, rev, k) ==> #[trigger] matches_at(pool, a, b, j, rev),
        common_len(pool, a, b, rev, k) < (if a.len() < b.len() { a.len() } else { b.len() })
            ==> !matches_at(pool, a, b, common_len(pool, a, b, rev, k), rev),
    decreases (if a.len() < b.len() { a.len() } else { b.len() }) - k,
{
    let m = if a.len() < b.len() { a.len() } else { b.len() };
    assert(matches_at(pool, a, b, k, rev) == polyeq(pool, aligned(a, b, k, rev).0, aligned(a, b, k, rev).1));
    if k < m && matches_at(pool, a, b, k, rev) {
        lemma_common_len_from(pool, a, b, rev, k + 1);
    }
}

/// The common part that stripping a prefix (suffix, when `rev` holds) removes is the longest
/// run of aligned positions, from the front (back), whose terms are equal up to the order of the
/// sides of equalities: every position before it matches, and the one at its end, if both lists
/// reach it, does not.
pub proof fn lemma_common_len_law(pool: PrimitivePool, a: Seq<TermId>, b: Seq<TermId>, rev: bool)
    ensures
        0 <= common_len(pool, a, b, rev, 0) <= a.len(),
        common_len(pool, a, b, rev, 0) <= b.len(),
        forall|j: int| 0 <= j < common_len(pool, a, b, rev, 0) ==> #[trigger] matches_at(pool, a, b, j, rev),
        common_len(pool, a, b, rev, 0) < a.len() && common_len(pool, a, b, rev, 0) < b.len()
            ==> !matches_at(pool, a, b, common_len(pool, a, b, rev, 0), rev),
{
    lemma_common_len_from(pool, a, b, rev, 0);
}

/// A copy of the terms of `v` from `from` to `to`.
fn copy_range(v: &Vec<TermId>, from: usize, to: usize) -> (r: Vec<TermId>)
    requires
        from <= to <= v@.len(),
    ensures
        r@ == v@.subrange(from as int, to as int),
{
    let mut r: Vec<TermId> = Vec::new();
    let mut i: usize = from;
    while i < to
        invariant
            from <= i <= to,
            to <= v@.len(),
            r@ == v@.subrange(from as int, i as int),
        decreases to - i,
    {
        r.push(v[i]);
        assert(v@.subrange(from as int, i + 1) =~= v@.subrange(from as int, i as int).push(v@[i as int]));
        i += 1;
    }
    r
}

/// Whether `s` and `t` agree on every position that both have.
pub open spec fn compatible(s: Seq<TermId>, t: Seq<TermId>) -> bool {
    forall|k: int| 0 <= k < s.len() && k < t.len() ==> s[k] == t[k]
}

/// Whether the terms of `s` from position `start` on agree with `t` on every position that both
/// have.
fn compatible_from(s: &[TermId], start: usize, t: &[TermId]) -> (res: bool)
    requires
        start <= s@.len(),
    ensures
        res == compatible(s@.skip(start as int), t@),
{
    let mut k: usize = 0;
    while k < s.len() - start && k < t.len()
        invariant
            start <= s@.len(),
            k <= s@.len() - start,
            k <= t@.len(),
            forall|m: int| 0 <= m < k ==> s@[start + m] == t@[m],
        decreases t@.len() - k,
    {
        if s[start + k] != t[k] {
            assert(s@.skip(start as int)[k as int] == s@[start + k]);
            return false;
        }
        k += 1;
    }
    assert forall|m: int| 0 <= m < s@.skip(start as int).len() && m < t@.len() implies s@.skip(start as int)[m] == t@[m] by {
        assert(s@.skip(start as int)[m] == s@[start + m]);
    }
    true
}

/// A copy of a list of terms.
/// Appends the terms `xs` to `acc`.
fn append_ids(acc: &mut Vec<TermId>, xs: &Vec<TermId>)
    ensures
        final(acc)@ == old(acc)@ + xs@,
{
    let ghost a0 = acc@;
    let mut i: usize = 0;
    while i < xs.len()
        invariant
            i <= xs@.len(),
            acc@ == a0 + xs@.take(i as int),
        decreases xs@.len() - i,
    {
        acc.push(xs[i]);
        assert(xs@.take(i + 1) =~= xs@.take(i as int).push(xs@[i as int]));
        i += 1;
    }
    assert(xs@.take(xs@.len() as int) =~= xs@);
}

fn copy_ids(v: &Vec<TermId>) -> (r: Vec<TermId>)
    ensures
        r@ == v@,
{
    let mut r: Vec<TermId> = Vec::new();
    let mut i: usize = 0;
    while i < v.len()
        invariant
            i <= v@.len(),
            r@ == v@.take(i as int),
        decreases v@.len() - i,
    {
        r.push(v[i]);
        assert(v@.take(i + 1) =~= v@.take(i as int).push(v@[i as int]));
        i += 1;
    }
    assert(v@.take(v@.len() as int) =~= v@);
    r
}


/// The flat forms of the first `n` terms of `ids`, each its own flat form, are their pieces.
proof fn lemma_flat_list_of_flat(p: PrimitivePool, ids: Seq<TermId>, r: TermId, n: int)
    requires
        0 <= n <= ids.len(),
        forall|k: int| 0 <= k < ids.len() ==> #[trigger] ids[k] < r,
        forall|k: int| 0 <= k < ids.len() ==> flat_pieces(p, #[trigger] ids[k]) == seq![piece_of(p, ids[k])],
    ensures
        flat_pieces_list(p, ids, r, n) == pieces_of(p, ids.take(n)),
    decreases n,
{
    if n > 0 {
        lemma_flat_list_of_flat(p, ids, r, n - 1);
        assert(pieces_of(p, ids.take(n)) =~= pieces_of(p, ids.take(n - 1)) + seq![piece_of(p, ids[n - 1])]);
        assert(flat_pieces(p, ids[n - 1]) == seq![piece_of(p, ids[n - 1])]);
    } else {
        assert(pieces_of(p, ids.take(0)) =~= Seq::<Piece>::empty());
    }
}

/// Turning terms that are each their own flat form (single-character constants, and terms that
/// are neither string constants nor concatenations) into a term with `NormalizedConcat::to_term`
/// and back with `NormalizedConcat::from_term` gives back their pieces.
pub proof fn lemma_to_term_from_term(p: PrimitivePool, ids: Seq<TermId>, r: TermId)
    requires
        p.wf(),
        forall|k: int| 0 <= k < ids.len() ==> #[trigger] ids[k] < p.size()
            && flat_pieces(p, ids[k]) == seq![piece_of(p, ids[k])],
        ids.len() == 0 ==> is_string(p, r, Seq::empty()),
        ids.len() == 1 ==> r == ids[0],
        ids.len() >= 2 ==> is_op(p, r, Operator::StrConcat, ids),
    ensures
        flat_pieces(p, r) == pieces_of(p, ids),
{
    if ids.len() == 0 {
        assert(pieces_of(p, ids) =~= Seq::<Piece>::empty());
    } else if ids.len() == 1 {
        assert(pieces_of(p, ids) =~= seq![piece_of(p, ids[0])]);
    } else {
        p.lemma_children_below(r);
        assert(children(p.node(r)) == ids);
        assert forall|k: int| 0 <= k < ids.len() implies #[trigger] ids[k] < r by {
            assert(children(p.node(r))[k] == ids[k]);
        }
        lemma_flat_list_of_flat(p, ids, r, ids.len() as int);
        assert(ids.take(ids.len() as int) =~= ids);
    }
}


/// A term that is neither a concatenation nor a string constant whose length is not one is its
/// own flat form.
proof fn lemma_flat_term(p: PrimitivePool, x: TermId)
    requires
        !(p.node(x) matches Term::Op(o, _) && o == Operator::StrConcat),
        !(p.node(x) matches Term::Const(Constant::String(s)) && s@.len() != 1),
    ensures
        flat_pieces(p, x) == seq![piece_of(p, x)],
{
    if let Term::Const(Constant::String(s)) = p.node(x) {
        assert(s@.len() == 1);
        assert(s@.drop_last() =~= Seq::<char>::empty());
        assert(char_pieces(s@.drop_last()) =~= Seq::<Piece>::empty());
        assert(char_pieces(s@) =~= Seq::<Piece>::empty().push(Piece::Letter(s@[0] as u32)));
    }
}

/// In a pool, two terms that stand for the same piece are the same term.
proof fn lemma_piece_injective(p: PrimitivePool, x: TermId, y: TermId)
    requires
        p.wf(),
        x < p.size(),
        y < p.size(),
        piece_of(p, x) == piece_of(p, y),
    ensures
        x == y,
{
    if let (Term::Const(Constant::String(s)), Term::Const(Constant::String(t))) = (p.node(x), p.node(y)) {
        if s@.len() == 1 && t@.len() == 1 {
            assert(s@[0] as u32 == t@[0] as u32);
            vstd::utf8::char_u32_cast(s@[0], s@[0] as u32);
            vstd::utf8::char_u32_cast(t@[0], t@[0] as u32);
            assert(s@[0] == t@[0]);
            assert(s@ =~= t@);
            p.lemma_unique(x, y);
        }
    }
}

/// Turning a list of terms, none of which is a concatenation or a string constant whose length is
/// not one, into a term with `NormalizedConcat::to_term` (from pool `p0` to pool `p1`), and back
/// with `NormalizedConcat::from_term` (from pool `p1` to pool `p2`), gives back the same list.
pub proof fn lemma_to_term_from_term_ids(
    p0: PrimitivePool,
    p1: PrimitivePool,
    p2: PrimitivePool,
    ids: Seq<TermId>,
    r: TermId,
    out: Seq<TermId>,
)
    requires
        p0.wf(),
        p1.wf(),
        p2.wf(),
        extends(p1, p0),
        extends(p2, p1),
        forall|k: int| 0 <= k < ids.len() ==> #[trigger] ids[k] < p0.size()
            && !(p0.node(ids[k]) matches Term::Op(o, _) && o == Operator::StrConcat)
            && !(p0.node(ids[k]) matches Term::Const(Constant::String(s)) && s@.len() != 1),
        ids.len() == 0 ==> is_string(p1, r, Seq::empty()),
        ids.len() == 1 ==> r == ids[0],
        ids.len() >= 2 ==> is_op(p1, r, Operator::StrConcat, ids),
        r < p1.size(),
        forall|k: int| 0 <= k < out.len() ==> #[trigger] out[k] < p2.size(),
        pieces_of(p2, out) == flat_pieces(p1, r),
    ensures
        out == ids,
{
    assert forall|k: int| 0 <= k < ids.len() implies #[trigger] ids[k] < p1.size()
        && flat_pieces(p1, ids[k]) == seq![piece_of(p1, ids[k])] by {
        assert(p1.node(ids[k]) == p0.node(ids[k]));
        lemma_flat_term(p1, ids[k]);
    }
    lemma_to_term_from_term(p1, ids, r);
    lemma_pieces_stable(p2, p1, ids);
    assert(pieces_of(p2, out).len() == out.len());
    assert(out.len() == ids.len());
    assert forall|k: int| 0 <= k < out.len() implies out[k] == ids[k] by {
        assert(pieces_of(p2, out)[k] == piece_of(p2, out[k]));
        assert(pieces_of(p2, ids)[k] == piece_of(p2, ids[k]));
        assert(ids[k] < p1.size());
        lemma_piece_injective(p2, out[k], ids[k]);
    }
    assert(out =~= ids);
}

} // verus!
