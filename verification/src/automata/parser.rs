//! Reading an automaton from its textual description:
//!
//! ```text
//! automaton NAME {
//!     init STATE;
//!     FROM -> TO [LOW, HIGH];
//!     ...
//!     accepting STATE;
//!     ...
//! };
//! ```
//!
//! Names are identifiers (a letter, then letters, digits and underscores), bounds are decimal
//! numerals of 16-bit symbols, and whitespace is spaces, tabs, carriage returns and line feeds.

use vstd::prelude::*;
use vstd::string::StrSliceExecFns;

use crate::automata::construction::built;
use crate::automata::Automaton;

verus! {

/// Whitespace between the parts of a description.
pub open spec fn is_space(c: char) -> bool {
    c == ' ' || c == '\t' || c == '\r' || c == '\n'
}

/// An ASCII letter.
pub open spec fn is_letter(c: char) -> bool {
    ('a' <= c <= 'z') || ('A' <= c <= 'Z')
}

/// A character that may follow the first letter of an identifier.
pub open spec fn is_word_char(c: char) -> bool {
    is_letter(c) || ('0' <= c <= '9') || c == '_'
}

/// An ASCII digit.
pub open spec fn is_digit(c: char) -> bool {
    '0' <= c <= '9'
}

/// The kinds of runs of characters of a description.
pub enum Run {
    Space,
    Word,
    Digits,
}

/// Whether `c` may stand in a run of kind `k`.
pub open spec fn in_run(c: char, k: Run) -> bool {
    match k {
        Run::Space => is_space(c),
        Run::Word => is_word_char(c),
        Run::Digits => is_digit(c),
    }
}

/// The end of the run of kind `k` that starts at `i`.
pub open spec fn run_to(s: Seq<char>, i: int, k: Run) -> int
    decreases s.len() - i,
{
    if 0 <= i < s.len() && in_run(s[i], k) {
        run_to(s, i + 1, k)
    } else {
        i
    }
}

/// A run ends within the input.
pub proof fn lemma_run_to(s: Seq<char>, i: int, k: Run)
    requires
        0 <= i <= s.len(),
    ensures
        i <= run_to(s, i, k) <= s.len(),
    decreases s.len() - i,
{
    if i < s.len() && in_run(s[i], k) {
        lemma_run_to(s, i + 1, k);
    }
}

/// A run ends at or after its start.
pub proof fn lemma_run_to_ge(s: Seq<char>, i: int, k: Run)
    ensures
        i <= run_to(s, i, k),
    decreases s.len() - i,
{
    if 0 <= i < s.len() && in_run(s[i], k) {
        lemma_run_to_ge(s, i + 1, k);
    }
}

/// A range ends after it starts.
proof fn lemma_range_end(s: Seq<char>, i: int)
    ensures
        range_at(s, i) matches Some((e, _)) ==> i < e,
{
    if has_char(s, i, '[') {
        let a = run_to(s, i + 1, Run::Space);
        lemma_run_to_ge(s, i + 1, Run::Space);
        lemma_run_to_ge(s, a, Run::Digits);
        if let Some((e1, _)) = numeral_at(s, a) {
            let b = run_to(s, e1, Run::Space);
            lemma_run_to_ge(s, e1, Run::Space);
            lemma_run_to_ge(s, b + 1, Run::Space);
            lemma_run_to_ge(s, run_to(s, b + 1, Run::Space), Run::Digits);
        }
    }
}

/// Whether the text `t` stands at position `i`.
pub open spec fn has_text(s: Seq<char>, i: int, t: Seq<char>) -> bool {
    0 <= i && i + t.len() <= s.len() && s.subrange(i, i + t.len()) == t
}

/// Whether the character `c` stands at position `i`.
pub open spec fn has_char(s: Seq<char>, i: int, c: char) -> bool {
    0 <= i < s.len() && s[i] == c
}

/// The end of the identifier that starts at `i`, if one does.
pub open spec fn ident_at(s: Seq<char>, i: int) -> Option<int> {
    if 0 <= i < s.len() && is_letter(s[i]) {
        Some(run_to(s, i + 1, Run::Word))
    } else {
        None
    }
}

/// The value of the decimal digits `d`.
pub open spec fn digits_value(d: Seq<char>) -> nat
    decreases d.len(),
{
    if d.len() == 0 {
        0
    } else {
        digits_value(d.drop_last()) * 10 + (d.last() as nat - '0' as nat) as nat
    }
}

/// The end and the value of the numeral that starts at `i`, if one does and its value is a
/// 16-bit symbol.
pub open spec fn numeral_at(s: Seq<char>, i: int) -> Option<(int, nat)> {
    let e = run_to(s, i, Run::Digits);
    if e > i && digits_value(s.subrange(i, e)) <= 0xffff {
        Some((e, digits_value(s.subrange(i, e))))
    } else {
        None
    }
}

/// `[LOW, HIGH]` at `i`, with whitespace after `[`, before `,` and after `,`: its end and its
/// bounds.
pub open spec fn range_at(s: Seq<char>, i: int) -> Option<(int, (nat, nat))> {
    if !has_char(s, i, '[') {
        None
    } else {
        match numeral_at(s, run_to(s, i + 1, Run::Space)) {
            None => None,
            Some((e1, low)) => {
                let b = run_to(s, e1, Run::Space);
                if !has_char(s, b, ',') {
                    None
                } else {
                    match numeral_at(s, run_to(s, b + 1, Run::Space)) {
                        None => None,
                        Some((e2, high)) => if has_char(s, e2, ']') {
                            Some((e2 + 1, (low, high)))
                        } else {
                            None
                        },
                    }
                }
            },
        }
    }
}

/// A transition as written: the spans of the names of its source and target, and its bounds.
pub type TransitionSyntax = ((int, int), (int, int), (nat, nat));

/// `FROM -> TO [LOW, HIGH];` at `i`, with whitespace before `->`, after it and before the range:
/// its end and what it says.
pub open spec fn transition_at(s: Seq<char>, i: int) -> Option<(int, TransitionSyntax)> {
    match ident_at(s, i) {
        None => None,
        Some(e1) => {
            let a = run_to(s, e1, Run::Space);
            if !has_text(s, a, seq!['-', '>']) {
                None
            } else {
                let b = run_to(s, a + 2, Run::Space);
                match ident_at(s, b) {
                    None => None,
                    Some(e2) => match range_at(s, run_to(s, e2, Run::Space)) {
                        None => None,
                        Some((e3, r)) => if has_char(s, e3, ';') {
                            Some((e3 + 1, ((i, e1), (b, e2), r)))
                        } else {
                            None
                        },
                    },
                }
            }
        },
    }
}

/// `KEYWORD STATE;` at `i`, with whitespace after the keyword: its end and the span of the name.
pub open spec fn declaration_at(s: Seq<char>, i: int, keyword: Seq<char>) -> Option<(int, (int, int))> {
    if !has_text(s, i, keyword) {
        None
    } else {
        let a = run_to(s, i + keyword.len(), Run::Space);
        if a == i + keyword.len() {
            None
        } else {
            match ident_at(s, a) {
                None => None,
                Some(e) => if has_char(s, e, ';') {
                    Some((e + 1, (a, e)))
                } else {
                    None
                },
            }
        }
    }
}

/// What the parts of a description end where they end.
pub proof fn lemma_parts_end(s: Seq<char>, i: int)
    requires
        0 <= i <= s.len(),
    ensures
        transition_at(s, i) matches Some((e, _)) ==> i < e <= s.len(),
        declaration_at(s, i, seq!['a', 'c', 'c', 'e', 'p', 't', 'i', 'n', 'g']) matches Some((e, _)) ==> i < e <= s.len(),
{
    if let Some(e1) = ident_at(s, i) {
        lemma_run_to(s, i + 1, Run::Word);
        lemma_run_to(s, e1, Run::Space);
        let a = run_to(s, e1, Run::Space);
        if has_text(s, a, seq!['-', '>']) {
            lemma_run_to(s, a + 2, Run::Space);
            let b = run_to(s, a + 2, Run::Space);
            if let Some(e2) = ident_at(s, b) {
                lemma_run_to(s, b + 1, Run::Word);
                lemma_run_to(s, e2, Run::Space);
                lemma_range_end(s, run_to(s, e2, Run::Space));
            }
        }
    }
    let kw = seq!['a', 'c', 'c', 'e', 'p', 't', 'i', 'n', 'g'];
    if has_text(s, i, kw) {
        lemma_run_to(s, i + kw.len(), Run::Space);
        let a = run_to(s, i + kw.len(), Run::Space);
        if ident_at(s, a) is Some {
            lemma_run_to(s, a + 1, Run::Word);
        }
    }
}

/// As many transitions as stand from `i` on, each after whitespace: where they end, and what
/// they say.
pub open spec fn transitions_from(s: Seq<char>, i: int) -> (int, Seq<TransitionSyntax>)
    decreases s.len() - i,
{
    if i < 0 || i > s.len() {
        (i, Seq::empty())
    } else {
        let j = run_to(s, i, Run::Space);
        proof {
            lemma_run_to(s, i, Run::Space);
            lemma_parts_end(s, j);
        }
        match transition_at(s, j) {
            Some((e, t)) => {
                let (end, rest) = transitions_from(s, e);
                (end, seq![t] + rest)
            },
            None => (i, Seq::empty()),
        }
    }
}

/// As many declarations of accepting states as stand from `i` on, each after whitespace: where
/// they end, and the spans of the names.
pub open spec fn accepting_from(s: Seq<char>, i: int) -> (int, Seq<(int, int)>)
    decreases s.len() - i,
{
    if i < 0 || i > s.len() {
        (i, Seq::empty())
    } else {
        let j = run_to(s, i, Run::Space);
        proof {
            lemma_run_to(s, i, Run::Space);
            lemma_parts_end(s, j);
        }
        match declaration_at(s, j, seq!['a', 'c', 'c', 'e', 'p', 't', 'i', 'n', 'g']) {
            Some((e, x)) => {
                let (end, rest) = accepting_from(s, e);
                (end, seq![x] + rest)
            },
            None => (i, Seq::empty()),
        }
    }
}

/// A description as read: where it ends, the span of its name, the span of the name of its
/// initial state, its transitions and the spans of the names of its accepting states.
pub type AutomatonSyntax = (int, (int, int), (int, int), Seq<TransitionSyntax>, Seq<(int, int)>);

/// The description at the start of `s`, if there is one: `automaton`, whitespace, its name,
/// `{`, the declaration of the initial state, transitions, declarations of accepting states,
/// `}` and `;`, with whitespace allowed after the name, after `{`, before each part and before
/// `}`.
pub open spec fn automaton_syntax(s: Seq<char>) -> Option<AutomatonSyntax> {
    let kw = seq!['a', 'u', 't', 'o', 'm', 'a', 't', 'o', 'n'];
    if !has_text(s, 0, kw) || run_to(s, 9, Run::Space) == 9 {
        None
    } else {
        let a = run_to(s, 9, Run::Space);
        match ident_at(s, a) {
            None => None,
            Some(e) => {
                let b = run_to(s, e, Run::Space);
                if !has_char(s, b, '{') {
                    None
                } else {
                    match declaration_at(s, run_to(s, b + 1, Run::Space), seq!['i', 'n', 'i', 't']) {
                        None => None,
                        Some((d, init)) => {
                            let (f, ts) = transitions_from(s, d);
                            let (g, acc) = accepting_from(s, f);
                            let h = run_to(s, g, Run::Space);
                            if has_char(s, h, '}') && has_char(s, h + 1, ';') {
                                Some((h + 2, (a, e), init, ts, acc))
                            } else {
                                None
                            }
                        },
                    }
                }
            },
        }
    }
}


/// `x` is the transition written `t` in `s`: the names of its states are the text of the spans of
/// `t`, and its range the bounds of `t`.
pub open spec fn transition_text(x: (&str, &str, (u16, u16)), s: Seq<char>, t: TransitionSyntax) -> bool {
    &&& x.0@ == s.subrange(t.0.0, t.0.1)
    &&& x.1@ == s.subrange(t.1.0, t.1.1)
    &&& x.2.0 as nat == t.2.0
    &&& x.2.1 as nat == t.2.1
}

/// `a` is the automaton that `Automaton::new` builds from the parts of the description read from
/// `s`, given to it as the transitions `tv` and the accepting states `av`.
pub open spec fn describes_with(
    a: Automaton,
    s: Seq<char>,
    name: (int, int),
    init: (int, int),
    ts: Seq<TransitionSyntax>,
    acc: Seq<(int, int)>,
    tv: Seq<(&str, &str, (u16, u16))>,
    av: Seq<&str>,
) -> bool {
    &&& tv.len() == ts.len()
    &&& forall|k: int| 0 <= k < ts.len() ==> #[trigger] transition_text(tv[k], s, ts[k])
    &&& av.len() == acc.len()
    &&& forall|k: int| 0 <= k < acc.len() ==> #[trigger] av[k]@ == s.subrange(acc[k].0, acc[k].1)
    &&& built(a, s.subrange(name.0, name.1), s.subrange(init.0, init.1), tv, av)
}

/// `a` is the automaton that `Automaton::new` builds from the parts of the description read from
/// `s`: its name, initial state, transitions and accepting states.
pub open spec fn describes(
    a: Automaton,
    s: Seq<char>,
    name: (int, int),
    init: (int, int),
    ts: Seq<TransitionSyntax>,
    acc: Seq<(int, int)>,
) -> bool {
    exists|tv: Seq<(&str, &str, (u16, u16))>, av: Seq<&str>| #[trigger] describes_with(a, s, name, init, ts, acc, tv, av)
}

/// The characters of `input`.
fn chars_of(input: &str) -> (v: Vec<char>)
    ensures
        v@ == input@,
{
    let mut v: Vec<char> = Vec::new();
    for c in it: input.chars()
        invariant
            it.seq() == input@,
            v@ == input@.take(it.index()),
    {
        v.push(c);
        assert(input@.take(it.index() + 1) =~= input@.take(it.index()).push(c));
    }
    assert(v@ =~= input@);
    v
}

/// Whether `c` may stand in a run of kind `k`.
fn in_run_exec(c: char, k: &Run) -> (r: bool)
    ensures
        r == in_run(c, *k),
{
    match k {
        Run::Space => c == ' ' || c == '\t' || c == '\r' || c == '\n',
        Run::Word => ('a' <= c && c <= 'z') || ('A' <= c && c <= 'Z') || ('0' <= c && c <= '9') || c == '_',
        Run::Digits => '0' <= c && c <= '9',
    }
}

/// The end of the run of kind `k` that starts at `i`.
fn run_end_of(s: &Vec<char>, i: usize, k: Run) -> (e: usize)
    requires
        i <= s@.len(),
    ensures
        e == run_to(s@, i as int, k),
        i <= e <= s@.len(),
{
    let mut e = i;
    while e < s.len() && in_run_exec(s[e], &k)
        invariant
            i <= e <= s@.len(),
            run_to(s@, i as int, k) == run_to(s@, e as int, k),
        decreases s@.len() - e,
    {
        e += 1;
    }
    e
}

/// Whether the text `t` stands at position `i`.
#[verifier::loop_isolation(false)]
fn has_text_exec(s: &Vec<char>, i: usize, t: &Vec<char>) -> (r: bool)
    requires
        s@.len() + 2 < usize::MAX,
    ensures
        r == has_text(s@, i as int, t@),
{
    if i > s.len() || t.len() > s.len() - i {
        return false;
    }
    let mut k: usize = 0;
    while k < t.len()
        invariant
            i + t@.len() <= s@.len(),
            k <= t@.len(),
            forall|m: int| 0 <= m < k ==> s@[i + m] == t@[m],
        decreases t@.len() - k,
    {
        assert(i + k < s@.len());
        if s[i + k] != t[k] {
            assert(s@.subrange(i as int, i + t@.len())[k as int] != t@[k as int]);
            return false;
        }
        k += 1;
    }
    assert(s@.subrange(i as int, i + t@.len()) =~= t@);
    true
}

/// Whether the character `c` stands at position `i`.
fn has_char_exec(s: &Vec<char>, i: usize, c: char) -> (r: bool)
    ensures
        r == has_char(s@, i as int, c),
{
    i < s.len() && s[i] == c
}

/// The end of the identifier that starts at `i`, if one does.
fn ident_exec(s: &Vec<char>, i: usize) -> (r: Option<usize>)
    requires
        s@.len() + 2 < usize::MAX,
        i <= s@.len(),
    ensures
        r matches Some(e) ==> ident_at(s@, i as int) == Some(e as int) && i < e <= s@.len(),
        r is None ==> ident_at(s@, i as int) is None,
{
    if i < s.len() && (('a' <= s[i] && s[i] <= 'z') || ('A' <= s[i] && s[i] <= 'Z')) {
        Some(run_end_of(s, i + 1, Run::Word))
    } else {
        None
    }
}

/// Appending digits never lowers the value.
proof fn lemma_digits_value_prefix(d: Seq<char>, m: int)
    requires
        0 <= m <= d.len(),
        forall|k: int| 0 <= k < d.len() ==> is_digit(#[trigger] d[k]),
    ensures
        digits_value(d.take(m)) <= digits_value(d),
    decreases d.len() - m,
{
    if m < d.len() {
        let e = d.take(m + 1);
        assert(e.drop_last() =~= d.take(m));
        assert(is_digit(d[m]));
        lemma_digits_value_prefix(d, m + 1);
    } else {
        assert(d.take(m) =~= d);
    }
}

/// The end and the value of the numeral that starts at `i`, if one does and its value is a
/// 16-bit symbol.
#[verifier::loop_isolation(false)]
fn numeral_exec(s: &Vec<char>, i: usize) -> (r: Option<(usize, u16)>)
    requires
        s@.len() + 2 < usize::MAX,
        i <= s@.len(),
    ensures
        r matches Some((e, v)) ==> numeral_at(s@, i as int) == Some((e as int, v as nat)) && e <= s@.len(),
        r is None ==> numeral_at(s@, i as int) is None,
{
    let e = run_end_of(s, i, Run::Digits);
    if e == i {
        return None;
    }
    let ghost d = s@.subrange(i as int, e as int);
    proof {
        lemma_run_digits(s@, i as int);
    }
    let mut value: u32 = 0;
    let mut k = i;
    while k < e
        invariant
            i <= k <= e <= s@.len(),
            d == s@.subrange(i as int, e as int),
            forall|m: int| 0 <= m < d.len() ==> is_digit(#[trigger] d[m]),
            value == digits_value(d.take(k - i)),
            value <= 0xffff,
        decreases e - k,
    {
        let c = s[k];
        assert(c == d[k - i]);
        assert(d.take(k - i + 1).drop_last() =~= d.take(k - i));
        let next = value * 10 + (c as u32 - '0' as u32);
        assert(next == digits_value(d.take(k - i + 1)));
        if next > 0xffff {
            proof {
                lemma_digits_value_prefix(d, k - i + 1);
            }
            return None;
        }
        value = next;
        k += 1;
    }
    assert(d.take(e - i) =~= d);
    Some((e, value as u16))
}

/// The digits of a run of digits are digits.
proof fn lemma_run_digits(s: Seq<char>, i: int)
    requires
        0 <= i <= s.len(),
    ensures
        forall|m: int| i <= m < run_to(s, i, Run::Digits) ==> is_digit(#[trigger] s[m]),
    decreases s.len() - i,
{
    if i < s.len() && is_digit(s[i]) {
        lemma_run_digits(s, i + 1);
    }
}

/// `[LOW, HIGH]` at `i`: its end and its bounds.
fn range_exec(s: &Vec<char>, i: usize) -> (r: Option<(usize, (u16, u16))>)
    requires
        s@.len() + 2 < usize::MAX,
        i <= s@.len(),
    ensures
        r matches Some((e, (l, h))) ==> range_at(s@, i as int) == Some((e as int, (l as nat, h as nat))) && e <= s@.len(),
        r is None ==> range_at(s@, i as int) is None,
{
    if !has_char_exec(s, i, '[') {
        return None;
    }
    let (e1, low) = match numeral_exec(s, run_end_of(s, i + 1, Run::Space)) {
        Some(x) => x,
        None => {
            return None;
        },
    };
    let b = run_end_of(s, e1, Run::Space);
    if !has_char_exec(s, b, ',') {
        return None;
    }
    let (e2, high) = match numeral_exec(s, run_end_of(s, b + 1, Run::Space)) {
        Some(x) => x,
        None => {
            return None;
        },
    };
    if has_char_exec(s, e2, ']') {
        Some((e2 + 1, (low, high)))
    } else {
        None
    }
}

/// A transition as read: the spans of the names of its source and target, and its range.
type TransitionSpans = ((usize, usize), (usize, usize), (u16, u16));

/// The spans of a transition as read, as written.
spec fn spans_of(t: TransitionSpans) -> TransitionSyntax {
    ((t.0.0 as int, t.0.1 as int), (t.1.0 as int, t.1.1 as int), (t.2.0 as nat, t.2.1 as nat))
}

/// `FROM -> TO [LOW, HIGH];` at `i`: its end and what it says.
fn transition_exec(s: &Vec<char>, i: usize) -> (r: Option<(usize, TransitionSpans)>)
    requires
        s@.len() + 2 < usize::MAX,
        i <= s@.len(),
    ensures
        r matches Some((e, t)) ==> transition_at(s@, i as int) == Some((e as int, spans_of(t))) && e <= s@.len()
            && t.0.0 <= t.0.1 <= s@.len() && t.1.0 <= t.1.1 <= s@.len(),
        r is None ==> transition_at(s@, i as int) is None,
{
    let e1 = match ident_exec(s, i) {
        Some(e) => e,
        None => {
            return None;
        },
    };
    let a = run_end_of(s, e1, Run::Space);
    let arrow: Vec<char> = vec!['-', '>'];
    assert(arrow@ =~= seq!['-', '>']);
    if !has_text_exec(s, a, &arrow) {
        return None;
    }
    let b = run_end_of(s, a + 2, Run::Space);
    let e2 = match ident_exec(s, b) {
        Some(e) => e,
        None => {
            return None;
        },
    };
    let (e3, range) = match range_exec(s, run_end_of(s, e2, Run::Space)) {
        Some(x) => x,
        None => {
            return None;
        },
    };
    if has_char_exec(s, e3, ';') {
        proof {
            lemma_run_to_ge(s@, i as int + 1, Run::Word);
            lemma_run_to_ge(s@, b as int + 1, Run::Word);
        }
        Some((e3 + 1, ((i, e1), (b, e2), range)))
    } else {
        None
    }
}

/// `KEYWORD STATE;` at `i`: its end and the span of the name.
fn declaration_exec(s: &Vec<char>, i: usize, keyword: &Vec<char>) -> (r: Option<(usize, (usize, usize))>)
    requires
        s@.len() + 2 < usize::MAX,
        i <= s@.len(),
    ensures
        r matches Some((e, x)) ==> declaration_at(s@, i as int, keyword@) == Some((e as int, (x.0 as int, x.1 as int)))
            && e <= s@.len() && x.0 <= x.1 <= s@.len(),
        r is None ==> declaration_at(s@, i as int, keyword@) is None,
{
    if !has_text_exec(s, i, keyword) {
        return None;
    }
    let a = run_end_of(s, i + keyword.len(), Run::Space);
    if a == i + keyword.len() {
        return None;
    }
    let e = match ident_exec(s, a) {
        Some(e) => e,
        None => {
            return None;
        },
    };
    if has_char_exec(s, e, ';') {
        proof {
            lemma_run_to_ge(s@, a as int + 1, Run::Word);
        }
        Some((e + 1, (a, e)))
    } else {
        None
    }
}

/// There are no more transitions than characters they stand in.
proof fn lemma_transitions_count(s: Seq<char>, i: int)
    requires
        0 <= i <= s.len(),
    ensures
        i <= transitions_from(s, i).0 <= s.len(),
        transitions_from(s, i).1.len() <= transitions_from(s, i).0 - i,
    decreases s.len() - i,
{
    let j = run_to(s, i, Run::Space);
    lemma_run_to(s, i, Run::Space);
    lemma_parts_end(s, j);
    if let Some((e, t)) = transition_at(s, j) {
        lemma_transitions_count(s, e);
    }
}

/// Reads the description of an automaton at the start of `input` (see `automaton_syntax`), and
/// builds it with `Automaton::new`; gives the input that follows the description, and the
/// automaton. Gives `None` when the input does not start with a description.
#[verifier::loop_isolation(false)]
pub fn parse_automata(input: &str) -> (res: Option<(&str, Automaton)>)
    requires
        2 * input@.len() + 1 < usize::MAX,
    ensures
        match automaton_syntax(input@) {
            None => res is None,
            Some((end, name, init, ts, acc)) => (res matches Some((rest, a)) && rest@ == input@.skip(end)
                && describes(a, input@, name, init, ts, acc)),
        },
{
    let s = chars_of(input);
    let kw: Vec<char> = vec!['a', 'u', 't', 'o', 'm', 'a', 't', 'o', 'n'];
    assert(kw@ =~= seq!['a', 'u', 't', 'o', 'm', 'a', 't', 'o', 'n']);
    if !has_text_exec(&s, 0, &kw) {
        return None;
    }
    let a = run_end_of(&s, 9, Run::Space);
    if a == 9 {
        return None;
    }
    let e = match ident_exec(&s, a) {
        Some(e) => e,
        None => {
            return None;
        },
    };
    let b = run_end_of(&s, e, Run::Space);
    if !has_char_exec(&s, b, '{') {
        return None;
    }
    let init_kw: Vec<char> = vec!['i', 'n', 'i', 't'];
    assert(init_kw@ =~= seq!['i', 'n', 'i', 't']);
    let (d, init) = match declaration_exec(&s, run_end_of(&s, b + 1, Run::Space), &init_kw) {
        Some(x) => x,
        None => {
            return None;
        },
    };
    let mut transitions: Vec<TransitionSpans> = Vec::new();
    let mut f = d;
    proof {
        lemma_transitions_count(s@, d as int);
    }
    loop
        invariant
            d <= f <= s@.len(),
            transitions_from(s@, d as int) == ({
                let (end, rest) = transitions_from(s@, f as int);
                (end, transitions@.map_values(|t: TransitionSpans| spans_of(t)) + rest)
            }),
            forall|k: int| #![trigger transitions@[k]] 0 <= k < transitions@.len() ==> {
                &&& transitions@[k].0.0 <= transitions@[k].0.1 <= s@.len()
                &&& transitions@[k].1.0 <= transitions@[k].1.1 <= s@.len()
            },
        decreases s@.len() - f,
    {
        let j = run_end_of(&s, f, Run::Space);
        proof {
            lemma_parts_end(s@, j as int);
        }
        match transition_exec(&s, j) {
            Some((next, t)) => {
                let ghost before = transitions@;
                transitions.push(t);
                assert(transitions@.map_values(|t: TransitionSpans| spans_of(t)) =~= before.map_values(|t: TransitionSpans| spans_of(t)).push(spans_of(t)));
                assert(transitions@.map_values(|t: TransitionSpans| spans_of(t)) + transitions_from(s@, next as int).1
                    =~= before.map_values(|t: TransitionSpans| spans_of(t)) + (seq![spans_of(t)] + transitions_from(s@, next as int).1));
                assert forall|m: int| #![trigger transitions@[m]] 0 <= m < transitions@.len() implies {
                    &&& transitions@[m].0.0 <= transitions@[m].0.1 <= s@.len()
                    &&& transitions@[m].1.0 <= transitions@[m].1.1 <= s@.len()
                } by {
                    if m < before.len() {
                        assert(transitions@[m] == before[m]);
                    }
                }
                f = next;
            },
            None => {
                break;
            },
        }
    }
    let accepting_kw: Vec<char> = vec!['a', 'c', 'c', 'e', 'p', 't', 'i', 'n', 'g'];
    assert(accepting_kw@ =~= seq!['a', 'c', 'c', 'e', 'p', 't', 'i', 'n', 'g']);
    let mut accepting: Vec<(usize, usize)> = Vec::new();
    let mut g = f;
    loop
        invariant
            f <= g <= s@.len(),
            accepting_kw@ == seq!['a', 'c', 'c', 'e', 'p', 't', 'i', 'n', 'g'],
            accepting_from(s@, f as int) == ({
                let (end, rest) = accepting_from(s@, g as int);
                (end, accepting@.map_values(|x: (usize, usize)| (x.0 as int, x.1 as int)) + rest)
            }),
            forall|k: int| #![trigger accepting@[k]] 0 <= k < accepting@.len() ==> accepting@[k].0 <= accepting@[k].1 <= s@.len(),
        decreases s@.len() - g,
    {
        let j = run_end_of(&s, g, Run::Space);
        proof {
            lemma_parts_end(s@, j as int);
        }
        match declaration_exec(&s, j, &accepting_kw) {
            Some((next, x)) => {
                let ghost before = accepting@;
                accepting.push(x);
                assert(accepting@.map_values(|x: (usize, usize)| (x.0 as int, x.1 as int))
                    =~= before.map_values(|x: (usize, usize)| (x.0 as int, x.1 as int)).push((x.0 as int, x.1 as int)));
                assert(accepting@.map_values(|x: (usize, usize)| (x.0 as int, x.1 as int)) + accepting_from(s@, next as int).1
                    =~= before.map_values(|x: (usize, usize)| (x.0 as int, x.1 as int)) + (seq![(x.0 as int, x.1 as int)] + accepting_from(s@, next as int).1));
                assert forall|m: int| #![trigger accepting@[m]] 0 <= m < accepting@.len() implies accepting@[m].0 <= accepting@[m].1 <= s@.len() by {
                    if m < before.len() {
                        assert(accepting@[m] == before[m]);
                    }
                }
                g = next;
            },
            None => {
                break;
            },
        }
    }
    let h = run_end_of(&s, g, Run::Space);
    if !(has_char_exec(&s, h, '}') && has_char_exec(&s, h + 1, ';')) {
        return None;
    }
    let mut ts: Vec<(&str, &str, (u16, u16))> = Vec::new();
    let mut k: usize = 0;
    while k < transitions.len()
        invariant
            k <= transitions@.len(),
            s@ == input@,
            ts@.len() == k,
            forall|m: int| #![trigger transitions@[m]] 0 <= m < transitions@.len() ==> {
                &&& transitions@[m].0.0 <= transitions@[m].0.1 <= s@.len()
                &&& transitions@[m].1.0 <= transitions@[m].1.1 <= s@.len()
            },
            forall|m: int| 0 <= m < k ==> #[trigger] transition_text(ts@[m], input@, spans_of(transitions@[m])),
        decreases transitions@.len() - k,
    {
        let t = transitions[k];
        let from = input.substring_char(t.0.0, t.0.1);
        let to = input.substring_char(t.1.0, t.1.1);
        ts.push((from, to, t.2));
        k += 1;
    }
    let mut acc: Vec<&str> = Vec::new();
    let mut k: usize = 0;
    while k < accepting.len()
        invariant
            k <= accepting@.len(),
            s@ == input@,
            acc@.len() == k,
            forall|m: int| #![trigger accepting@[m]] 0 <= m < accepting@.len() ==> accepting@[m].0 <= accepting@[m].1 <= s@.len(),
            forall|m: int| 0 <= m < k ==> #[trigger] acc@[m]@ == input@.subrange(accepting@[m].0 as int, accepting@[m].1 as int),
        decreases accepting@.len() - k,
    {
        let x = accepting[k];
        assert(x.0 <= x.1 <= s@.len());
        let ghost before = acc@;
        acc.push(input.substring_char(x.0, x.1));
        assert forall|m: int| 0 <= m < k + 1 implies #[trigger] acc@[m]@ == input@.subrange(accepting@[m].0 as int, accepting@[m].1 as int) by {
            if m < k {
                assert(acc@[m] == before[m]);
            }
        }
        k += 1;
    }
    proof {
        lemma_transitions_count(s@, d as int);
        assert(transitions@.len() <= s@.len());
    }
    let name = input.substring_char(a, e);
    let init_name = input.substring_char(init.0, init.1);
    let automaton = Automaton::new(name, init_name, ts, acc);
    let rest = input.substring_char(h + 2, s.len());
    proof {
        assert(rest@ =~= input@.skip(h + 2));
        let tsyn = transitions@.map_values(|t: TransitionSpans| spans_of(t));
        let asyn = accepting@.map_values(|x: (usize, usize)| (x.0 as int, x.1 as int));
        assert(transitions_from(s@, d as int).1 =~= tsyn);
        assert(accepting_from(s@, f as int).1 =~= asyn);
        assert(describes_with(automaton, input@, (a as int, e as int), (init.0 as int, init.1 as int), tsyn, asyn, ts@, acc@));
    }
    Some((rest, automaton))
}

} // verus!
