//! A lexer for the SMT-LIB and Alethe formats: reading characters with their positions, skipping
//! whitespace and comments, and unicode escape sequences in string literals.

use vstd::prelude::*;
use vstd::string::StringExecFns;

use crate::error::{Error, ParserError, ParserErrorView};
use crate::utils::{ascii_alphanumeric, is_symbol_character, symbol_punctuation};

verus! {

/// A reserved word in the SMT-LIB and Alethe lexicon.
#[derive(Debug, Clone, Copy, PartialEq, Eq, Structural)]
pub enum Reserved {
    Underscore,
    Bang,
    As,
    Let,
    Exists,
    Forall,
    Match,
    Choice,
    Lambda,
    Cl,
    Assume,
    Step,
    Anchor,
    DeclareFun,
    DeclareConst,
    DeclareSort,
    DeclareDatatype,
    DeclareDatatypes,
    Par,
    DefineFun,
    DefineFunRec,
    DefineFunsRec,
    DefineSort,
    Assert,
    CheckSatAssuming,
    SetLogic,
    DeclareRareRule,
}

/// A token in the SMT-LIB and Alethe formats.
#[derive(Debug, Clone, PartialEq, Eq)]
pub enum Token {
    /// The `(` token.
    OpenParen,
    /// The `)` token.
    CloseParen,
    /// A symbol, simple or quoted; a quoted symbol without its bars.
    Symbol(String),
    /// A keyword: a simple symbol after `:`, without the `:`.
    Keyword(String),
    /// An integer numeral literal: whether it is negated, and its decimal digits.
    Numeral(bool, String),
    /// A decimal numeral literal, read as a fraction: whether it is negated, and the decimal
    /// digits of its numerator and of its denominator. `n/d` gives the digits of `n` and of `d`;
    /// `i.f` gives the digits of `i` followed by those of `f`, and a `1` followed by as many
    /// zeros as `f` has digits.
    Decimal(bool, String, String),
    /// A bitvector literal: its digits, the base they are written in, and its width in bits.
    Bitvector(String, u32, usize),
    /// A string literal, with its escape sequences resolved.
    String(String),
    /// A reserved word.
    ReservedWord(Reserved),
    /// The end of the input.
    Eof,
}

/// A token, with its text as sequences of characters.
pub enum TokenView {
    OpenParen,
    CloseParen,
    Symbol(Seq<char>),
    Keyword(Seq<char>),
    Numeral(bool, Seq<char>),
    Decimal(bool, Seq<char>, Seq<char>),
    Bitvector(Seq<char>, u32, nat),
    String(Seq<char>),
    ReservedWord(Reserved),
    Eof,
}

impl View for Token {
    type V = TokenView;

    open spec fn view(&self) -> TokenView {
        match self {
            Token::OpenParen => TokenView::OpenParen,
            Token::CloseParen => TokenView::CloseParen,
            Token::Symbol(x) => TokenView::Symbol(x@),
            Token::Keyword(x) => TokenView::Keyword(x@),
            Token::Numeral(n, d) => TokenView::Numeral(*n, d@),
            Token::Decimal(n, a, b) => TokenView::Decimal(*n, a@, b@),
            Token::Bitvector(d, r, w) => TokenView::Bitvector(d@, *r, *w as nat),
            Token::String(x) => TokenView::String(x@),
            Token::ReservedWord(r) => TokenView::ReservedWord(*r),
            Token::Eof => TokenView::Eof,
        }
    }
}

/// The reserved word that `w` spells, if any.
pub open spec fn reserved_of(w: Seq<char>) -> Option<Reserved> {
    if w == "_"@ { Some(Reserved::Underscore) }
    else if w == "!"@ { Some(Reserved::Bang) }
    else if w == "as"@ { Some(Reserved::As) }
    else if w == "let"@ { Some(Reserved::Let) }
    else if w == "exists"@ { Some(Reserved::Exists) }
    else if w == "forall"@ { Some(Reserved::Forall) }
    else if w == "match"@ { Some(Reserved::Match) }
    else if w == "choice"@ { Some(Reserved::Choice) }
    else if w == "lambda"@ { Some(Reserved::Lambda) }
    else if w == "cl"@ { Some(Reserved::Cl) }
    else if w == "assume"@ { Some(Reserved::Assume) }
    else if w == "step"@ { Some(Reserved::Step) }
    else if w == "anchor"@ { Some(Reserved::Anchor) }
    else if w == "declare-fun"@ { Some(Reserved::DeclareFun) }
    else if w == "declare-datatype"@ { Some(Reserved::DeclareDatatype) }
    else if w == "declare-datatypes"@ { Some(Reserved::DeclareDatatypes) }
    else if w == "par"@ { Some(Reserved::Par) }
    else if w == "declare-const"@ { Some(Reserved::DeclareConst) }
    else if w == "declare-sort"@ { Some(Reserved::DeclareSort) }
    else if w == "define-fun"@ { Some(Reserved::DefineFun) }
    else if w == "define-fun-rec"@ { Some(Reserved::DefineFunRec) }
    else if w == "define-funs-rec"@ { Some(Reserved::DefineFunsRec) }
    else if w == "define-sort"@ { Some(Reserved::DefineSort) }
    else if w == "assert"@ { Some(Reserved::Assert) }
    else if w == "check-sat-assuming"@ { Some(Reserved::CheckSatAssuming) }
    else if w == "set-logic"@ { Some(Reserved::SetLogic) }
    else if w == "declare-rare-rule"@ { Some(Reserved::DeclareRareRule) }
    else { None }
}

/// The text of each reserved word.
pub open spec fn reserved_text(r: Reserved) -> Seq<char> {
    match r {
        Reserved::Underscore => "_"@,
        Reserved::Bang => "!"@,
        Reserved::As => "as"@,
        Reserved::Let => "let"@,
        Reserved::Exists => "exists"@,
        Reserved::Forall => "forall"@,
        Reserved::Match => "match"@,
        Reserved::Choice => "choice"@,
        Reserved::Lambda => "lambda"@,
        Reserved::Cl => "cl"@,
        Reserved::Assume => "assume"@,
        Reserved::Step => "step"@,
        Reserved::Anchor => "anchor"@,
        Reserved::DeclareFun => "declare-fun"@,
        Reserved::DeclareConst => "declare-const"@,
        Reserved::DeclareSort => "declare-sort"@,
        Reserved::DeclareDatatype => "declare-datatype"@,
        Reserved::DeclareDatatypes => "declare-datatypes"@,
        Reserved::Par => "par"@,
        Reserved::DefineFun => "define-fun"@,
        Reserved::DefineFunRec => "define-fun-rec"@,
        Reserved::DefineFunsRec => "define-funs-rec"@,
        Reserved::DefineSort => "define-sort"@,
        Reserved::Assert => "assert"@,
        Reserved::CheckSatAssuming => "check-sat-assuming"@,
        Reserved::SetLogic => "set-logic"@,
        Reserved::DeclareRareRule => "declare-rare-rule"@,
    }
}

/// A word is read as a reserved word exactly when it is that word's text: every reserved word
/// is recognized, and no other text is.
#[verifier::rlimit(50)]
pub proof fn lemma_reserved_words(w: Seq<char>, r: Reserved)
    ensures
        reserved_of(w) == Some(r) <==> w == reserved_text(r),
{
    reveal_strlit("_");
    reveal_strlit("!");
    reveal_strlit("as");
    reveal_strlit("let");
    reveal_strlit("exists");
    reveal_strlit("forall");
    reveal_strlit("match");
    reveal_strlit("choice");
    reveal_strlit("lambda");
    reveal_strlit("cl");
    reveal_strlit("assume");
    reveal_strlit("step");
    reveal_strlit("anchor");
    reveal_strlit("declare-fun");
    reveal_strlit("declare-const");
    reveal_strlit("declare-sort");
    reveal_strlit("declare-datatype");
    reveal_strlit("declare-datatypes");
    reveal_strlit("par");
    reveal_strlit("define-fun");
    reveal_strlit("define-fun-rec");
    reveal_strlit("define-funs-rec");
    reveal_strlit("define-sort");
    reveal_strlit("assert");
    reveal_strlit("check-sat-assuming");
    reveal_strlit("set-logic");
    reveal_strlit("declare-rare-rule");
    if w == reserved_text(r) {
        let t = reserved_text(r);
        assert(t.len() > 0);
        match r {
            Reserved::Underscore => assert(reserved_of(t) == Some(r)),
            Reserved::Bang => {
                assert(t[0] != "_"@[0]);
                assert(reserved_of(t) == Some(r));
            },
            Reserved::As => assert(reserved_of(t) == Some(r)),
            Reserved::Let => assert(reserved_of(t) == Some(r)),
            Reserved::Exists => assert(reserved_of(t) == Some(r)),
            Reserved::Forall => {
                assert(t[0] != "exists"@[0]);
                assert(reserved_of(t) == Some(r));
            },
            Reserved::Match => assert(reserved_of(t) == Some(r)),
            Reserved::Choice => {
                assert(t[0] != "exists"@[0]);
                assert(t[0] != "forall"@[0]);
                assert(reserved_of(t) == Some(r));
            },
            Reserved::Lambda => {
                assert(t[0] != "exists"@[0]);
                assert(t[0] != "forall"@[0]);
                assert(t[0] != "choice"@[0]);
                assert(reserved_of(t) == Some(r));
            },
            Reserved::Cl => {
                assert(t[0] != "as"@[0]);
                assert(reserved_of(t) == Some(r));
            },
            Reserved::Assume => {
                assert(t[0] != "exists"@[0]);
                assert(t[0] != "forall"@[0]);
                assert(t[0] != "choice"@[0]);
                assert(t[0] != "lambda"@[0]);
                assert(reserved_of(t) == Some(r));
            },
            Reserved::Step => assert(reserved_of(t) == Some(r)),
            Reserved::Anchor => {
                assert(t[0] != "exists"@[0]);
                assert(t[0] != "forall"@[0]);
                assert(t[0] != "choice"@[0]);
                assert(t[0] != "lambda"@[0]);
                assert(t[1] != "assume"@[1]);
                assert(reserved_of(t) == Some(r));
            },
            Reserved::DeclareFun => assert(reserved_of(t) == Some(r)),
            Reserved::DeclareConst => assert(reserved_of(t) == Some(r)),
            Reserved::DeclareSort => assert(reserved_of(t) == Some(r)),
            Reserved::DeclareDatatype => assert(reserved_of(t) == Some(r)),
            Reserved::DeclareDatatypes => assert(reserved_of(t) == Some(r)),
            Reserved::Par => {
                assert(t[0] != "let"@[0]);
                assert(reserved_of(t) == Some(r));
            },
            Reserved::DefineFun => assert(reserved_of(t) == Some(r)),
            Reserved::DefineFunRec => assert(reserved_of(t) == Some(r)),
            Reserved::DefineFunsRec => assert(reserved_of(t) == Some(r)),
            Reserved::DefineSort => {
                assert(t[2] != "declare-fun"@[2]);
                assert(reserved_of(t) == Some(r));
            },
            Reserved::Assert => {
                assert(t[0] != "exists"@[0]);
                assert(t[0] != "forall"@[0]);
                assert(t[0] != "choice"@[0]);
                assert(t[0] != "lambda"@[0]);
                assert(t[3] != "assume"@[3]);
                assert(t[1] != "anchor"@[1]);
                assert(reserved_of(t) == Some(r));
            },
            Reserved::CheckSatAssuming => assert(reserved_of(t) == Some(r)),
            Reserved::SetLogic => assert(reserved_of(t) == Some(r)),
            Reserved::DeclareRareRule => {
                assert(t[8] != "declare-datatypes"@[8]);
                assert(reserved_of(t) == Some(r));
            },
        }
    }
}

/// Whether `w` is the text `lit`.
fn text_is(w: &String, lit: &str) -> (r: bool)
    ensures
        r == (w@ == lit@),
{
    *w == String::from_str(lit)
}

/// The reserved word that `w` spells, if any.
pub fn reserved_from_text(w: &String) -> (r: Option<Reserved>)
    ensures
        r == reserved_of(w@),
{
    if text_is(w, "_") { Some(Reserved::Underscore) }
    else if text_is(w, "!") { Some(Reserved::Bang) }
    else if text_is(w, "as") { Some(Reserved::As) }
    else if text_is(w, "let") { Some(Reserved::Let) }
    else if text_is(w, "exists") { Some(Reserved::Exists) }
    else if text_is(w, "forall") { Some(Reserved::Forall) }
    else if text_is(w, "match") { Some(Reserved::Match) }
    else if text_is(w, "choice") { Some(Reserved::Choice) }
    else if text_is(w, "lambda") { Some(Reserved::Lambda) }
    else if text_is(w, "cl") { Some(Reserved::Cl) }
    else if text_is(w, "assume") { Some(Reserved::Assume) }
    else if text_is(w, "step") { Some(Reserved::Step) }
    else if text_is(w, "anchor") { Some(Reserved::Anchor) }
    else if text_is(w, "declare-fun") { Some(Reserved::DeclareFun) }
    else if text_is(w, "declare-datatype") { Some(Reserved::DeclareDatatype) }
    else if text_is(w, "declare-datatypes") { Some(Reserved::DeclareDatatypes) }
    else if text_is(w, "par") { Some(Reserved::Par) }
    else if text_is(w, "declare-const") { Some(Reserved::DeclareConst) }
    else if text_is(w, "declare-sort") { Some(Reserved::DeclareSort) }
    else if text_is(w, "define-fun") { Some(Reserved::DefineFun) }
    else if text_is(w, "define-fun-rec") { Some(Reserved::DefineFunRec) }
    else if text_is(w, "define-funs-rec") { Some(Reserved::DefineFunsRec) }
    else if text_is(w, "define-sort") { Some(Reserved::DefineSort) }
    else if text_is(w, "assert") { Some(Reserved::Assert) }
    else if text_is(w, "check-sat-assuming") { Some(Reserved::CheckSatAssuming) }
    else if text_is(w, "set-logic") { Some(Reserved::SetLogic) }
    else if text_is(w, "declare-rare-rule") { Some(Reserved::DeclareRareRule) }
    else { None }
}

/// Classes of characters that the lexer reads runs of.
#[derive(Clone, Copy)]
pub enum CharClass {
    /// Characters of simple symbols.
    Symbol,
    /// Decimal digits.
    Digit,
    /// Characters of quoted symbols: all but `|` and `\`.
    Quoted,
    /// Binary digits.
    Binary,
    /// Hexadecimal digits.
    Hex,
}

/// Whether `c` is in the class `k`.
pub open spec fn in_class(c: char, k: CharClass) -> bool {
    match k {
        CharClass::Symbol => ascii_alphanumeric(c) || symbol_punctuation(c) || c == '\'',
        CharClass::Digit => '0' <= c <= '9',
        CharClass::Quoted => c != '|' && c != '\\',
        CharClass::Binary => c == '0' || c == '1',
        CharClass::Hex => hex_digit(c) is Some,
    }
}

/// Whether `c` is in the class `k`.
fn class_has(k: CharClass, c: char) -> (r: bool)
    ensures
        r == in_class(c, k),
{
    match k {
        CharClass::Symbol => is_symbol_character(c),
        CharClass::Digit => '0' <= c && c <= '9',
        CharClass::Quoted => c != '|' && c != '\\',
        CharClass::Binary => c == '0' || c == '1',
        CharClass::Hex => hex_digit_value(c).is_some(),
    }
}

/// The first position from `i` on whose character is not in the class `k`, or the end.
pub open spec fn run_end(s: Seq<char>, i: int, k: CharClass) -> int
    decreases s.len() - i,
{
    if 0 <= i < s.len() && in_class(s[i], k) {
        run_end(s, i + 1, k)
    } else {
        i
    }
}

/// A run of characters of a class ends where the first character outside it stands.
proof fn lemma_run_end(s: Seq<char>, i: int, j: int, k: CharClass)
    requires
        0 <= i <= j <= s.len(),
        forall|m: int| i <= m < j ==> in_class(#[trigger] s[m], k),
        j == s.len() || !in_class(s[j], k),
    ensures
        run_end(s, i, k) == j,
    decreases j - i,
{
    if i < j {
        lemma_run_end(s, i + 1, j, k);
    }
}

/// A run of characters ends within the input, and its characters are in the class.
pub proof fn lemma_run_end_bound(s: Seq<char>, i: int, k: CharClass)
    requires
        0 <= i <= s.len(),
    ensures
        i <= run_end(s, i, k) <= s.len(),
        run_end(s, i, k) < s.len() ==> !in_class(s[run_end(s, i, k)], k),
        forall|m: int| i <= m < run_end(s, i, k) ==> in_class(#[trigger] s[m], k),
    decreases s.len() - i,
{
    if i < s.len() && in_class(s[i], k) {
        lemma_run_end_bound(s, i + 1, k);
    }
}

/// The error of a unicode escape sequence that `unicode_escape` reports.
pub open spec fn escape_error(e: Option<Seq<char>>) -> ParserErrorView {
    match e {
        None => ParserErrorView::EofInString,
        Some(d) => ParserErrorView::InvalidUnicode(d),
    }
}

/// A unicode escape sequence takes at most what remains of the input.
pub proof fn lemma_unicode_escape_len(rest: Seq<char>)
    ensures
        0 <= unicode_escape(rest).0 <= rest.len(),
{
    if rest.len() > 0 {
        if rest[0] == '{' {
            lemma_hex_run_bound(rest, 1, 5);
        } else {
            lemma_hex_run_bound(rest, 0, 4);
        }
    }
}

/// Reading the rest of a string literal from position `i`, with `acc` read so far: where the
/// literal ends, and its text or the error that stops it. A doubled `"` stands for one `"`, and
/// `\u` starts a unicode escape sequence (see `unicode_escape`).
pub open spec fn string_from(s: Seq<char>, i: int, acc: Seq<char>) -> (int, Result<TokenView, ParserErrorView>)
    decreases s.len() - i,
{
    if i < 0 || i >= s.len() {
        (i, Err(ParserErrorView::EofInString))
    } else if s[i] == '"' {
        if i + 1 < s.len() && s[i + 1] == '"' {
            string_from(s, i + 2, acc.push('"'))
        } else {
            (i + 1, Ok(TokenView::String(acc)))
        }
    } else if s[i] == '\\' {
        if i + 1 < s.len() && s[i + 1] == 'u' {
            let (n, out) = unicode_escape(s.skip(i + 2));
            proof {
                lemma_unicode_escape_len(s.skip(i + 2));
            }
            match out {
                Ok(text) => string_from(s, i + 2 + n, acc + text),
                Err(e) => (i + 2 + n, Err(escape_error(e))),
            }
        } else {
            string_from(s, i + 1, acc.push('\\'))
        }
    } else {
        string_from(s, i + 1, acc.push(s[i]))
    }
}

/// Reading a quoted symbol from position `i`, just after its opening bar.
pub open spec fn quoted_symbol_at(s: Seq<char>, i: int) -> (int, Result<TokenView, ParserErrorView>) {
    let e = run_end(s, i, CharClass::Quoted);
    if e >= s.len() {
        (e, Err(ParserErrorView::EofInQuotedSymbol))
    } else if s[e] == '\\' {
        (e, Err(ParserErrorView::BackslashInQuotedSymbol))
    } else {
        (e + 1, Ok(TokenView::Symbol(s.subrange(i, e))))
    }
}

/// Reading a bitvector literal from position `i`, just after its `#`: `b` and binary digits, or
/// `x` and hexadecimal digits.
pub open spec fn bitvector_at(s: Seq<char>, i: int) -> (int, Result<TokenView, ParserErrorView>) {
    if i < 0 || i >= s.len() {
        (i, Err(ParserErrorView::EmptyBitvector))
    } else if s[i] == 'b' || s[i] == 'x' {
        let binary = s[i] == 'b';
        let e = run_end(s, i + 1, if binary { CharClass::Binary } else { CharClass::Hex });
        if e == i + 1 {
            (e, Err(ParserErrorView::EmptyBitvector))
        } else {
            let bits: int = if binary { 1 } else { 4 };
            (e, Ok(TokenView::Bitvector(s.subrange(i + 1, e), if binary { 2u32 } else { 16u32 }, ((e - i - 1) * bits) as nat)))
        }
    } else {
        (i + 1, Err(ParserErrorView::UnexpectedChar(s[i])))
    }
}

/// `n` zeros.
pub open spec fn zeros(n: nat) -> Seq<char> {
    Seq::new(n, |k: int| '0')
}

/// Whether every digit of `d` is `0`.
pub open spec fn all_zeros(d: Seq<char>) -> bool {
    forall|k: int| 0 <= k < d.len() ==> d[k] == '0'
}

/// Reading a numeral or decimal literal from position `i`, its first digit: decimal digits,
/// then possibly `/` or `.` and more decimal digits.
pub open spec fn number_at(s: Seq<char>, i: int, negated: bool) -> (int, Result<TokenView, ParserErrorView>) {
    let e1 = run_end(s, i, CharClass::Digit);
    let first = s.subrange(i, e1);
    if first.len() > 1 && first[0] == '0' {
        (e1, Err(ParserErrorView::LeadingZero(first)))
    } else if e1 < s.len() && (s[e1] == '/' || s[e1] == '.') {
        let e2 = run_end(s, e1 + 1, CharClass::Digit);
        let second = s.subrange(e1 + 1, e2);
        if e2 < s.len() && (s[e2] == '/' || s[e2] == '.') {
            (e2, Err(ParserErrorView::UnexpectedChar(s[e2])))
        } else if s[e1] == '/' {
            if all_zeros(second) {
                (e2, Err(ParserErrorView::DivisionByZeroInLiteral(first + seq!['/', '0'])))
            } else {
                (e2, Ok(TokenView::Decimal(negated, first, second)))
            }
        } else {
            (e2, Ok(TokenView::Decimal(negated, first + second, seq!['1'] + zeros(second.len()))))
        }
    } else {
        (e1, Ok(TokenView::Numeral(negated, first)))
    }
}

/// Whether the literal from position `i` is a fraction without denominator digits, such as `1/`,
/// whose denominator cannot be read as a number.
pub open spec fn number_has_no_denominator(s: Seq<char>, i: int) -> bool {
    let e1 = run_end(s, i, CharClass::Digit);
    let e2 = run_end(s, e1 + 1, CharClass::Digit);
    &&& !(e1 - i > 1 && s[i] == '0')
    &&& e1 < s.len() && s[e1] == '/'
    &&& e2 == e1 + 1
    &&& !(e2 < s.len() && (s[e2] == '/' || s[e2] == '.'))
}

/// Reading a token from position `i`, where a token starts after whitespace and comments: where
/// the token ends, and the token or the error found.
pub open spec fn token_at(s: Seq<char>, i: int) -> (int, Result<TokenView, ParserErrorView>) {
    if i < 0 || i >= s.len() {
        (i, Ok(TokenView::Eof))
    } else {
        let c = s[i];
        if c == '(' {
            (i + 1, Ok(TokenView::OpenParen))
        } else if c == ')' {
            (i + 1, Ok(TokenView::CloseParen))
        } else if c == '"' {
            string_from(s, i + 1, Seq::empty())
        } else if c == '|' {
            quoted_symbol_at(s, i + 1)
        } else if c == ':' {
            let e = run_end(s, i + 1, CharClass::Symbol);
            (e, Ok(TokenView::Keyword(s.subrange(i + 1, e))))
        } else if c == '#' {
            bitvector_at(s, i + 1)
        } else if c == '-' {
            if i + 1 < s.len() && '0' <= s[i + 1] <= '9' {
                number_at(s, i + 1, true)
            } else {
                let e = run_end(s, i + 1, CharClass::Symbol);
                (e, Ok(TokenView::Symbol(seq!['-'] + s.subrange(i + 1, e))))
            }
        } else if '0' <= c <= '9' {
            number_at(s, i, false)
        } else if in_class(c, CharClass::Symbol) {
            let e = run_end(s, i, CharClass::Symbol);
            let w = s.subrange(i, e);
            (e, Ok(
                match reserved_of(w) {
                    Some(r) => TokenView::ReservedWord(r),
                    None => TokenView::Symbol(w),
                },
            ))
        } else {
            (i, Err(ParserErrorView::UnexpectedChar(c)))
        }
    }
}

/// Whether the token from position `i` is a fraction without denominator digits (see
/// `number_has_no_denominator`).
pub open spec fn token_has_no_denominator(s: Seq<char>, i: int) -> bool {
    &&& 0 <= i < s.len()
    &&& {
        ||| (s[i] == '-' && i + 1 < s.len() && '0' <= s[i + 1] <= '9' && number_has_no_denominator(s, i + 1))
        ||| ('0' <= s[i] <= '9' && number_has_no_denominator(s, i))
    }
}

/// A position in the input: its line and column, both counted from 1, the column in bytes.
pub type Position = (usize, usize);

/// The number of bytes that UTF-8 takes to write the character `c`.
pub open spec fn utf8_width(c: char) -> nat {
    if (c as u32) < 0x80 {
        1
    } else if (c as u32) < 0x800 {
        2
    } else if (c as u32) < 0x10000 {
        3
    } else {
        4
    }
}

/// The number of bytes that UTF-8 takes to write `s`.
pub open spec fn utf8_len(s: Seq<char>) -> nat
    decreases s.len(),
{
    if s.len() == 0 {
        0
    } else {
        utf8_len(s.drop_last()) + utf8_width(s.last())
    }
}

proof fn lemma_utf8_len_take(s: Seq<char>, i: int)
    requires
        0 <= i < s.len(),
    ensures
        utf8_len(s.take(i + 1)) == utf8_len(s.take(i)) + utf8_width(s[i]),
        utf8_len(s.take(i + 1)) <= utf8_len(s),
{
    assert(s.take(i + 1).drop_last() =~= s.take(i));
    lemma_utf8_len_mono(s, i + 1, s.len() as int);
    assert(s.take(s.len() as int) =~= s);
}

proof fn lemma_utf8_len_mono(s: Seq<char>, i: int, j: int)
    requires
        0 <= i <= j <= s.len(),
    ensures
        utf8_len(s.take(i)) <= utf8_len(s.take(j)),
    decreases j - i,
{
    if i < j {
        lemma_utf8_len_mono(s, i, j - 1);
        assert(s.take(j).drop_last() =~= s.take(j - 1));
    }
}

/// Whether `c` is a whitespace character, as `char::is_whitespace` defines it: a character with
/// the Unicode property `White_Space`.
pub open spec fn is_white(c: char) -> bool {
    let x = c as u32;
    ||| 0x09 <= x <= 0x0d
    ||| x == 0x20
    ||| x == 0x85
    ||| x == 0xa0
    ||| x == 0x1680
    ||| 0x2000 <= x <= 0x200a
    ||| x == 0x2028
    ||| x == 0x2029
    ||| x == 0x202f
    ||| x == 0x205f
    ||| x == 0x3000
}

/// Whether `c` is a whitespace character (see `is_white`).
pub fn is_whitespace(c: char) -> (res: bool)
    ensures
        res == is_white(c),
{
    let x = c as u32;
    (0x09 <= x && x <= 0x0d) || x == 0x20 || x == 0x85 || x == 0xa0 || x == 0x1680 || (0x2000 <= x && x <= 0x200a)
        || x == 0x2028 || x == 0x2029 || x == 0x202f || x == 0x205f || x == 0x3000
}

/// The value of the hexadecimal digit `c`, if it is one.
pub open spec fn hex_digit(c: char) -> Option<nat> {
    if '0' <= c <= '9' {
        Some((c as u32 - '0' as u32) as nat)
    } else if 'a' <= c <= 'f' {
        Some((c as u32 - 'a' as u32 + 10) as nat)
    } else if 'A' <= c <= 'F' {
        Some((c as u32 - 'A' as u32 + 10) as nat)
    } else {
        None
    }
}

fn hex_digit_value(c: char) -> (res: Option<u32>)
    ensures
        res matches Some(v) ==> hex_digit(c) == Some(v as nat),
        res is None ==> hex_digit(c) is None,
{
    if '0' <= c && c <= '9' {
        Some(c as u32 - '0' as u32)
    } else if 'a' <= c && c <= 'f' {
        Some(c as u32 - 'a' as u32 + 10)
    } else if 'A' <= c && c <= 'F' {
        Some(c as u32 - 'A' as u32 + 10)
    } else {
        None
    }
}

/// The number written by the hexadecimal digits `s`.
pub open spec fn hex_value(s: Seq<char>) -> nat
    decreases s.len(),
{
    if s.len() == 0 {
        0
    } else {
        hex_value(s.drop_last()) * 16 + hex_digit(s.last())->Some_0
    }
}

/// The number of hexadecimal digits, at most `max`, that `s` has from position `from` on.
pub open spec fn hex_run(s: Seq<char>, from: int, max: int) -> int
    decreases max,
{
    if max <= 0 || from < 0 || from >= s.len() || hex_digit(s[from]) is None {
        0
    } else {
        1 + hex_run(s, from + 1, max - 1)
    }
}

/// Whether `code` is a Unicode scalar value: not above `0x10FFFF` and not a surrogate.
pub open spec fn scalar_value(code: int) -> bool {
    code < 0xd800 || (0xe000 <= code <= 0x10ffff)
}

/// The character with the scalar value `code`, if there is one.
///
/// Calls `char::from_u32`, which the standard library documents to return the character exactly
/// when `code` is a Unicode scalar value.
#[verifier::external_body]
fn char_from_code(code: u32) -> (res: Option<char>)
    ensures
        res is Some <==> scalar_value(code as int),
        res matches Some(c) ==> c as u32 == code,
{
    char::from_u32(code)
}

/// What reading a unicode escape sequence does, once `\u` has been read: how many characters of
/// `rest` it consumes, and the text it adds to the string literal or the error it reports (`None`
/// for the end of the input inside the string, and the digits for digits that name no
/// character).
///
/// `\u{d..}` takes up to five hexadecimal digits followed by `}`, and names a character only up
/// to `0x2FFFF`; `\udddd` takes exactly four. A sequence that is not well formed stands for its
/// own text.
pub open spec fn unicode_escape(rest: Seq<char>) -> (int, Result<Seq<char>, Option<Seq<char>>>) {
    if rest.len() == 0 {
        (0, Err(None))
    } else if rest[0] == '{' {
        let k = hex_run(rest, 1, 5);
        let contents = rest.subrange(1, 1 + k);
        if k < 5 && 1 + k == rest.len() {
            (1 + k, Err(None))
        } else if !(1 + k < rest.len() && rest[1 + k] == '}') {
            (1 + k, Ok("\\u{"@ + contents))
        } else if k == 0 {
            (2, Ok("\\u{}"@))
        } else if hex_value(contents) > 0x2ffff {
            (2 + k, Ok("\\u{"@ + contents + "}"@))
        } else if scalar_value(hex_value(contents) as int) {
            (2 + k, Ok(seq![hex_value(contents) as char]))
        } else {
            (2 + k, Err(Some(contents)))
        }
    } else {
        let k = hex_run(rest, 0, 4);
        let contents = rest.subrange(0, k);
        if k < 4 && k == rest.len() {
            (k, Err(None))
        } else if k != 4 {
            (k, Ok("\\u"@ + contents))
        } else if scalar_value(hex_value(contents) as int) {
            (4, Ok(seq![hex_value(contents) as char]))
        } else {
            (4, Err(Some(contents)))
        }
    }
}

/// The number of bytes that UTF-8 takes to write `c`.
fn char_width(c: char) -> (w: usize)
    ensures
        w == utf8_width(c),
{
    let x = c as u32;
    if x < 0x80 {
        1
    } else if x < 0x800 {
        2
    } else if x < 0x10000 {
        3
    } else {
        4
    }
}

/// The position, from `i` on, just after the end of the line: after the next `\n`, or the end
/// of the input.
pub open spec fn line_end(s: Seq<char>, i: int) -> int
    decreases s.len() - i,
{
    if i < 0 || i >= s.len() {
        if i < 0 { 0 } else { i }
    } else if s[i] == '\n' {
        i + 1
    } else {
        line_end(s, i + 1)
    }
}

/// The first position, from `i` on, of a character that is not whitespace, or the end of the
/// input.
pub open spec fn skip_white(s: Seq<char>, i: int) -> int
    decreases s.len() - i,
{
    if i < 0 || i >= s.len() {
        if i < 0 { 0 } else { i }
    } else if is_white(s[i]) {
        skip_white(s, i + 1)
    } else {
        i
    }
}

/// The first position, from `i` on, after all whitespace and comments: a comment runs from `;`
/// to the end of its line.
pub open spec fn skip_trivia(s: Seq<char>, i: int) -> int
    decreases s.len() - i,
{
    let j = skip_white(s, i);
    if 0 <= i <= j < s.len() && s[j] == ';' {
        proof {
            lemma_line_end(s, j);
        }
        skip_trivia(s, line_end(s, j))
    } else {
        j
    }
}

/// The end of the line is after its start, and within the input.
pub proof fn lemma_line_end(s: Seq<char>, i: int)
    requires
        0 <= i <= s.len(),
    ensures
        i <= line_end(s, i) <= s.len(),
        i < s.len() ==> i < line_end(s, i),
    decreases s.len() - i,
{
    if i < s.len() && s[i] != '\n' {
        lemma_line_end(s, i + 1);
    }
}

/// Skipping whitespace twice is skipping it once.
proof fn lemma_skip_white_idem(s: Seq<char>, i: int)
    requires
        0 <= i <= s.len(),
    ensures
        skip_white(s, skip_white(s, i)) == skip_white(s, i),
        skip_white(s, i) < s.len() ==> !is_white(s[skip_white(s, i)]),
    decreases s.len() - i,
{
    if i < s.len() && is_white(s[i]) {
        lemma_skip_white_idem(s, i + 1);
    }
}

/// Skipping whitespace and comments starts with skipping whitespace.
proof fn lemma_skip_trivia_white(s: Seq<char>, i: int)
    requires
        0 <= i <= s.len(),
    ensures
        skip_trivia(s, i) == skip_trivia(s, skip_white(s, i)),
{
    lemma_skip_white(s, i);
    lemma_skip_white_idem(s, i);
}

proof fn lemma_skip_white(s: Seq<char>, i: int)
    requires
        0 <= i <= s.len(),
    ensures
        i <= skip_white(s, i) <= s.len(),
    decreases s.len() - i,
{
    if i < s.len() && is_white(s[i]) {
        lemma_skip_white(s, i + 1);
    }
}

/// The number of line breaks in `s`.
pub open spec fn newlines(s: Seq<char>) -> nat
    decreases s.len(),
{
    if s.len() == 0 {
        0
    } else {
        newlines(s.drop_last()) + if s.last() == '\n' { 1nat } else { 0nat }
    }
}

/// The index in `s` where its last line begins: just after its last line break, or 0.
pub open spec fn line_begin(s: Seq<char>) -> int
    decreases s.len(),
{
    if s.len() == 0 {
        0
    } else if s.last() == '\n' {
        s.len() as int
    } else {
        line_begin(s.drop_last())
    }
}

/// The position of the `i`-th character of `s`: its line, and its column in bytes, both counted
/// from 1.
pub open spec fn position_at(s: Seq<char>, i: int) -> Position {
    let before = s.take(i);
    ((newlines(before) + 1) as usize, (utf8_len(before) - utf8_len(before.take(line_begin(before))) + 1) as usize)
}

proof fn lemma_line_begin_bound(s: Seq<char>)
    ensures
        0 <= line_begin(s) <= s.len(),
        newlines(s) <= s.len(),
    decreases s.len(),
{
    if s.len() > 0 {
        lemma_line_begin_bound(s.drop_last());
    }
}

/// A lexer for the SMT-LIB and Alethe formats, over the characters of its input.
pub struct Lexer {
    chars: Vec<char>,
    index: usize,
    offset: usize,
    line_start: usize,
    lines_read: usize,
    source_len: usize,
    /// The name of the input, for error messages.
    pub source_name: String,
}

impl Lexer {
    /// The characters of the input.
    pub closed spec fn input(&self) -> Seq<char> {
        self.chars@
    }

    /// The number of characters read.
    pub closed spec fn read(&self) -> nat {
        self.index as nat
    }

    /// The name of the input.
    pub closed spec fn name(&self) -> Seq<char> {
        self.source_name@
    }

    /// The number of line breaks read.
    pub closed spec fn lines(&self) -> nat {
        self.lines_read as nat
    }

    /// The byte offset of the start of the current line.
    pub closed spec fn line_offset(&self) -> nat {
        self.line_start as nat
    }

    /// The characters read are counted in bytes and lines consistently with the input.
    pub closed spec fn wf(&self) -> bool {
        &&& self.index <= self.chars@.len()
        &&& 4 * self.chars@.len() < usize::MAX
        &&& self.offset == utf8_len(self.chars@.take(self.index as int))
        &&& self.source_len == utf8_len(self.chars@)
        &&& self.source_len < usize::MAX
        &&& self.line_start <= self.offset
        &&& self.lines_read <= self.index
        &&& self.lines_read == newlines(self.chars@.take(self.index as int))
        &&& self.line_start == utf8_len(self.chars@.take(line_begin(self.chars@.take(self.index as int))))
    }

    /// The current character, if the input is not over.
    pub open spec fn current_char(&self) -> Option<char> {
        if self.read() < self.input().len() { Some(self.input()[self.read() as int]) } else { None }
    }

    /// The position of the current character.
    pub open spec fn spec_position(&self) -> Position {
        position_at(self.input(), self.read() as int)
    }

    /// The same input, with `n` more characters read.
    pub open spec fn advanced(&self, other: &Lexer, n: int) -> bool {
        &&& other.input() == self.input()
        &&& other.read() == self.read() + n
        &&& other.name() == self.name()
    }

    /// Constructs a lexer over `contents`, whose source is named `name`.
    pub fn new(contents: &str, name: &str) -> (l: Lexer)
        requires
            utf8_len(contents@) < usize::MAX,
            4 * contents@.len() < usize::MAX,
        ensures
            l.wf(),
            l.input() == contents@,
            l.read() == 0,
            l.lines() == 0,
            l.line_offset() == 0,
            l.name() == name@,
    {
        let mut chars: Vec<char> = Vec::new();
        let mut source_len: usize = 0;
        for c in it: contents.chars()
            invariant
                it.seq() == contents@,
                chars@ == contents@.take(it.index()),
                source_len == utf8_len(chars@),
                utf8_len(contents@) < usize::MAX,
        {
            proof {
                lemma_utf8_len_take(contents@, it.index() as int);
            }
            chars.push(c);
            assert(contents@.take(it.index() + 1) =~= contents@.take(it.index()).push(c));
            assert(chars@.drop_last() =~= contents@.take(it.index()));
            source_len = source_len + char_width(c);
        }
        assert(chars@ =~= contents@);
        assert(chars@.take(0) =~= Seq::<char>::empty());
        Lexer { chars, index: 0, offset: 0, line_start: 0, lines_read: 0, source_len, source_name: name.to_owned() }
    }

    /// Reads the current character: the lexer moves past it, counting a new line after `\n`.
    pub fn next_char(&mut self) -> (got: Option<char>)
        requires
            old(self).wf(),
        ensures
            final(self).wf(),
            got == old(self).current_char(),
            old(self).advanced(final(self), if got is Some { 1 } else { 0 }),
            got == Some('\n') ==> final(self).lines() == old(self).lines() + 1
                && final(self).spec_position().1 == 1,
            got != Some('\n') ==> final(self).lines() == old(self).lines()
                && final(self).line_offset() == old(self).line_offset(),
    {
        if self.index >= self.chars.len() {
            return None;
        }
        let c = self.chars[self.index];
        let ghost i = self.index as int;
        proof {
            lemma_utf8_len_take(self.chars@, i);
            let t = self.chars@.take(i + 1);
            assert(t.drop_last() =~= self.chars@.take(i));
            assert(t.last() == c);
            lemma_line_begin_bound(self.chars@.take(i));
            if c == '\n' {
                assert(t.take(t.len() as int) =~= t);
            }
        }
        self.index = self.index + 1;
        self.offset = self.offset + char_width(c);
        if c == '\n' {
            self.lines_read = self.lines_read + 1;
            self.line_start = self.offset;
        }
        Some(c)
    }

    /// The current character, if the input is not over.
    pub fn current(&self) -> (c: Option<char>)
        requires
            self.wf(),
        ensures
            c == self.current_char(),
    {
        if self.index < self.chars.len() {
            Some(self.chars[self.index])
        } else {
            None
        }
    }

    /// The position of the current character: its line, and its column in bytes, both counted
    /// from 1.
    pub fn position(&self) -> (p: Position)
        requires
            self.wf(),
        ensures
            p == self.spec_position(),
            p.0 == self.lines() + 1,
    {
        proof {
            lemma_utf8_len_mono(self.chars@, self.index as int, self.chars@.len() as int);
            assert(self.chars@.take(self.chars@.len() as int) =~= self.chars@);
            let before = self.chars@.take(self.index as int);
            lemma_line_begin_bound(before);
            assert(before.take(line_begin(before)) =~= self.chars@.take(line_begin(before)));
            lemma_utf8_len_mono(self.chars@, line_begin(before), self.index as int);
        }
        (self.lines_read + 1, self.offset - self.line_start + 1)
    }

    /// Moves past the rest of the current line, its `\n` included.
    pub fn next_line(&mut self)
        requires
            old(self).wf(),
        ensures
            final(self).wf(),
            old(self).advanced(final(self), line_end(old(self).input(), old(self).read() as int) - old(self).read()),
    {
        let ghost start = self.index as int;
        proof {
            lemma_line_end(self.chars@, start);
        }
        loop
            invariant
                self.wf(),
                self.chars@ == old(self).chars@,
                self.source_name@ == old(self).source_name@,
                start == old(self).index,
                start <= self.index,
                line_end(self.chars@, start) == line_end(self.chars@, self.index as int),
            decreases self.chars@.len() - self.index,
        {
            match self.current() {
                Some(c) => {
                    self.next_char();
                    if c == '\n' {
                        return;
                    }
                },
                None => {
                    return;
                },
            }
        }
    }

    /// Reads characters while `predicate` holds of them, and returns them.
    pub fn read_chars_while<P: Fn(char) -> bool>(&mut self, predicate: P) -> (result: String)
        requires
            old(self).wf(),
            forall|c: char| predicate.requires((c,)),
        ensures
            final(self).wf(),
            old(self).advanced(final(self), result@.len() as int),
            result@ == old(self).input().subrange(old(self).read() as int, final(self).read() as int),
            forall|k: int| 0 <= k < result@.len() ==> predicate.ensures((#[trigger] result@[k],), true),
            final(self).current_char() matches Some(c) ==> predicate.ensures((c,), false),
    {
        let mut result = String::new();
        let ghost start = self.index as int;
        loop
            invariant
                self.wf(),
                forall|c: char| predicate.requires((c,)),
                self.chars@ == old(self).chars@,
                self.source_name@ == old(self).source_name@,
                start <= self.index,
                start == old(self).read(),
                result@ == self.chars@.subrange(start, self.index as int),
                forall|k: int| 0 <= k < result@.len() ==> predicate.ensures((#[trigger] result@[k],), true),
            ensures
                self.wf(),
                self.chars@ == old(self).chars@,
                self.source_name@ == old(self).source_name@,
                start <= self.index,
                result@ == self.chars@.subrange(start, self.index as int),
                forall|k: int| 0 <= k < result@.len() ==> predicate.ensures((#[trigger] result@[k],), true),
                self.current_char() matches Some(c) ==> predicate.ensures((c,), false),
            decreases self.chars@.len() - self.index,
        {
            match self.current() {
                Some(c) => {
                    let keep = predicate(c);
                    if !keep {
                        break;
                    }
                    let ghost before = result@;
                    result.append(crate::text::char_text(c).as_str());
                    self.next_char();
                    assert(self.chars@.subrange(start, self.index as int) =~= before.push(c));
                },
                None => {
                    break;
                },
            }
        }
        result
    }

    /// Reads and drops whitespace characters.
    pub fn drop_while_whitespace(&mut self)
        requires
            old(self).wf(),
        ensures
            final(self).wf(),
            old(self).advanced(final(self), skip_white(old(self).input(), old(self).read() as int) - old(self).read()),
    {
        let ghost start = self.index as int;
        proof {
            lemma_skip_white(self.chars@, start);
        }
        loop
            invariant
                self.wf(),
                self.chars@ == old(self).chars@,
                self.source_name@ == old(self).source_name@,
                start == old(self).index,
                start <= self.index,
                skip_white(self.chars@, start) == skip_white(self.chars@, self.index as int),
            decreases self.chars@.len() - self.index,
        {
            match self.current() {
                Some(c) => {
                    if !is_whitespace(c) {
                        return;
                    }
                    self.next_char();
                },
                None => {
                    return;
                },
            }
        }
    }

    /// Reads and drops all whitespace and comments.
    pub fn consume_whitespace(&mut self)
        requires
            old(self).wf(),
        ensures
            final(self).wf(),
            old(self).advanced(final(self), skip_trivia(old(self).input(), old(self).read() as int) - old(self).read()),
    {
        let ghost start = self.index as int;
        proof {
            lemma_skip_white(self.chars@, start);
            lemma_skip_trivia_white(self.chars@, start);
            lemma_skip_white_idem(self.chars@, start);
        }
        self.drop_while_whitespace();
        loop
            invariant
                self.wf(),
                self.chars@ == old(self).chars@,
                self.source_name@ == old(self).source_name@,
                start == old(self).index,
                start <= self.index,
                skip_trivia(self.chars@, start) == skip_trivia(self.chars@, self.index as int),
                self.index as int == skip_white(self.chars@, self.index as int),
            decreases self.chars@.len() - self.index,
        {
            if self.current() != Some(';') {
                return;
            }
            let ghost before = self.index as int;
            proof {
                lemma_line_end(self.chars@, before);
            }
            self.next_line();
            let ghost after_line = self.index as int;
            proof {
                lemma_skip_white(self.chars@, after_line);
                lemma_skip_trivia_white(self.chars@, after_line);
                lemma_skip_white_idem(self.chars@, after_line);
                lemma_skip_white_idem(self.chars@, before);
            }
            self.drop_while_whitespace();
        }
    }

    /// The error `inner`, at the current position of the input.
    pub fn err(&self, inner: ParserError) -> (e: Error)
        requires
            self.wf(),
        ensures
            e matches Error::Parser(i, p, n) && i == inner && p == self.spec_position() && n@ == self.name(),
    {
        Error::Parser(inner, self.position(), self.source_name.clone())
    }

    /// Reads the hexadecimal digits of a unicode escape sequence, at most `max` of them, stopping
    /// before anything else; fails if the input ends first.
    fn read_hex_digits(&mut self, max: usize) -> (res: Result<(String, u32), Error>)
        requires
            old(self).wf(),
            max <= 5,
        ensures
            final(self).wf(),
            ({
                let rest = old(self).input().skip(old(self).read() as int);
                let k = hex_run(rest, 0, max as int);
                &&& 0 <= k <= max
                &&& k <= rest.len()
                &&& old(self).advanced(final(self), k)
                &&& (k < max && k == rest.len()) ==> (res matches Err(Error::Parser(i, p, n))
                    && i == ParserError::EofInString && p == final(self).spec_position() && n@ == old(self).name())
                &&& !(k < max && k == rest.len()) ==> (res matches Ok((digits, code))
                    && digits@ == rest.subrange(0, k) && code == hex_value(rest.subrange(0, k)))
            }),
    {
        let ghost rest = self.chars@.skip(self.index as int);
        let ghost start = self.index as int;
        proof {
            lemma_hex_run_bound(rest, 0, max as int);
            assert(rest.subrange(0, 0) =~= Seq::<char>::empty());
            reveal_with_fuel(pow16, 1);
        }
        let mut digits = String::new();
        let mut code: u32 = 0;
        let mut i: usize = 0;
        while i < max
            invariant
                self.wf(),
                self.chars@ == old(self).chars@,
                self.source_name@ == old(self).source_name@,
                rest == self.chars@.skip(start),
                start == old(self).index,
                max <= 5,
                i <= max,
                self.index == start + i,
                digits@ == rest.subrange(0, i as int),
                code == hex_value(rest.subrange(0, i as int)),
                code < pow16(i as nat),
                hex_run(rest, 0, max as int) == i + hex_run(rest, i as int, max - i),
                rest.len() == self.chars@.len() - start,
            ensures
                self.wf(),
                self.chars@ == old(self).chars@,
                self.source_name@ == old(self).source_name@,
                self.index == start + i,
                digits@ == rest.subrange(0, i as int),
                code == hex_value(rest.subrange(0, i as int)),
                i == hex_run(rest, 0, max as int),
                i == max || i < rest.len(),
            decreases max - i,
        {
            let c = match self.current() {
                Some(c) => c,
                None => {
                    return Err(self.err(ParserError::EofInString));
                },
            };
            assert(rest[i as int] == c);
            let d = match hex_digit_value(c) {
                Some(d) => d,
                None => {
                    break;
                },
            };
            proof {
                assert(rest.subrange(0, i + 1).drop_last() =~= rest.subrange(0, i as int));
                lemma_pow16_step(i as nat);
            }
            digits.append(crate::text::char_text(c).as_str());
            code = code * 16 + d;
            self.next_char();
            assert(digits@ =~= rest.subrange(0, i + 1));
            i += 1;
        }
        Ok((digits, code))
    }

    /// Reads a unicode escape sequence of a string literal, `\u{d..}` or `\udddd`, once `\u` has
    /// been read, and adds what it stands for to `result` (see `unicode_escape`).
    pub fn read_unicode_escape_sequence(&mut self, result: &mut String) -> (res: Result<(), Error>)
        requires
            old(self).wf(),
        ensures
            final(self).wf(),
            ({
                let (n, out) = unicode_escape(old(self).input().skip(old(self).read() as int));
                &&& old(self).advanced(final(self), n)
                &&& match out {
                    Ok(text) => res is Ok && final(result)@ == old(result)@ + text,
                    Err(e) => final(result)@ == old(result)@ && (res matches Err(Error::Parser(i, p, name))
                        && p == final(self).spec_position() && name@ == old(self).name() && match e {
                            None => i == ParserError::EofInString,
                            Some(d) => (i matches ParserError::InvalidUnicode(x) && x@ == d),
                        }),
                }
            }),
    {
        let ghost rest = self.chars@.skip(self.index as int);
        match self.current() {
            None => Err(self.err(ParserError::EofInString)),
            Some('{') => {
                self.next_char();
                assert(self.chars@.skip(self.index as int) =~= rest.skip(1));
                proof {
                    lemma_hex_run_shift(rest, 1, 5);
                }
                let (contents, code) = self.read_hex_digits(5)?;
                assert(rest.skip(1).subrange(0, contents@.len() as int) =~= rest.subrange(1, 1 + contents@.len() as int));
                if self.current() == Some('}') {
                    self.next_char();
                } else {
                    result.append("\\u{");
                    result.append(contents.as_str());
                    proof {
                        reveal_strlit("\\u{");
                    }
                    return Ok(());
                }
                if contents.as_str().unicode_len() == 0 {
                    result.append("\\u{}");
                    return Ok(());
                }
                if code > 0x2ffff {
                    result.append("\\u{");
                    result.append(contents.as_str());
                    result.append("}");
                    return Ok(());
                }
                match char_from_code(code) {
                    Some(c) => {
                        result.append(crate::text::char_text(c).as_str());
                        proof {
                            let n = hex_value(contents@);
                            assert(code == n);
                            assert(c as u32 == n);
                            lemma_char_of_code(c, n);
                        }
                        Ok(())
                    },
                    None => Err(self.err(ParserError::InvalidUnicode(contents))),
                }
            },
            Some(_) => {
                let (contents, code) = self.read_hex_digits(4)?;
                if contents.as_str().unicode_len() != 4 {
                    result.append("\\u");
                    result.append(contents.as_str());
                    return Ok(());
                }
                match char_from_code(code) {
                    Some(c) => {
                        result.append(crate::text::char_text(c).as_str());
                        proof {
                            let n = hex_value(contents@);
                            assert(code == n);
                            assert(c as u32 == n);
                            lemma_char_of_code(c, n);
                        }
                        Ok(())
                    },
                    None => Err(self.err(ParserError::InvalidUnicode(contents))),
                }
            },
        }
    }
}

/// Whether `res` is what reading a token gives when the reading ends in `out`: the token, or
/// the error at position `pos` of the input named `name`.
pub open spec fn outcome(res: Result<Token, Error>, out: Result<TokenView, ParserErrorView>, pos: Position, name: Seq<char>) -> bool {
    match out {
        Ok(tv) => (res matches Ok(tok) && tok@ == tv),
        Err(e) => (res matches Err(Error::Parser(inner, p, n)) && inner@ == e && p == pos && n@ == name),
    }
}

impl Lexer {
    /// Reads the run of characters of the class `k` from the current one on.
    fn read_run(&mut self, k: CharClass) -> (r: String)
        requires
            old(self).wf(),
        ensures
            final(self).wf(),
            old(self).advanced(final(self), run_end(old(self).input(), old(self).read() as int, k) - old(self).read()),
            r@ == old(self).input().subrange(old(self).read() as int, run_end(old(self).input(), old(self).read() as int, k)),
    {
        let r = self.read_chars_while(|c: char| -> (b: bool) ensures b == in_class(c, k) { class_has(k, c) });
        proof {
            let s = self.chars@;
            let i = old(self).index as int;
            let j = self.index as int;
            assert forall|m: int| i <= m < j implies in_class(#[trigger] s[m], k) by {
                assert(r@[m - i] == s[m]);
            }
            lemma_run_end(s, i, j, k);
        }
        r
    }

    /// Reads a string literal, from its opening `"` on.
    fn read_string(&mut self) -> (res: Result<Token, Error>)
        requires
            old(self).wf(),
            old(self).current_char() == Some('"'),
        ensures
            final(self).wf(),
            ({
                let s = old(self).input();
                let (end, out) = string_from(s, old(self).read() as int + 1, Seq::empty());
                &&& final(self).input() == s
                &&& final(self).read() == end
                &&& final(self).name() == old(self).name()
                &&& outcome(res, out, position_at(s, end), old(self).name())
            }),
    {
        let ghost s = self.chars@;
        let ghost start = self.index as int;
        self.next_char();
        let mut result = String::new();
        loop
            invariant
                self.wf(),
                self.chars@ == s,
                self.source_name@ == old(self).source_name@,
                s == old(self).input(),
                start == old(self).read(),
                start < self.index <= s.len(),
                string_from(s, start + 1, Seq::empty()) == string_from(s, self.index as int, result@),
            decreases s.len() - self.index,
        {
            let ghost i = self.index as int;
            let c = match self.current() {
                Some(c) => c,
                None => {
                    return Err(self.err(ParserError::EofInString));
                },
            };
            if c == '"' {
                self.next_char();
                if self.current() == Some('"') {
                    let ghost acc = result@;
                    result.append(crate::text::char_text('"').as_str());
                    assert(result@ =~= acc.push('"'));
                    self.next_char();
                } else {
                    return Ok(Token::String(result));
                }
            } else if c == '\\' {
                self.next_char();
                if self.current() == Some('u') {
                    self.next_char();
                    proof {
                        lemma_unicode_escape_len(s.skip(i + 2));
                    }
                    let ghost acc = result@;
                    let ghost esc = unicode_escape(s.skip(i + 2));
                    match self.read_unicode_escape_sequence(&mut result) {
                        Ok(()) => {
                            proof {
                                assert(esc.1 is Ok);
                                assert(string_from(s, i, acc) == string_from(s, i + 2 + esc.0, acc + esc.1->Ok_0));
                            }
                        },
                        Err(e) => {
                            return Err(e);
                        },
                    }
                } else {
                    let ghost acc = result@;
                    result.append(crate::text::char_text('\\').as_str());
                    assert(result@ =~= acc.push('\\'));
                }
            } else {
                let ghost acc = result@;
                result.append(crate::text::char_text(c).as_str());
                assert(result@ =~= acc.push(c));
                self.next_char();
            }
        }
    }

    /// Reads a quoted symbol, from its opening `|` on.
    fn read_quoted_symbol(&mut self) -> (res: Result<Token, Error>)
        requires
            old(self).wf(),
            old(self).current_char() == Some('|'),
        ensures
            final(self).wf(),
            ({
                let s = old(self).input();
                let (end, out) = quoted_symbol_at(s, old(self).read() as int + 1);
                &&& final(self).input() == s
                &&& final(self).read() == end
                &&& final(self).name() == old(self).name()
                &&& outcome(res, out, position_at(s, end), old(self).name())
            }),
    {
        self.next_char();
        proof {
            lemma_run_end_bound(self.chars@, self.index as int, CharClass::Quoted);
        }
        let symbol = self.read_run(CharClass::Quoted);
        match self.current() {
            Some('\\') => Err(self.err(ParserError::BackslashInQuotedSymbol)),
            None => Err(self.err(ParserError::EofInQuotedSymbol)),
            Some(_) => {
                self.next_char();
                Ok(Token::Symbol(symbol))
            },
        }
    }

    /// Reads a keyword, from its `:` on.
    fn read_keyword(&mut self) -> (t: Token)
        requires
            old(self).wf(),
            old(self).current_char() == Some(':'),
        ensures
            final(self).wf(),
            ({
                let s = old(self).input();
                let e = run_end(s, old(self).read() as int + 1, CharClass::Symbol);
                &&& old(self).advanced(final(self), e - old(self).read())
                &&& t@ == TokenView::Keyword(s.subrange(old(self).read() as int + 1, e))
            }),
    {
        self.next_char();
        let symbol = self.read_run(CharClass::Symbol);
        Token::Keyword(symbol)
    }

    /// Reads a simple symbol, or the reserved word that it spells.
    fn read_simple_symbol(&mut self) -> (t: Token)
        requires
            old(self).wf(),
        ensures
            final(self).wf(),
            ({
                let s = old(self).input();
                let e = run_end(s, old(self).read() as int, CharClass::Symbol);
                let w = s.subrange(old(self).read() as int, e);
                &&& old(self).advanced(final(self), e - old(self).read())
                &&& t@ == match reserved_of(w) {
                    Some(r) => TokenView::ReservedWord(r),
                    None => TokenView::Symbol(w),
                }
            }),
    {
        let symbol = self.read_run(CharClass::Symbol);
        match reserved_from_text(&symbol) {
            Some(r) => Token::ReservedWord(r),
            None => Token::Symbol(symbol),
        }
    }

    /// Reads a binary or hexadecimal bitvector literal, such as `#b0110` or `#x01Ab`, from its `#`
    /// on.
    fn read_bitvector(&mut self) -> (res: Result<Token, Error>)
        requires
            old(self).wf(),
            old(self).current_char() == Some('#'),
        ensures
            final(self).wf(),
            ({
                let s = old(self).input();
                let (end, out) = bitvector_at(s, old(self).read() as int + 1);
                &&& final(self).input() == s
                &&& final(self).read() == end
                &&& final(self).name() == old(self).name()
                &&& outcome(res, out, position_at(s, end), old(self).name())
            }),
    {
        self.next_char();
        let (class, base, bits_per_char): (CharClass, u32, usize) = match self.next_char() {
            Some('b') => (CharClass::Binary, 2, 1),
            Some('x') => (CharClass::Hex, 16, 4),
            None => {
                return Err(self.err(ParserError::EmptyBitvector));
            },
            Some(other) => {
                return Err(self.err(ParserError::UnexpectedChar(other)));
            },
        };
        proof {
            lemma_run_end_bound(self.chars@, self.index as int, class);
        }
        let digits = self.read_run(class);
        let n = digits.as_str().unicode_len();
        if n == 0 {
            return Err(self.err(ParserError::EmptyBitvector));
        }
        let width = n * bits_per_char;
        Ok(Token::Bitvector(digits, base, width))
    }

    /// Reads an integer or decimal numerical literal, from its first digit on; `negated` tells
    /// whether a `-` came before it.
    fn read_number(&mut self, negated: bool) -> (res: Result<Token, Error>)
        requires
            old(self).wf(),
            old(self).current_char() matches Some(c) && '0' <= c <= '9',
            !number_has_no_denominator(old(self).input(), old(self).read() as int),
        ensures
            final(self).wf(),
            ({
                let s = old(self).input();
                let (end, out) = number_at(s, old(self).read() as int, negated);
                &&& final(self).input() == s
                &&& final(self).read() == end
                &&& final(self).name() == old(self).name()
                &&& outcome(res, out, position_at(s, end), old(self).name())
            }),
    {
        let ghost s = self.chars@;
        let ghost i = self.index as int;
        proof {
            lemma_run_end_bound(s, i, CharClass::Digit);
        }
        let first = self.read_run(CharClass::Digit);
        let n1 = first.as_str().unicode_len();
        if n1 > 1 && first.as_str().get_char(0) == '0' {
            return Err(self.err(ParserError::LeadingZero(first)));
        }
        let ghost e1 = self.index as int;
        let delimiter = match self.current() {
            Some(d) => d,
            None => '0',
        };
        if delimiter == '/' || delimiter == '.' {
            self.next_char();
            proof {
                lemma_run_end_bound(s, e1 + 1, CharClass::Digit);
            }
            let second = self.read_run(CharClass::Digit);
            match self.current() {
                Some(c) => {
                    if c == '/' || c == '.' {
                        return Err(self.err(ParserError::UnexpectedChar(c)));
                    }
                },
                None => {},
            }
            if delimiter == '/' {
                if digits_all_zero(&second) {
                    let mut message = first.clone();
                    message.append(crate::text::char_text('/').as_str());
                    message.append(crate::text::char_text('0').as_str());
                    proof {
                        assert(message@ =~= first@ + seq!['/', '0']);
                    }
                    return Err(self.err(ParserError::DivisionByZeroInLiteral(message)));
                }
                Ok(Token::Decimal(negated, first, second))
            } else {
                let mut numerator = first.clone();
                numerator.append(second.as_str());
                let denominator = power_of_ten_digits(second.as_str().unicode_len());
                Ok(Token::Decimal(negated, numerator, denominator))
            }
        } else {
            Ok(Token::Numeral(negated, first))
        }
    }

    /// Reads a token, after whitespace and comments, with the position where it starts.
    pub fn next_token(&mut self) -> (res: Result<(Token, Position), Error>)
        requires
            old(self).wf(),
            !token_has_no_denominator(old(self).input(), skip_trivia(old(self).input(), old(self).read() as int)),
        ensures
            final(self).wf(),
            ({
                let s = old(self).input();
                let start = skip_trivia(s, old(self).read() as int);
                let (end, out) = token_at(s, start);
                &&& final(self).input() == s
                &&& final(self).read() == end
                &&& final(self).name() == old(self).name()
                &&& match out {
                    Ok(tv) => (res matches Ok((tok, pos)) && tok@ == tv && pos == position_at(s, start)),
                    Err(e) => (res matches Err(Error::Parser(inner, p, n)) && inner@ == e && p == position_at(s, end)
                        && n@ == old(self).name()),
                }
            }),
    {
        self.consume_whitespace();
        let start_position = self.position();
        let ghost s = self.chars@;
        let ghost i = self.index as int;
        let token = match self.current() {
            Some('(') => {
                self.next_char();
                Token::OpenParen
            },
            Some(')') => {
                self.next_char();
                Token::CloseParen
            },
            Some('"') => match self.read_string() {
                Ok(t) => t,
                Err(e) => {
                    return Err(e);
                },
            },
            Some('|') => match self.read_quoted_symbol() {
                Ok(t) => t,
                Err(e) => {
                    return Err(e);
                },
            },
            Some(':') => self.read_keyword(),
            Some('#') => match self.read_bitvector() {
                Ok(t) => t,
                Err(e) => {
                    return Err(e);
                },
            },
            Some('-') => {
                self.next_char();
                let digit_next = match self.current() {
                    Some(c) => '0' <= c && c <= '9',
                    None => false,
                };
                if digit_next {
                    match self.read_number(true) {
                        Ok(t) => t,
                        Err(e) => {
                            return Err(e);
                        },
                    }
                } else {
                    let rest = self.read_run(CharClass::Symbol);
                    let mut symbol = crate::text::char_text('-');
                    symbol.append(rest.as_str());
                    Token::Symbol(symbol)
                }
            },
            Some(c) => {
                if '0' <= c && c <= '9' {
                    match self.read_number(false) {
                        Ok(t) => t,
                        Err(e) => {
                            return Err(e);
                        },
                    }
                } else if is_symbol_character(c) {
                    self.read_simple_symbol()
                } else {
                    return Err(self.err(ParserError::UnexpectedChar(c)));
                }
            },
            None => Token::Eof,
        };
        Ok((token, start_position))
    }
}

/// Whether every digit of `d` is `0`.
fn digits_all_zero(d: &String) -> (r: bool)
    ensures
        r == all_zeros(d@),
{
    let n = d.as_str().unicode_len();
    let mut k: usize = 0;
    while k < n
        invariant
            n == d@.len(),
            k <= n,
            forall|m: int| 0 <= m < k ==> d@[m] == '0',
        decreases n - k,
    {
        if d.as_str().get_char(k) != '0' {
            return false;
        }
        k += 1;
    }
    true
}

/// The decimal digits of `10^n`: a `1` followed by `n` zeros.
fn power_of_ten_digits(n: usize) -> (r: String)
    ensures
        r@ == seq!['1'] + zeros(n as nat),
{
    let mut r = crate::text::char_text('1');
    let mut k: usize = 0;
    while k < n
        invariant
            k <= n,
            r@ == seq!['1'] + zeros(k as nat),
        decreases n - k,
    {
        r.append(crate::text::char_text('0').as_str());
        assert(r@ =~= seq!['1'] + zeros((k + 1) as nat));
        k += 1;
    }
    r
}

/// A character is the character of its code.
proof fn lemma_char_of_code(c: char, n: nat)
    requires
        c as u32 == n,
    ensures
        (n as char) == c,
{
}

/// `16` to the power `n`.
pub open spec fn pow16(n: nat) -> nat
    decreases n,
{
    if n == 0 { 1 } else { 16 * pow16((n - 1) as nat) }
}

proof fn lemma_pow16_step(n: nat)
    requires
        n < 5,
    ensures
        pow16(n + 1) == 16 * pow16(n),
        pow16(n + 1) <= pow16(5),
        pow16(5) == 0x100000,
    decreases n,
{
    reveal_with_fuel(pow16, 6);
    if n > 0 {
        lemma_pow16_step((n - 1) as nat);
    }
}

/// The hexadecimal digits counted are at most `max`, and within `s`.
proof fn lemma_hex_run_bound(s: Seq<char>, from: int, max: int)
    requires
        0 <= from <= s.len(),
        0 <= max,
    ensures
        0 <= hex_run(s, from, max) <= max,
        from + hex_run(s, from, max) <= s.len(),
        forall|j: int| 0 <= j < hex_run(s, from, max) ==> #[trigger] hex_digit(s[from + j]) is Some,
    decreases max,
{
    if max > 0 && from < s.len() && hex_digit(s[from]) is Some {
        lemma_hex_run_bound(s, from + 1, max - 1);
        assert forall|j: int| 0 <= j < hex_run(s, from, max) implies #[trigger] hex_digit(s[from + j]) is Some by {
            if j > 0 {
                assert(hex_digit(s[from + 1 + (j - 1)]) is Some);
            }
        }
    }
}

/// Counting the hexadecimal digits from a later position.
proof fn lemma_hex_run_shift(s: Seq<char>, d: int, max: int)
    requires
        0 <= d <= s.len(),
    ensures
        hex_run(s, d, max) == hex_run(s.skip(d), 0, max),
{
    lemma_hex_run_shift_at(s, d, 0, max);
}

proof fn lemma_hex_run_shift_at(s: Seq<char>, d: int, i: int, max: int)
    requires
        0 <= d <= s.len(),
        0 <= i,
    ensures
        hex_run(s, d + i, max) == hex_run(s.skip(d), i, max),
    decreases max,
{
    if max > 0 && d + i < s.len() {
        assert(s.skip(d)[i] == s[d + i]);
        lemma_hex_run_shift_at(s, d, i + 1, max - 1);
    }
}

} // verus!
