# carcara

A verified library for checking parts of Alethe proofs, written in Verus.

- `src/ast`: terms in a hash-consed pool, sorts, and equality of terms up to the order of the sides
  of equalities.
- `src/automata`: automata over 16-bit symbols: construction, determinization, complement,
  product, equivalence, a textual format, the automata of regular expressions, and the languages
  they accept (`language.rs`, `regex_language.rs`).
- `src/checker`: rules of the checker (arrays, clauses, strings), with their results stated as spec
  functions.
- `src/cc.rs`: a congruence closure that decides whether two terms are equal in the least
  congruence containing a list of premise equalities, and explains such an equality by a proof
  whose leaves are the premises.
- `src/elaborator/eunif.rs`: the premise equalities of a `g_eunif` step and the explanation of
  its conclusion by the congruence closure.
- `src/parser/lexer.rs`: the lexer of SMT-LIB and Alethe text.
- `src/utils.rs`: symbol characters, values with a cached hash, a stack of hash maps used as a
  symbol table, and multisets.
- `src/benchmarking`: offline metrics.
- `app/`: the error type with its `Display` and `std::error::Error` implementations.

## Not included

- The proof checker's driver and rule dispatch (`ProofChecker`), and the reconstruction of deep
  equalities: they are built on rule modules and proof types that are not part of this library.
- The proof steps that the elaboration of a `g_eunif` step builds from an explanation: the types
  of proof nodes are not part of this library. `src/elaborator/eunif.rs` gives the premise
  equalities of such a step and the explanation of its conclusion. The congruence closure
  recomputes its classes over the whole pool for each query, instead of keeping signature tables
  and a proof forest between queries; it decides the same relation, and its explanations are
  proofs of the same form, though not the same proofs.
- A deduplicating iterator adaptor, generic over the iterator, which keeps the elements seen in an
  `IndexSet`: the contents of a collection of the outside crate cannot be named over an element
  type that is a parameter. For the same reason the multiset (`MultiSet` in `src/utils.rs`) keeps
  its entries in a `Vec`, in the order the `IndexMap` of its counts has (removal moves the last
  entry into the freed position); its operations that compare elements ask that `==` be equality
  of values. Its `get_mut`, `into_iter`, `==`, `FromIterator` and `Extend` are not included. The
  stack of hash maps (`HashMapStack`) is kept over std's `HashMap`, without `retain_top` and
  `Extend`, which take caller-supplied closures and iterators.
- Online metrics, which compute with floating-point numbers, and a generator of tests that reads
  directories on disk.
- Rational values of decimal literals: the lexer keeps their numerator and denominator digits
  unreduced, since reducing them needs arbitrary-precision arithmetic.
- Sharing of terms added through one local pool with the other local pools of the same context:
  a context's own pool is shared read-only.
