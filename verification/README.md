# lucid_runtime

The verified core of the Lucid reference runtime, written in Verus. The
library's public functions carry `requires`/`ensures` contracts that Verus
proves (helpers that only serve them are proved against their own
contracts); the few calls into `num-bigint` and the standard library that
Verus cannot read stand behind small trusted wrappers whose contracts say
what those libraries document.

## Layout

- `src/integer.rs`, `src/bigint.rs`: Lucid `int` values, machine words
  that widen to arbitrary precision, and the integer operators (floor
  division, modulo, powers, three-argument `pow`, shifts, sentinels).
- `src/aggregate.rs`, `src/compare.rs`: `sum`, exact ordering of integers
  and strings, `min` and `max`.
- `src/range.rs`, `src/slice.rs`, `src/list_ops.rs`, `src/bytes.rs`:
  ranges, slicing, positional list methods, byte sequences and memory views.
- `src/hash.rs`, `src/repr.rs`, `src/literal.rs`, `src/path.rs`: hashing,
  display of integers and ranges, integer literals, dotted paths and
  callable names.
- `src/env.rs`, `src/params.rs`: lexical environments (a single chain of
  scopes, and an arena of scopes that share their enclosing scopes, as
  closures do) and argument binding.
- `src/dispatch.rs`, `src/classes.rs`, `src/class_vars.rs`: multiple
  dispatch and the class hierarchy (ancestry, `final` and `sealed` rules,
  private members, capabilities, class variables, instance layout).
- `src/equality.rs`, `src/truth.rs`, `src/set_ops.rs`: `==` on values,
  with the laws that make it an equivalence on the values the runtime
  builds, truthiness in conditions, membership (`in`), and the set
  operators `-`, `&`, `^` and `|`.
- `src/matching.rs`, `src/unpack.rs`: pattern bindings, type patterns,
  starred tuple unpacking, class patterns, and exception handlers.
- `src/sorting.rs`, `src/sequences.rs`, `src/formatting.rs`,
  `src/attrs.rs`: the builtins `sorted`, `zip`, `enumerate`, `dict`,
  `format`, `hasattr`, `setattr` and `fields` (`slice` objects are in
  `src/slice.rs`).
- `src/gather.rs`, `src/construct.rs`, `src/context.rs`: gather
  parameters, normalising objects built by factories, and the statements a
  generator-style context manager runs.
- `src/eval.rs`: the evaluator's core. Values live in an arena, so lists
  are shared rather than copied. Expressions (literals, names, arithmetic,
  `//`, `%`, bit operators and shifts, unary `-`, `+` and `~`,
  comparisons, `in`, short-circuiting `and`/`or`, `not`, list literals,
  indexing and slicing of lists, strings and ranges, `len`, `list`,
  `range(...)`, conditional expressions, `print` and list
  comprehensions) and statements (`var`/`final`
  declarations, assignment to names and to list items, augmented
  assignment, `del`, `if`, `while` and `for` with `break` and `continue`,
  `match` with guards, `try`/`except`/`finally`, `assert`, `raise`,
  `return`) and modules run exactly as the spec functions
  `eval_expr_spec`, `exec_stmt_fuel` and `module_spec` say. Scopes are
  frames of one binding list: a `for` turn and a comprehension item each
  get a scope of their own. Loops are given meaning through a
  fuel-indexed semantics, with the law that more fuel never changes an
  outcome; `eval_statement_bounded` and `eval_module_bounded` run with a
  budget of loop turns and say when it ran out.
- `src/patterns.rs`: `match` patterns over the evaluator's values:
  names, literals, type patterns and unions, and sequence patterns with a
  starred part.
- `src/modules.rs`: module loading as a step function: built-in modules,
  where a relative module's file is looked for, the module cache, reuse
  of a cached module or the report of an initialization cycle, and what a
  finished run leaves in the cache and the list of modules under way.
- `tests/`: tests of the library on concrete values.
- `app/`: what stays outside the verified library: floating point (float
  formatting, comparison, arithmetic, `//`, `%`, `**` and truthiness, and
  complex numbers), file paths, the file builtins, the environment and
  clock builtins, and the module loader's loop, which reads and runs
  module files as the library's steps direct.

Laws that span several functions are public proof functions named `law_*`.
