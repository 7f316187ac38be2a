# lib

Three small tools on terms and grammars, written in Verus with their
contracts proved:

- `unification`: reads two terms (`f(x, g(y))`), solves the equation between
  them by the Martelli–Montanari procedure and writes out the solved system.
- `normalize`: reads a regular expression and rewrite rules
  (`left = right`) and rewrites the expression with them until no rule
  applies.
- `slr`: reads a grammar, builds its LR(0) automaton (written in DOT), finds
  the reduce conflicts and checks each with FOLLOW/FIRST lookahead up to a
  given length.

Layout:

- `src/text.rs`: string helpers shared by the tools.
- `src/<tool>/`: each tool's data types, spec functions and verified code;
  `laws.rs` in each holds the properties stated for all inputs.
- `tests/`: tests on concrete values.
- `app/`: the command-line program (`app unify`, `app normalize`,
  `app slr`), which reads standard input and prints the results.

Procedures that loop until a fixed point take a `fuel` argument and report
when it runs out; the program retries with more.
